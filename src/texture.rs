use vstd::prelude::*;

use crate::imaging::{
    block_bytes, compress_bc4, compress_bc5, compress_bc6h, compress_bc7, resize_r8, resize_rg8,
    resize_rgba32f, resize_rgba8,
};
use crate::pixels::{canonical_pixels, canonicalize, lemma_canonical_len, SourceImage};

verus! {

/// Pixel or block layout of every mip buffer of a texture.
#[derive(Debug, Clone, Copy, PartialEq, Eq, Structural)]
pub enum TextureFormat {
    Uncompressed(UncompressedTextureFormat),
    Compressed(CompressedTextureFormat),
}

/// Block-compression families a caller may ask for.
#[derive(Debug, Clone, Copy, PartialEq, Eq, Structural)]
pub enum TextureCompression {
    Bc,
    Astc,
}

/// The four canonical pixel layouts.
#[derive(Debug, Clone, Copy, PartialEq, Eq, Structural)]
pub enum UncompressedTextureFormat {
    R8Unorm,
    Rg8Unorm,
    Rgba8Unorm,
    Rgba32Float,
}

/// Block-compressed layouts, one per canonical pixel layout.
#[derive(Debug, Clone, Copy, PartialEq, Eq, Structural)]
pub enum CompressedTextureFormat {
    Bc4RUnorm,
    Bc5RgUnorm,
    Bc7RgbaUnorm,
    Bc6hRgbUfloat,
}

/// Number of 4x4 blocks that cover `width` texels of a row.
pub open spec fn blocks_across(width: nat) -> nat {
    (width + 3) / 4
}

impl TextureFormat {
    pub open spec fn spec_bytes_per_row(self, width: nat) -> nat {
        match self {
            TextureFormat::Uncompressed(f) => f.spec_bytes_per_row(width),
            TextureFormat::Compressed(f) => f.spec_bytes_per_row(width),
        }
    }

    /// Bytes of one row of texels (of one row of blocks, when compressed).
    pub fn bytes_per_row(&self, width: u32) -> (r: usize)
        requires
            self.spec_bytes_per_row(width as nat) <= usize::MAX,
        ensures
            r == self.spec_bytes_per_row(width as nat),
    {
        match self {
            TextureFormat::Uncompressed(format) => format.bytes_per_row(width),
            TextureFormat::Compressed(format) => format.bytes_per_row(width),
        }
    }
}

impl UncompressedTextureFormat {
    pub open spec fn spec_num_channels(self) -> nat {
        match self {
            UncompressedTextureFormat::R8Unorm => 1,
            UncompressedTextureFormat::Rg8Unorm => 2,
            UncompressedTextureFormat::Rgba8Unorm => 4,
            UncompressedTextureFormat::Rgba32Float => 4,
        }
    }

    pub open spec fn spec_bytes_per_channel(self) -> nat {
        match self {
            UncompressedTextureFormat::Rgba32Float => 4,
            _ => 1,
        }
    }

    pub open spec fn spec_bytes_per_pixel(self) -> nat {
        match self {
            UncompressedTextureFormat::R8Unorm => 1,
            UncompressedTextureFormat::Rg8Unorm => 2,
            UncompressedTextureFormat::Rgba8Unorm => 4,
            UncompressedTextureFormat::Rgba32Float => 16,
        }
    }

    pub open spec fn spec_bytes_per_row(self, width: nat) -> nat {
        width * self.spec_bytes_per_pixel()
    }

    pub open spec fn spec_as_compressed(self) -> CompressedTextureFormat {
        match self {
            UncompressedTextureFormat::R8Unorm => CompressedTextureFormat::Bc4RUnorm,
            UncompressedTextureFormat::Rg8Unorm => CompressedTextureFormat::Bc5RgUnorm,
            UncompressedTextureFormat::Rgba8Unorm => CompressedTextureFormat::Bc7RgbaUnorm,
            UncompressedTextureFormat::Rgba32Float => CompressedTextureFormat::Bc6hRgbUfloat,
        }
    }

    pub fn num_channels(&self) -> (r: usize)
        ensures
            r == self.spec_num_channels(),
    {
        match self {
            UncompressedTextureFormat::R8Unorm => 1,
            UncompressedTextureFormat::Rg8Unorm => 2,
            UncompressedTextureFormat::Rgba8Unorm => 4,
            UncompressedTextureFormat::Rgba32Float => 4,
        }
    }

    pub fn bytes_per_channel(&self) -> (r: usize)
        ensures
            r == self.spec_bytes_per_channel(),
    {
        match self {
            UncompressedTextureFormat::R8Unorm
            | UncompressedTextureFormat::Rg8Unorm
            | UncompressedTextureFormat::Rgba8Unorm => 1,
            UncompressedTextureFormat::Rgba32Float => 4,
        }
    }

    pub fn bytes_per_row(&self, width: u32) -> (r: usize)
        requires
            self.spec_bytes_per_row(width as nat) <= usize::MAX,
        ensures
            r == self.spec_bytes_per_row(width as nat),
    {
        let c = self.num_channels();
        let b = self.bytes_per_channel();
        width as usize * (c * b)
    }

    /// The block-compressed layout that stands for this one under
    /// `texture_compression`; ASTC is not implemented and fails.
    pub fn try_as_compressed(&self, texture_compression: &TextureCompression) -> (r: Result<
        &CompressedTextureFormat,
        TextureError,
    >)
        ensures
            *texture_compression == TextureCompression::Bc ==> r == Ok::<
                &CompressedTextureFormat,
                TextureError,
            >(&self.spec_as_compressed()),
            *texture_compression == TextureCompression::Astc ==> r == Err::<
                &CompressedTextureFormat,
                TextureError,
            >(TextureError::UnsupportedCompression),
    {
        match texture_compression {
            TextureCompression::Bc => match self {
                UncompressedTextureFormat::R8Unorm => Ok(&CompressedTextureFormat::Bc4RUnorm),
                UncompressedTextureFormat::Rg8Unorm => Ok(&CompressedTextureFormat::Bc5RgUnorm),
                UncompressedTextureFormat::Rgba8Unorm => Ok(&CompressedTextureFormat::Bc7RgbaUnorm),
                UncompressedTextureFormat::Rgba32Float => Ok(&CompressedTextureFormat::Bc6hRgbUfloat),
            },
            TextureCompression::Astc => Err(TextureError::UnsupportedCompression),
        }
    }
}

impl CompressedTextureFormat {
    pub open spec fn spec_block_size(self) -> nat {
        match self {
            CompressedTextureFormat::Bc4RUnorm => 8,
            _ => 16,
        }
    }

    pub open spec fn spec_bytes_per_row(self, width: nat) -> nat {
        blocks_across(width) * self.spec_block_size()
    }

    /// Bytes of one 4x4 block.
    pub fn block_size(&self) -> (r: usize)
        ensures
            r == self.spec_block_size(),
    {
        match self {
            CompressedTextureFormat::Bc4RUnorm => 8,
            CompressedTextureFormat::Bc5RgUnorm
            | CompressedTextureFormat::Bc7RgbaUnorm
            | CompressedTextureFormat::Bc6hRgbUfloat => 16,
        }
    }

    pub fn bytes_per_row(&self, width: u32) -> (r: usize)
        requires
            self.spec_bytes_per_row(width as nat) <= usize::MAX,
        ensures
            r == self.spec_bytes_per_row(width as nat),
    {
        let blocks: u32 = width / 4 + if width % 4 == 0 { 0 } else { 1 };
        proof {
            assert(blocks as nat == blocks_across(width as nat));
        }
        blocks as usize * self.block_size()
    }
}

/// One side of the next mip level: half as long, and at least 1.
pub open spec fn next_mip_dim(d: nat) -> nat {
    if d >= 2 {
        d / 2
    } else {
        1
    }
}

pub open spec fn max_nat(a: nat, b: nat) -> nat {
    if a >= b {
        a
    } else {
        b
    }
}

/// Width and height of each mip level, from the base level down to 1x1.
pub open spec fn mip_chain(w: nat, h: nat) -> Seq<(nat, nat)>
    decreases max_nat(w, h),
{
    if w <= 1 && h <= 1 {
        seq![(w, h)]
    } else {
        seq![(w, h)] + mip_chain(next_mip_dim(w), next_mip_dim(h))
    }
}

/// `floor(log2(n))` for `n >= 1`.
pub open spec fn log2_floor(n: nat) -> nat
    decreases n,
{
    if n <= 1 {
        0
    } else {
        1 + log2_floor(n / 2)
    }
}

/// The mip chain starts at the base size and each level halves the one
/// before, per axis and never below 1.
pub proof fn lemma_mip_chain_steps(w: nat, h: nat)
    ensures
        mip_chain(w, h).len() >= 1,
        mip_chain(w, h)[0] == (w, h),
        forall|i: int|
            0 <= i < mip_chain(w, h).len() - 1 ==> #[trigger] mip_chain(w, h)[i + 1] == (
            next_mip_dim(mip_chain(w, h)[i].0),
            next_mip_dim(mip_chain(w, h)[i].1),
        ),
        mip_chain(w, h).len() > 1 ==> mip_chain(w, h).drop_first() == mip_chain(
            next_mip_dim(w),
            next_mip_dim(h),
        ),
        mip_chain(w, h).len() > 1 <==> (w > 1 || h > 1),
    decreases max_nat(w, h),
{
    if !(w <= 1 && h <= 1) {
        let nw = next_mip_dim(w);
        let nh = next_mip_dim(h);
        lemma_mip_chain_steps(nw, nh);
        let c = mip_chain(w, h);
        let d = mip_chain(nw, nh);
        assert(c.drop_first() =~= d);
        assert forall|i: int| 0 <= i < c.len() - 1 implies #[trigger] c[i + 1] == (
            next_mip_dim(c[i].0),
            next_mip_dim(c[i].1),
        ) by {
            if i > 0 {
                assert(c[i + 1] == d[i]);
                assert(c[i] == d[i - 1]);
                assert(d[(i - 1) + 1] == (next_mip_dim(d[i - 1].0), next_mip_dim(d[i - 1].1)));
            }
        }
    }
}

/// Every level of the chain ends at 1x1, and no side is ever above the larger
/// of the base side and 1.
pub proof fn lemma_mip_chain_bounds(w: nat, h: nat)
    ensures
        mip_chain(w, h).last() == (1nat, 1nat) || (w <= 1 && h <= 1),
        forall|i: int|
            0 <= i < mip_chain(w, h).len() ==> #[trigger] mip_chain(w, h)[i].0 <= max_nat(w, 1)
                && mip_chain(w, h)[i].1 <= max_nat(h, 1),
    decreases max_nat(w, h),
{
    if !(w <= 1 && h <= 1) {
        let nw = next_mip_dim(w);
        let nh = next_mip_dim(h);
        lemma_mip_chain_bounds(nw, nh);
        let c = mip_chain(w, h);
        let d = mip_chain(nw, nh);
        assert forall|i: int| 0 <= i < c.len() implies #[trigger] c[i].0 <= max_nat(w, 1)
            && c[i].1 <= max_nat(h, 1) by {
            if i > 0 {
                assert(c[i] == d[i - 1]);
            }
        }
        assert(c.last() == d.last());
    }
}

/// A `w` x `h` texture has `floor(log2(max(w, h))) + 1` mip levels, each half
/// the size of the one before per axis (never below 1), the last one 1x1.
pub proof fn lemma_mip_chain_length(w: nat, h: nat)
    requires
        w >= 1,
        h >= 1,
    ensures
        mip_chain(w, h).len() == log2_floor(max_nat(w, h)) + 1,
        mip_chain(w, h).last() == (1nat, 1nat),
        mip_chain(w, h)[0] == (w, h),
        forall|i: int|
            0 <= i < mip_chain(w, h).len() - 1 ==> #[trigger] mip_chain(w, h)[i + 1] == (
            next_mip_dim(mip_chain(w, h)[i].0),
            next_mip_dim(mip_chain(w, h)[i].1),
        ),
    decreases max_nat(w, h),
{
    lemma_mip_chain_steps(w, h);
    lemma_mip_chain_bounds(w, h);
    if !(w <= 1 && h <= 1) {
        let nw = next_mip_dim(w);
        let nh = next_mip_dim(h);
        lemma_mip_chain_length(nw, nh);
        assert(max_nat(nw, nh) == max_nat(w, h) / 2);
    }
}

/// The chain from level `k` on is the chain of level `k`'s size.
proof fn lemma_chain_suffix(w: nat, h: nat, k: int)
    requires
        0 <= k < mip_chain(w, h).len(),
    ensures
        mip_chain(w, h).skip(k) == mip_chain(mip_chain(w, h)[k].0, mip_chain(w, h)[k].1),
    decreases k,
{
    lemma_mip_chain_steps(w, h);
    let c = mip_chain(w, h);
    if k == 0 {
        assert(c.skip(0) =~= c);
    } else {
        let d = mip_chain(next_mip_dim(w), next_mip_dim(h));
        lemma_chain_suffix(next_mip_dim(w), next_mip_dim(h), k - 1);
        assert(c.skip(k) =~= d.skip(k - 1));
        assert(c[k] == d[k - 1]);
    }
}

pub open spec fn pow2_nat(k: nat) -> nat
    decreases k,
{
    if k == 0 {
        1
    } else {
        2 * pow2_nat((k - 1) as nat)
    }
}

/// Sides below `2^k` give at most `k + 1` levels.
proof fn lemma_mip_chain_len_pow2(w: nat, h: nat, k: nat)
    requires
        max_nat(w, h) < pow2_nat(k),
    ensures
        mip_chain(w, h).len() <= k + 1,
    decreases k,
{
    if !(w <= 1 && h <= 1) {
        assert(k >= 1);
        lemma_mip_chain_len_pow2(next_mip_dim(w), next_mip_dim(h), (k - 1) as nat);
    }
}

/// A mip chain has at most 33 levels.
proof fn lemma_mip_chain_length_bound(w: nat, h: nat)
    requires
        w <= u32::MAX,
        h <= u32::MAX,
    ensures
        mip_chain(w, h).len() <= 33,
{
    reveal_with_fuel(pow2_nat, 33);
    assert(pow2_nat(32) == 0x1_0000_0000);
    lemma_mip_chain_len_pow2(w, h, 32);
}

/// The size of every mip level of a `width` x `height` texture.
pub fn mip_dimensions(width: u32, height: u32) -> (r: Vec<(u32, u32)>)
    ensures
        r@.len() == mip_chain(width as nat, height as nat).len(),
        forall|i: int|
            0 <= i < r@.len() ==> (#[trigger] r@[i].0 as nat, r@[i].1 as nat) == mip_chain(
                width as nat,
                height as nat,
            )[i],
{
    let ghost chain = mip_chain(width as nat, height as nat);
    proof {
        lemma_mip_chain_steps(width as nat, height as nat);
        lemma_mip_chain_bounds(width as nat, height as nat);
    }
    let mut r: Vec<(u32, u32)> = Vec::new();
    let mut w = width;
    let mut h = height;
    r.push((w, h));
    proof {
        lemma_chain_suffix(width as nat, height as nat, 0);
        lemma_mip_chain_steps(w as nat, h as nat);
    }
    while w > 1 || h > 1
        invariant
            1 <= r@.len() <= chain.len(),
            (w as nat, h as nat) == chain[r@.len() - 1],
            chain.skip(r@.len() - 1) == mip_chain(w as nat, h as nat),
            chain.len() > r@.len() <==> (w > 1 || h > 1),
            forall|i: int| 0 <= i < r@.len() ==> (#[trigger] r@[i].0 as nat, r@[i].1 as nat) == chain[i],
            chain == mip_chain(width as nat, height as nat),
            forall|i: int|
                0 <= i < chain.len() - 1 ==> #[trigger] chain[i + 1] == (
                next_mip_dim(chain[i].0),
                next_mip_dim(chain[i].1),
            ),
        decreases chain.len() - r@.len(),
    {
        w = if w >= 2 { w / 2 } else { 1 };
        h = if h >= 2 { h / 2 } else { 1 };
        let ghost k = r@.len() - 1;
        assert(chain[k + 1] == (next_mip_dim(chain[k].0), next_mip_dim(chain[k].1)));
        r.push((w, h));
        proof {
            lemma_chain_suffix(width as nat, height as nat, r@.len() - 1);
            lemma_mip_chain_steps(w as nat, h as nat);
        }
    }
    r
}

/// Why a texture could not be built.
#[derive(Debug, Clone, Copy, PartialEq, Eq, Structural)]
pub enum TextureError {
    /// The source pixels have no canonical layout.
    UnsupportedPixelLayout,
    /// A normal map whose canonical layout is not four 8-bit channels needs
    /// more than one mip level.
    NormalMapWithoutColor,
    /// A compression family that is not implemented was asked for.
    UnsupportedCompression,
}

/// What a texture is built from. Float parameters are held as their IEEE-754
/// bit patterns.
#[derive(Debug, Clone)]
pub struct TextureCreateDesc {
    /// The texture's name; a placeholder when absent.
    pub name: Option<String>,
    pub image: SourceImage,
    /// Whether the caller asked for mips; every texture gets its whole chain.
    pub mips: bool,
    /// Levels below the base are filtered as directions, not as colors.
    pub is_normal_map: bool,
    /// The longest side the base level may have.
    pub max_resolution: Option<u32>,
    pub uv_offset: [u32; 2],
    pub uv_scale: [u32; 2],
}

/// A texture with its whole mip chain. Float parameters are held as their
/// IEEE-754 bit patterns.
#[derive(Debug, Clone)]
pub struct Texture {
    name: String,
    uuid: u128,
    width: u32,
    height: u32,
    mip_count: u32,
    format: TextureFormat,
    data: Vec<Vec<u8>>,
    uv_offset: [u32; 2],
    uv_scale: [u32; 2],
}

/// The spatial granularity of block compression: blocks are 4x4 texels.
pub const BLOCK_EDGE: u32 = 4;

/// How many of the `n` levels starting at a `w` x `h` level are compressed:
/// compression stops once the next level is narrower or shorter than a
/// `block` x `block` block.
pub open spec fn compressed_mip_count(w: nat, h: nat, n: nat, block: nat) -> nat
    decreases n,
{
    if n <= 1 {
        n
    } else if next_mip_dim(w) < block || next_mip_dim(h) < block {
        1
    } else {
        1 + compressed_mip_count(next_mip_dim(w), next_mip_dim(h), (n - 1) as nat, block)
    }
}

/// Level `i + 1` of `d` is level `i` halved: by `normal_filter` for a normal
/// map (ordinary levels are resampled, of which only the size is known).
pub open spec fn level_follows<F: Fn(&Vec<u8>, u32, u32, u32, u32) -> Vec<u8>>(
    is_normal_map: bool,
    format: UncompressedTextureFormat,
    normal_filter: &F,
    chain: Seq<(nat, nat)>,
    d: Seq<Vec<u8>>,
    i: int,
) -> bool {
    if is_normal_map {
        normal_filter.ensures(
            (
                &d[i],
                chain[i].0 as u32,
                chain[i].1 as u32,
                chain[i + 1].0 as u32,
                chain[i + 1].1 as u32,
            ),
            d[i + 1],
        )
    } else {
        true
    }
}

/// Sizes for which every level can be handed to the block compressor.
pub open spec fn fits_block_compression(w: nat, h: nat) -> bool {
    max_nat(w, 1) * max_nat(h, 1) + 15 <= u32::MAX && max_nat(w, 1) * 16 <= i32::MAX && max_nat(
        h,
        1,
    ) <= i32::MAX
}

/// Buffers that fit a texture of this size and format: one per mip level,
/// each as long as the level's texels (or blocks) take; the whole chain when
/// uncompressed, a non-empty prefix of it when compressed.
pub open spec fn parts_fit(width: u32, height: u32, format: TextureFormat, data: Seq<Vec<u8>>) -> bool {
    let chain = mip_chain(width as nat, height as nat);
    &&& 1 <= data.len() <= chain.len()
    &&& match format {
        TextureFormat::Uncompressed(f) => {
            &&& data.len() == chain.len()
            &&& forall|i: int|
                0 <= i < data.len() ==> (#[trigger] data[i])@.len() == chain[i].0 * chain[i].1
                    * f.spec_bytes_per_pixel()
        },
        TextureFormat::Compressed(f) => forall|i: int|
            0 <= i < data.len() ==> (#[trigger] data[i])@.len() == block_bytes(
                chain[i].0,
                chain[i].1,
                f.spec_block_size(),
            ),
    }
}

/// Relies on uuid::Uuid::new_v4: a random identifier.
#[verifier::external_body]
fn fresh_uuid() -> (r: u128) {
    uuid::Uuid::new_v4().as_u128()
}

/// The normal-map filter can be called on anything, and on an RGBA8 level
/// of `w` x `h` texels yields four bytes for each of the `nw` x `nh`
/// destination texels (no side larger than the source's, or 1).
pub open spec fn normal_filter_ok<F: Fn(&Vec<u8>, u32, u32, u32, u32) -> Vec<u8>>(f: &F) -> bool {
    &&& forall|p: &Vec<u8>, w: u32, h: u32, nw: u32, nh: u32|
        #[trigger] f.requires((p, w, h, nw, nh))
    &&& forall|p: &Vec<u8>, w: u32, h: u32, nw: u32, nh: u32, q: Vec<u8>|
        #[trigger] f.ensures((p, w, h, nw, nh), q) && p@.len() == w as nat * h as nat * 4
            && nw as nat <= max_nat(w as nat, 1) && nh as nat <= max_nat(h as nat, 1)
            ==> q@.len() == nw as nat * nh as nat * 4
}

/// Size of the base level: a side above the cap scales both sides by the
/// same factor, so that the longer one becomes the cap.
pub open spec fn capped_size(w: nat, h: nat, cap: Option<u32>) -> (nat, nat) {
    match cap {
        Some(c) => if c < w || c < h {
            let m = max_nat(w, h);
            ((w * c as nat) / m, (h * c as nat) / m)
        } else {
            (w, h)
        },
        None => (w, h),
    }
}

/// The base level under the resolution cap `cap`: `base` itself, or `base`
/// resampled to the capped size.
fn fit_base(
    format: UncompressedTextureFormat,
    w: u32,
    h: u32,
    base: Vec<u8>,
    cap: Option<u32>,
) -> (r: (u32, u32, Vec<u8>))
    requires
        base@.len() == w as nat * h as nat * format.spec_bytes_per_pixel(),
    ensures
        (r.0 as nat, r.1 as nat) == capped_size(w as nat, h as nat, cap),
        r.2@.len() == r.0 as nat * r.1 as nat * format.spec_bytes_per_pixel(),
        (r.0 as nat, r.1 as nat) == (w as nat, h as nat) ==> r.2@ == base@,
{
    match cap {
        Some(c) => {
            if c < w || c < h {
                let m: u64 = if w >= h { w as u64 } else { h as u64 };
                proof {
                    assert((w as nat * c as nat) / (m as nat) <= c as nat) by (nonlinear_arith)
                        requires w as nat <= m as nat, m > 0;
                    assert((h as nat * c as nat) / (m as nat) <= c as nat) by (nonlinear_arith)
                        requires h as nat <= m as nat, m > 0;
                    assert(w as nat * c as nat <= 0xffff_ffff * 0xffff_ffff) by (nonlinear_arith)
                        requires w <= 0xffff_ffff, c <= 0xffff_ffff;
                    assert(h as nat * c as nat <= 0xffff_ffff * 0xffff_ffff) by (nonlinear_arith)
                        requires h <= 0xffff_ffff, c <= 0xffff_ffff;
                }
                let nw = ((w as u64 * c as u64) / m) as u32;
                let nh = ((h as u64 * c as u64) / m) as u32;
                if nw == w && nh == h {
                    return (w, h, base);
                }
                let p = resize_level(format, w, h, &base, nw, nh);
                (nw, nh, p)
            } else {
                (w, h, base)
            }
        },
        None => (w, h, base),
    }
}

/// The level after `cur` (a `w` x `h` image of `format`), of size `nw` x `nh`.
fn next_level<F>(
    is_normal_map: bool,
    format: UncompressedTextureFormat,
    normal_filter: &F,
    cur: &Vec<u8>,
    w: u32,
    h: u32,
    nw: u32,
    nh: u32,
) -> (r: Vec<u8>) where F: Fn(&Vec<u8>, u32, u32, u32, u32) -> Vec<u8>
    requires
        cur@.len() == w as nat * h as nat * format.spec_bytes_per_pixel(),
        is_normal_map ==> format == UncompressedTextureFormat::Rgba8Unorm,
        nw as nat <= max_nat(w as nat, 1),
        nh as nat <= max_nat(h as nat, 1),
        normal_filter_ok(normal_filter),
    ensures
        r@.len() == nw as nat * nh as nat * format.spec_bytes_per_pixel(),
        is_normal_map ==> normal_filter.ensures((cur, w, h, nw, nh), r),
{
    if is_normal_map {
        normal_filter(cur, w, h, nw, nh)
    } else {
        resize_level(format, w, h, cur, nw, nh)
    }
}

/// `cur` (a `w` x `h` image of `format`) resampled to `nw` x `nh`.
fn resize_level(
    format: UncompressedTextureFormat,
    w: u32,
    h: u32,
    cur: &Vec<u8>,
    nw: u32,
    nh: u32,
) -> (r: Vec<u8>)
    requires
        cur@.len() == w as nat * h as nat * format.spec_bytes_per_pixel(),
    ensures
        r@.len() == nw as nat * nh as nat * format.spec_bytes_per_pixel(),
{
    match format {
        UncompressedTextureFormat::R8Unorm => resize_r8(w, h, cur, nw, nh),
        UncompressedTextureFormat::Rg8Unorm => resize_rg8(w, h, cur, nw, nh),
        UncompressedTextureFormat::Rgba8Unorm => resize_rgba8(w, h, cur, nw, nh),
        UncompressedTextureFormat::Rgba32Float => resize_rgba32f(w, h, cur, nw, nh),
    }
}

/// The mip chain of `base`, a `width` x `height` image of `format`.
fn generate_mips<F>(
    is_normal_map: bool,
    format: UncompressedTextureFormat,
    normal_filter: &F,
    base: Vec<u8>,
    width: u32,
    height: u32,
) -> (data: Vec<Vec<u8>>) where F: Fn(&Vec<u8>, u32, u32, u32, u32) -> Vec<u8>
    requires
        base@.len() == width as nat * height as nat * format.spec_bytes_per_pixel(),
        is_normal_map ==> format == UncompressedTextureFormat::Rgba8Unorm || mip_chain(
            width as nat,
            height as nat,
        ).len() == 1,
        normal_filter_ok(normal_filter),
    ensures
        data@.len() == mip_chain(width as nat, height as nat).len(),
        data@[0]@ == base@,
        forall|i: int|
            0 <= i < data@.len() ==> (#[trigger] data@[i])@.len() == mip_chain(
                width as nat,
                height as nat,
            )[i].0 * mip_chain(width as nat, height as nat)[i].1 * format.spec_bytes_per_pixel(),
        forall|i: int|
            0 <= i < data@.len() - 1 ==> #[trigger] level_follows(
                is_normal_map,
                format,
                normal_filter,
                mip_chain(width as nat, height as nat),
                data@,
                i,
            ),
{
    let ghost chain = mip_chain(width as nat, height as nat);
    let ghost bpp = format.spec_bytes_per_pixel();
    proof {
        lemma_mip_chain_steps(width as nat, height as nat);
        lemma_mip_chain_bounds(width as nat, height as nat);
        lemma_chain_suffix(width as nat, height as nat, 0);
    }
        let mut data: Vec<Vec<u8>> = Vec::new();
    let mut w = width;
    let mut h = height;
    let mut cur = base;
    while w > 1 || h > 1
        invariant
            chain == mip_chain(width as nat, height as nat),
            bpp == format.spec_bytes_per_pixel(),
            data@.len() < chain.len(),
            (w as nat, h as nat) == chain[data@.len() as int],
            chain.skip(data@.len() as int) == mip_chain(w as nat, h as nat),
            cur@.len() == w as nat * h as nat * bpp,
            is_normal_map ==> format == UncompressedTextureFormat::Rgba8Unorm
                || chain.len() == 1,
            forall|i: int|
                0 <= i < chain.len() - 1 ==> #[trigger] chain[i + 1] == (
                    next_mip_dim(chain[i].0),
                    next_mip_dim(chain[i].1),
                ),
            forall|i: int|
                0 <= i < chain.len() ==> #[trigger] chain[i].0 <= max_nat(
                    width as nat,
                    1,
                ) && chain[i].1 <= max_nat(height as nat, 1),
            normal_filter_ok(normal_filter),
            data@.len() == 0 ==> cur@ == base@,
            data@.len() > 0 ==> data@[0]@ == base@,
            forall|i: int|
                0 <= i < data@.len() ==> (#[trigger] data@[i])@.len() == chain[i].0
                    * chain[i].1 * bpp,
            forall|i: int|
                0 <= i < data@.len() ==> #[trigger] level_follows(
                    is_normal_map,
                    format,
                    normal_filter,
                    chain,
                    data@.push(cur),
                    i,
                ),
        decreases chain.len() - data@.len(),
    {
        proof {
            lemma_mip_chain_steps(w as nat, h as nat);
        }
        let nw: u32 = if w >= 2 { w / 2 } else { 1 };
        let nh: u32 = if h >= 2 { h / 2 } else { 1 };
        let ghost k = data@.len() as int;
        assert(chain[k + 1] == (nw as nat, nh as nat));
        let next = next_level(is_normal_map, format, normal_filter, &cur, w, h, nw, nh);
        let ghost old_data = data@;
        let ghost old_cur = cur;
        data.push(cur);
        cur = next;
        w = nw;
        h = nh;
        proof {
            lemma_chain_suffix(width as nat, height as nat, k + 1);
            assert(data@.push(cur) =~= old_data.push(old_cur).push(cur));
            assert forall|i: int| 0 <= i < data@.len() implies #[trigger] level_follows(
                is_normal_map,
                format,
                normal_filter,
                chain,
                data@.push(cur),
                i,
            ) by {
                if i < k {
                    assert(level_follows(
                        is_normal_map,
                        format,
                        normal_filter,
                        chain,
                        old_data.push(old_cur),
                        i,
                    ));
                }
            }
        }
    }
    proof {
        lemma_mip_chain_steps(w as nat, h as nat);
    }
    let ghost prev = data@;
    data.push(cur);
    assert(data@ =~= prev.push(cur));
    assert(data@.len() == chain.len());
    data
}

impl Texture {
    pub closed spec fn spec_name(&self) -> Seq<char> {
        self.name@
    }

    pub closed spec fn spec_uuid(&self) -> u128 {
        self.uuid
    }

    pub closed spec fn spec_width(&self) -> u32 {
        self.width
    }

    pub closed spec fn spec_height(&self) -> u32 {
        self.height
    }

    pub closed spec fn spec_mip_count(&self) -> u32 {
        self.mip_count
    }

    pub closed spec fn spec_format(&self) -> TextureFormat {
        self.format
    }

    pub closed spec fn spec_data(&self) -> Seq<Vec<u8>> {
        self.data@
    }

    pub closed spec fn spec_uv_offset(&self) -> [u32; 2] {
        self.uv_offset
    }

    pub closed spec fn spec_uv_scale(&self) -> [u32; 2] {
        self.uv_scale
    }

    /// The mip count matches the buffers, and the format fixes every buffer's
    /// length: the whole chain when uncompressed, a prefix of it in blocks
    /// when compressed.
    pub open spec fn wf(&self) -> bool {
        &&& self.spec_data().len() == self.spec_mip_count() as nat
        &&& parts_fit(self.spec_width(), self.spec_height(), self.spec_format(), self.spec_data())
    }

    /// Builds the texture of a source image: its pixels are brought to their
    /// canonical layout, then halved level by level down to 1x1. Ordinary
    /// levels are resampled with a Catmull-Rom filter; the levels of a normal
    /// map come from `normal_filter`, which averages directions.
    #[verifier::rlimit(40)]
    pub fn new<F>(desc: TextureCreateDesc, normal_filter: &F) -> (r: Result<Texture, TextureError>)
        where
            F: Fn(&Vec<u8>, u32, u32, u32, u32) -> Vec<u8>,
        requires
            desc.image.wf(),
            normal_filter_ok(normal_filter),
        ensures
            desc.image.layout.spec_canonical().is_none() ==> r == Err::<Texture, TextureError>(
                TextureError::UnsupportedPixelLayout,
            ),
            desc.image.layout.spec_canonical().is_some() ==> {
                let f = desc.image.layout.spec_canonical().unwrap();
                let size = capped_size(
                    desc.image.width as nat,
                    desc.image.height as nat,
                    desc.max_resolution,
                );
                let chain = mip_chain(size.0, size.1);
                if desc.is_normal_map && f != UncompressedTextureFormat::Rgba8Unorm && chain.len()
                    > 1 {
                    r == Err::<Texture, TextureError>(TextureError::NormalMapWithoutColor)
                } else {
                    &&& r is Ok
                    &&& r.unwrap().wf()
                    &&& r.unwrap().spec_width() == size.0
                    &&& r.unwrap().spec_height() == size.1
                    &&& r.unwrap().spec_format() == TextureFormat::Uncompressed(f)
                    &&& r.unwrap().spec_name() == (match desc.name {
                        Some(n) => n@,
                        None => "Unnamed"@,
                    })
                    &&& r.unwrap().spec_uv_offset() == desc.uv_offset
                    &&& r.unwrap().spec_uv_scale() == desc.uv_scale
                    &&& size == (desc.image.width as nat, desc.image.height as nat)
                        ==> r.unwrap().spec_data()[0]@ == canonical_pixels(
                        desc.image.layout,
                        desc.image.pixels@,
                    )
                    &&& forall|i: int|
                        0 <= i < chain.len() - 1 ==> #[trigger] level_follows(
                            desc.is_normal_map,
                            f,
                            normal_filter,
                            chain,
                            r.unwrap().spec_data(),
                            i,
                        )
                }
            },
    {
        let (format, base) = match canonicalize(&desc.image) {
            Some(x) => x,
            None => {
                return Err(TextureError::UnsupportedPixelLayout);
            },
        };
        proof {
            lemma_canonical_len(&desc.image);
        }
        let (width, height, base) = fit_base(
            format,
            desc.image.width,
            desc.image.height,
            base,
            desc.max_resolution,
        );
        proof {
            lemma_mip_chain_steps(width as nat, height as nat);
        }
        if desc.is_normal_map && !(format == UncompressedTextureFormat::Rgba8Unorm) && (width > 1
            || height > 1) {
            return Err(TextureError::NormalMapWithoutColor);
        }
        let data = generate_mips(desc.is_normal_map, format, normal_filter, base, width, height);
        proof {
            lemma_mip_chain_length_bound(width as nat, height as nat);
        }
        let mip_count = data.len() as u32;
        let name = match desc.name {
            Some(n) => n,
            None => "Unnamed".to_string(),
        };
        Ok(Texture {
            name,
            uuid: fresh_uuid(),
            width,
            height,
            mip_count,
            format: TextureFormat::Uncompressed(format),
            data,
            uv_offset: desc.uv_offset,
            uv_scale: desc.uv_scale,
        })
    }

    pub fn name(&self) -> (r: &str)
        ensures
            r@ == self.spec_name(),
    {
        self.name.as_str()
    }

    pub fn uuid(&self) -> (r: u128)
        ensures
            r == self.spec_uuid(),
    {
        self.uuid
    }

    pub fn width(&self) -> (r: u32)
        ensures
            r == self.spec_width(),
    {
        self.width
    }

    pub fn height(&self) -> (r: u32)
        ensures
            r == self.spec_height(),
    {
        self.height
    }

    pub fn format(&self) -> (r: TextureFormat)
        ensures
            r == self.spec_format(),
    {
        self.format
    }

    pub fn data(&self) -> (r: &[Vec<u8>])
        ensures
            r@ == self.spec_data(),
    {
        self.data.as_slice()
    }

    pub fn uv_offset(&self) -> (r: [u32; 2])
        ensures
            r == self.spec_uv_offset(),
    {
        self.uv_offset
    }

    pub fn uv_scale(&self) -> (r: [u32; 2])
        ensures
            r == self.spec_uv_scale(),
    {
        self.uv_scale
    }

    /// The block-compressed variant of an uncompressed texture, under a fresh
    /// identifier; `None` for a texture that is compressed already. Levels
    /// are compressed from the base down, and compression stops once the
    /// next level is narrower or shorter than a 4x4 block.
    /// Floating-point levels are first narrowed to half precision by
    /// `narrow_to_half`.
    pub fn compress<H>(&self, texture_compression: &TextureCompression, narrow_to_half: &H) -> (r:
        Result<Option<Texture>, TextureError>) where H: Fn(&Vec<u8>) -> Vec<u8>
        requires
            self.wf(),
            self.spec_format() is Uncompressed && *texture_compression == TextureCompression::Bc
                ==> fits_block_compression(self.spec_width() as nat, self.spec_height() as nat),
            forall|p: &Vec<u8>| #[trigger] narrow_to_half.requires((p,)),
            forall|p: &Vec<u8>, q: Vec<u8>|
                #[trigger] narrow_to_half.ensures((p,), q) ==> q@.len() == p@.len() / 2,
        ensures
            self.spec_format() is Compressed ==> r == Ok::<Option<Texture>, TextureError>(None),
            self.spec_format() is Uncompressed && *texture_compression == TextureCompression::Astc
                ==> r == Err::<Option<Texture>, TextureError>(TextureError::UnsupportedCompression),
            *texture_compression == TextureCompression::Bc ==> (self.spec_format() matches TextureFormat::Uncompressed(f) ==> {
                let c = f.spec_as_compressed();
                &&& r matches Ok(Some(_))
                &&& r.unwrap().unwrap().wf()
                &&& r.unwrap().unwrap().spec_format() == TextureFormat::Compressed(c)
                &&& r.unwrap().unwrap().spec_name() == self.spec_name()
                &&& r.unwrap().unwrap().spec_width() == self.spec_width()
                &&& r.unwrap().unwrap().spec_height() == self.spec_height()
                &&& r.unwrap().unwrap().spec_uv_offset() == self.spec_uv_offset()
                &&& r.unwrap().unwrap().spec_uv_scale() == self.spec_uv_scale()
                &&& r.unwrap().unwrap().spec_uuid() != self.spec_uuid()
                &&& r.unwrap().unwrap().spec_data().len() == compressed_mip_count(
                    self.spec_width() as nat,
                    self.spec_height() as nat,
                    self.spec_data().len(),
                    BLOCK_EDGE as nat,
                )
            }),
    {
        let uncompressed_format = match self.format {
            TextureFormat::Uncompressed(f) => f,
            TextureFormat::Compressed(_) => {
                return Ok(None);
            },
        };
        let compressed_format = match uncompressed_format.try_as_compressed(texture_compression) {
            Ok(f) => *f,
            Err(e) => {
                return Err(e);
            },
        };
        let ghost chain = mip_chain(self.width as nat, self.height as nat);
        let ghost edge = BLOCK_EDGE as nat;
        let n = self.data.len();
        proof {
            lemma_mip_chain_steps(self.width as nat, self.height as nat);
            lemma_mip_chain_bounds(self.width as nat, self.height as nat);
        }
        let mut compressed_data: Vec<Vec<u8>> = Vec::new();
        let mut mip_width = self.width;
        let mut mip_height = self.height;
        let mut i: usize = 0;
        let mut done = false;
        while i < n && !done
            invariant
                self.wf(),
                self.format == TextureFormat::Uncompressed(uncompressed_format),
                compressed_format == uncompressed_format.spec_as_compressed(),
                n == self.data@.len(),
                n == chain.len(),
                chain == mip_chain(self.width as nat, self.height as nat),
                fits_block_compression(self.width as nat, self.height as nat),
                forall|p: &Vec<u8>| #[trigger] narrow_to_half.requires((p,)),
                forall|p: &Vec<u8>, q: Vec<u8>|
                    #[trigger] narrow_to_half.ensures((p,), q) ==> q@.len() == p@.len() / 2,
                forall|j: int|
                    0 <= j < chain.len() - 1 ==> #[trigger] chain[j + 1] == (
                        next_mip_dim(chain[j].0),
                        next_mip_dim(chain[j].1),
                    ),
                i <= n,
                compressed_data@.len() == i,
                i < n ==> (mip_width as nat, mip_height as nat) == chain[i as int],
                !done ==> compressed_mip_count(self.width as nat, self.height as nat, n as nat, edge)
                    == i + compressed_mip_count(
                    mip_width as nat,
                    mip_height as nat,
                    (n - i) as nat,
                    edge,
                ),
                done ==> compressed_mip_count(self.width as nat, self.height as nat, n as nat, edge)
                    == i,
                forall|j: int|
                    0 <= j < i ==> (#[trigger] compressed_data@[j])@.len() == block_bytes(
                        chain[j].0,
                        chain[j].1,
                        compressed_format.spec_block_size(),
                    ),
                edge == BLOCK_EDGE as nat,
            decreases n - i,
        {
            let level = self.compress_level(
                uncompressed_format,
                i,
                mip_width,
                mip_height,
                narrow_to_half,
            );
            compressed_data.push(level);
            mip_width = if mip_width >= 2 { mip_width / 2 } else { 1 };
            mip_height = if mip_height >= 2 { mip_height / 2 } else { 1 };
            i += 1;
            if i < n {
                assert(chain[i - 1 + 1] == (next_mip_dim(chain[i - 1].0), next_mip_dim(chain[i - 1].1)));
            }
            if mip_width < BLOCK_EDGE || mip_height < BLOCK_EDGE {
                done = true;
            }
        }
        let compressed_mip_count = compressed_data.len() as u32;
        let drawn = fresh_uuid();
        let uuid = if drawn != self.uuid {
            drawn
        } else if drawn == u128::MAX {
            0
        } else {
            drawn + 1
        };
        Ok(
            Some(
                Texture {
                    name: self.name.clone(),
                    uuid,
                    width: self.width,
                    height: self.height,
                    mip_count: compressed_mip_count,
                    format: TextureFormat::Compressed(compressed_format),
                    data: compressed_data,
                    uv_offset: self.uv_offset,
                    uv_scale: self.uv_scale,
                },
            ),
        )
    }

    /// Compresses level `i`, of size `w` x `h`.
    fn compress_level<H>(
        &self,
        format: UncompressedTextureFormat,
        i: usize,
        w: u32,
        h: u32,
        narrow_to_half: &H,
    ) -> (r: Vec<u8>) where H: Fn(&Vec<u8>) -> Vec<u8>
        requires
            self.wf(),
            self.format == TextureFormat::Uncompressed(format),
            i < self.data@.len(),
            (w as nat, h as nat) == mip_chain(self.width as nat, self.height as nat)[i as int],
            fits_block_compression(self.width as nat, self.height as nat),
            forall|p: &Vec<u8>| #[trigger] narrow_to_half.requires((p,)),
            forall|p: &Vec<u8>, q: Vec<u8>|
                #[trigger] narrow_to_half.ensures((p,), q) ==> q@.len() == p@.len() / 2,
        ensures
            r@.len() == block_bytes(w as nat, h as nat, format.spec_as_compressed().spec_block_size()),
    {
        let data = &self.data[i];
        let ghost bpp = format.spec_bytes_per_pixel();
        proof {
            lemma_mip_chain_bounds(self.width as nat, self.height as nat);
            assert(data@.len() == w as nat * h as nat * bpp);
            assert(data@.len() >= (w as nat * bpp) * h as nat) by (nonlinear_arith)
                requires
                    data@.len() == w as nat * h as nat * bpp,
            ;
            assert(w as nat * bpp <= max_nat(self.width as nat, 1) * 16) by (nonlinear_arith)
                requires
                    bpp <= 16,
                    w as nat <= max_nat(self.width as nat, 1),
            ;
            assert(w as nat * h as nat <= max_nat(self.width as nat, 1) * max_nat(
                self.height as nat,
                1,
            )) by (nonlinear_arith)
                requires
                    w as nat <= max_nat(self.width as nat, 1),
                    h as nat <= max_nat(self.height as nat, 1),
            ;
        }
        match format {
            UncompressedTextureFormat::R8Unorm => compress_bc4(w, h, w, data),
            UncompressedTextureFormat::Rg8Unorm => compress_bc5(w, h, w * 2, data),
            UncompressedTextureFormat::Rgba8Unorm => compress_bc7(w, h, w * 4, data),
            UncompressedTextureFormat::Rgba32Float => {
                let half = narrow_to_half(data);
                proof {
                    assert(half@.len() >= (w as nat * 8) * h as nat) by (nonlinear_arith)
                        requires
                            half@.len() == data@.len() / 2,
                            data@.len() == w as nat * h as nat * 16,
                    ;
                }
                compress_bc6h(w, h, w * 8, &half)
            },
        }
    }

    /// Rebuilds a texture from its stored parts, as a decoder hands them
    /// back; `None` when the buffers do not fit the format and size: one
    /// buffer per level, each as long as its level's texels (or blocks)
    /// take, all levels of the chain when uncompressed, at least one and at
    /// most all of them when compressed.
    pub fn from_parts(
        name: String,
        uuid: u128,
        width: u32,
        height: u32,
        format: TextureFormat,
        data: Vec<Vec<u8>>,
        uv_offset: [u32; 2],
        uv_scale: [u32; 2],
    ) -> (r: Option<Texture>)
        ensures
            r matches Some(t) ==> {
                &&& t.wf()
                &&& t.spec_name() == name@
                &&& t.spec_uuid() == uuid
                &&& t.spec_width() == width
                &&& t.spec_height() == height
                &&& t.spec_format() == format
                &&& t.spec_data() == data@
                &&& t.spec_uv_offset() == uv_offset
                &&& t.spec_uv_scale() == uv_scale
            },
            r is None <==> !parts_fit(width, height, format, data@),
    {
        let dims = mip_dimensions(width, height);
        let ghost chain = mip_chain(width as nat, height as nat);
        proof {
            lemma_mip_chain_length_bound(width as nat, height as nat);
        }
        let n = data.len();
        if n == 0 || n > dims.len() {
            return None;
        }
        if let TextureFormat::Uncompressed(_) = format {
            if n != dims.len() {
                return None;
            }
        }
        let ghost d = data@;
        let t = Texture {
            name,
            uuid,
            width,
            height,
            mip_count: n as u32,
            format,
            data,
            uv_offset,
            uv_scale,
        };
        assert(t.data@ == d);
        let mut i: usize = 0;
        while i < n
            invariant
                n == t.data@.len(),
                t.data@ == d,
                d == data@,
                1 <= n <= dims@.len(),
                dims@.len() == chain.len(),
                chain == mip_chain(width as nat, height as nat),
                t.width == width && t.height == height && t.format == format,
                forall|j: int|
                    0 <= j < dims@.len() ==> (#[trigger] dims@[j].0 as nat, dims@[j].1 as nat)
                        == chain[j],
                i <= n,
                forall|j: int|
                    0 <= j < i ==> (#[trigger] t.data@[j])@.len() == match format {
                        TextureFormat::Uncompressed(f) => chain[j].0 * chain[j].1
                            * f.spec_bytes_per_pixel(),
                        TextureFormat::Compressed(f) => block_bytes(
                            chain[j].0,
                            chain[j].1,
                            f.spec_block_size(),
                        ),
                    },
            decreases n - i,
        {
            let (w, h) = dims[i];
            assert((w as nat, h as nat) == chain[i as int]);
            proof {
                assert(w as nat * h as nat <= 0xffff_ffff * 0xffff_ffff) by (nonlinear_arith)
                    requires
                        w <= 0xffff_ffff,
                        h <= 0xffff_ffff,
                ;
            }
            let texels = w as u128 * h as u128;
            let expected: u128 = match format {
                TextureFormat::Uncompressed(f) => {
                    let bpp: u128 = match f {
                        UncompressedTextureFormat::R8Unorm => 1,
                        UncompressedTextureFormat::Rg8Unorm => 2,
                        UncompressedTextureFormat::Rgba8Unorm => 4,
                        UncompressedTextureFormat::Rgba32Float => 16,
                    };
                    proof {
                        assert(texels as nat * bpp as nat <= 0xffff_ffff * 0xffff_ffff * 16)
                            by (nonlinear_arith)
                            requires
                                texels as nat <= 0xffff_ffff * 0xffff_ffff,
                                bpp <= 16,
                        ;
                    }
                    texels * bpp as u128
                },
                TextureFormat::Compressed(f) => {
                    let blocks = (texels + 15) / 16;
                    let size = f.block_size() as u128;
                    proof {
                        assert(blocks as nat * size as nat <= 0xffff_ffff * 0xffff_ffff * 16)
                            by (nonlinear_arith)
                            requires
                                blocks as nat <= 0xffff_ffff * 0xffff_ffff,
                                size <= 16,
                        ;
                    }
                    blocks * size
                },
            };
            assert(expected as nat == match format {
                TextureFormat::Uncompressed(f) => chain[i as int].0 * chain[i as int].1
                    * f.spec_bytes_per_pixel(),
                TextureFormat::Compressed(f) => block_bytes(
                    chain[i as int].0,
                    chain[i as int].1,
                    f.spec_block_size(),
                ),
            });
            if t.data[i].len() as u128 != expected {
                proof {
                    let k = i as int;
                    if parts_fit(width, height, format, d) {
                        assert(d[k]@.len() == expected as nat);
                    }
                }
                return None;
            }
            i += 1;
        }
        Some(t)
    }
}

} // verus!
