use vstd::prelude::*;

use crate::texture::UncompressedTextureFormat;

verus! {

/// Channel layout and bit depth of a decoded source image. Samples wider than
/// a byte are stored little-endian.
#[derive(Debug, Clone, Copy, PartialEq, Eq, Structural)]
pub enum PixelLayout {
    R8,
    R8G8,
    R8G8B8,
    R8G8B8A8,
    R16,
    R16G16,
    R16G16B16,
    R16G16B16A16,
    R32G32B32Float,
    R32G32B32A32Float,
}

/// A decoded image as the source document hands it over.
#[derive(Debug, Clone)]
pub struct SourceImage {
    pub width: u32,
    pub height: u32,
    pub layout: PixelLayout,
    pub pixels: Vec<u8>,
}

impl PixelLayout {
    pub open spec fn spec_bytes_per_pixel(self) -> nat {
        match self {
            PixelLayout::R8 => 1,
            PixelLayout::R8G8 => 2,
            PixelLayout::R8G8B8 => 3,
            PixelLayout::R8G8B8A8 => 4,
            PixelLayout::R16 => 2,
            PixelLayout::R16G16 => 4,
            PixelLayout::R16G16B16 => 6,
            PixelLayout::R16G16B16A16 => 8,
            PixelLayout::R32G32B32Float => 12,
            PixelLayout::R32G32B32A32Float => 16,
        }
    }

    /// The canonical layout that the pixels are brought to, if there is one.
    pub open spec fn spec_canonical(self) -> Option<UncompressedTextureFormat> {
        match self {
            PixelLayout::R8 | PixelLayout::R16 => Some(UncompressedTextureFormat::R8Unorm),
            PixelLayout::R8G8 | PixelLayout::R16G16 => Some(UncompressedTextureFormat::Rg8Unorm),
            PixelLayout::R8G8B8
            | PixelLayout::R8G8B8A8
            | PixelLayout::R16G16B16
            | PixelLayout::R16G16B16A16 => Some(UncompressedTextureFormat::Rgba8Unorm),
            PixelLayout::R32G32B32A32Float => Some(UncompressedTextureFormat::Rgba32Float),
            PixelLayout::R32G32B32Float => None,
        }
    }

    pub fn canonical(&self) -> (r: Option<UncompressedTextureFormat>)
        ensures
            r == self.spec_canonical(),
    {
        match self {
            PixelLayout::R8 | PixelLayout::R16 => Some(UncompressedTextureFormat::R8Unorm),
            PixelLayout::R8G8 | PixelLayout::R16G16 => Some(UncompressedTextureFormat::Rg8Unorm),
            PixelLayout::R8G8B8
            | PixelLayout::R8G8B8A8
            | PixelLayout::R16G16B16
            | PixelLayout::R16G16B16A16 => Some(UncompressedTextureFormat::Rgba8Unorm),
            PixelLayout::R32G32B32A32Float => Some(UncompressedTextureFormat::Rgba32Float),
            PixelLayout::R32G32B32Float => None,
        }
    }
}

impl SourceImage {
    /// The pixel buffer holds exactly `width * height` pixels of its layout.
    pub open spec fn wf(&self) -> bool {
        self.pixels@.len() == self.width as nat * self.height as nat
            * self.layout.spec_bytes_per_pixel()
    }
}

/// A 16-bit sample brought to 8 bits, rounded to nearest: `round(c * 255 / 65535)`.
pub open spec fn narrow16(c: nat) -> nat {
    (c + 128) / 257
}

/// The `i`-th little-endian 16-bit sample of `p`.
pub open spec fn sample16(p: Seq<u8>, i: int) -> nat {
    p[2 * i] as nat + 256 * p[2 * i + 1] as nat
}

/// `p` read as 16-bit samples, each narrowed to 8 bits.
pub open spec fn narrowed(p: Seq<u8>) -> Seq<u8> {
    Seq::new(p.len() / 2, |k: int| narrow16(sample16(p, k)) as u8)
}

/// Three-channel pixels `p` with a fourth, fully opaque channel added.
pub open spec fn with_alpha(p: Seq<u8>) -> Seq<u8> {
    Seq::new((p.len() / 3) * 4, |k: int| if k % 4 == 3 { 255u8 } else { p[(k / 4) * 3 + k % 4] })
}

/// The pixels of an image of layout `layout` in its canonical layout.
pub open spec fn canonical_pixels(layout: PixelLayout, p: Seq<u8>) -> Seq<u8> {
    match layout {
        PixelLayout::R8G8B8 => with_alpha(p),
        PixelLayout::R16 | PixelLayout::R16G16 | PixelLayout::R16G16B16A16 => narrowed(p),
        PixelLayout::R16G16B16 => with_alpha(narrowed(p)),
        _ => p,
    }
}

fn narrow_samples(p: &Vec<u8>) -> (r: Vec<u8>)
    ensures
        r@ == narrowed(p@),
{
    let len = p.len();
    let n = len / 2;
    let mut r: Vec<u8> = Vec::with_capacity(n);
    let mut i: usize = 0;
    while i < n
        invariant
            len == p@.len(),
            n == len / 2,
            i <= n,
            r@ =~= narrowed(p@).take(i as int),
        decreases n - i,
    {
        let c: u32 = p[2 * i] as u32 + 256 * (p[2 * i + 1] as u32);
        let v: u32 = (c + 128) / 257;
        r.push(v as u8);
        i += 1;
    }
    assert(r@ =~= narrowed(p@));
    r
}

fn add_alpha(p: &Vec<u8>) -> (r: Vec<u8>)
    ensures
        r@ == with_alpha(p@),
{
    let len = p.len();
    let n = len / 3;
    let mut r: Vec<u8> = Vec::new();
    let mut i: usize = 0;
    while i < n
        invariant
            len == p@.len(),
            n == len / 3,
            i <= n,
            r@ =~= with_alpha(p@).take(4 * i as int),
        decreases n - i,
    {
        assert(3 * i + 2 < len) by (nonlinear_arith)
            requires
                i < n,
                n == len / 3,
        ;
        r.push(p[3 * i]);
        r.push(p[3 * i + 1]);
        r.push(p[3 * i + 2]);
        r.push(255u8);
        i += 1;
        assert(r@ =~= with_alpha(p@).take(4 * i as int));
    }
    r
}

/// Brings the pixels of `image` to its canonical layout: three channels gain
/// an opaque alpha channel and 16-bit samples are rounded to 8 bits. Returns
/// `None` for a layout outside the canonical set.
pub fn canonicalize(image: &SourceImage) -> (r: Option<(UncompressedTextureFormat, Vec<u8>)>)
    ensures
        r.is_none() <==> image.layout.spec_canonical().is_none(),
        r.is_some() ==> r.unwrap().0 == image.layout.spec_canonical().unwrap() && r.unwrap().1@
            == canonical_pixels(image.layout, image.pixels@),
{
    let format = match image.layout.canonical() {
        Some(f) => f,
        None => {
            return None;
        },
    };
    let pixels = match image.layout {
        PixelLayout::R8G8B8 => add_alpha(&image.pixels),
        PixelLayout::R16 | PixelLayout::R16G16 | PixelLayout::R16G16B16A16 => narrow_samples(
            &image.pixels,
        ),
        PixelLayout::R16G16B16 => add_alpha(&narrow_samples(&image.pixels)),
        _ => image.pixels.clone(),
    };
    Some((format, pixels))
}

/// Canonical pixels hold `width * height` pixels of the canonical layout.
pub proof fn lemma_canonical_len(image: &SourceImage)
    requires
        image.wf(),
        image.layout.spec_canonical().is_some(),
    ensures
        canonical_pixels(image.layout, image.pixels@).len() == image.width as nat
            * image.height as nat * image.layout.spec_canonical().unwrap().spec_bytes_per_pixel(),
{
    let n = image.width as nat * image.height as nat;
    let len = image.pixels@.len();
    match image.layout {
        PixelLayout::R8G8B8 => {
            assert(len / 3 == n) by (nonlinear_arith) requires len == n * 3;
            assert(with_alpha(image.pixels@).len() == n * 4);
        },
        PixelLayout::R16 => {
            assert(len / 2 == n) by (nonlinear_arith) requires len == n * 2;
        },
        PixelLayout::R16G16 => {
            assert(len / 2 == n * 2) by (nonlinear_arith) requires len == n * 4;
        },
        PixelLayout::R16G16B16A16 => {
            assert(len / 2 == n * 4) by (nonlinear_arith) requires len == n * 8;
        },
        PixelLayout::R16G16B16 => {
            assert(len / 2 == n * 3) by (nonlinear_arith) requires len == n * 6;
            assert((n * 3) / 3 == n) by (nonlinear_arith);
        },
        _ => {},
    }
}

} // verus!
