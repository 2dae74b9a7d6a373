//! Calls into the image and block-compression crates.
use vstd::prelude::*;

verus! {

/// Number of bytes that block compression of a `w` x `h` surface yields.
pub open spec fn block_bytes(w: nat, h: nat, block_size: nat) -> nat {
    ((w * h + 15) / 16) * block_size
}

/// Relies on image::imageops::resize: an `nw` x `nh` buffer of the same layout.
#[verifier::external_body]
pub(crate) fn resize_r8(w: u32, h: u32, p: &Vec<u8>, nw: u32, nh: u32) -> (r: Vec<u8>)
    requires
        p@.len() == w as nat * h as nat,
    ensures
        r@.len() == nw as nat * nh as nat,
{
    let src = image::GrayImage::from_raw(w, h, p.clone()).unwrap();
    image::imageops::resize(&src, nw, nh, image::imageops::FilterType::CatmullRom).into_raw()
}

/// Relies on image::imageops::resize: an `nw` x `nh` buffer of the same layout.
#[verifier::external_body]
pub(crate) fn resize_rg8(w: u32, h: u32, p: &Vec<u8>, nw: u32, nh: u32) -> (r: Vec<u8>)
    requires
        p@.len() == w as nat * h as nat * 2,
    ensures
        r@.len() == nw as nat * nh as nat * 2,
{
    let src = image::GrayAlphaImage::from_raw(w, h, p.clone()).unwrap();
    image::imageops::resize(&src, nw, nh, image::imageops::FilterType::CatmullRom).into_raw()
}

/// Relies on image::imageops::resize: an `nw` x `nh` buffer of the same layout.
#[verifier::external_body]
pub(crate) fn resize_rgba8(w: u32, h: u32, p: &Vec<u8>, nw: u32, nh: u32) -> (r: Vec<u8>)
    requires
        p@.len() == w as nat * h as nat * 4,
    ensures
        r@.len() == nw as nat * nh as nat * 4,
{
    let src = image::RgbaImage::from_raw(w, h, p.clone()).unwrap();
    image::imageops::resize(&src, nw, nh, image::imageops::FilterType::CatmullRom).into_raw()
}

/// Relies on image::imageops::resize: an `nw` x `nh` buffer of the same layout.
/// The samples are 32-bit floats in native byte order.
#[verifier::external_body]
pub(crate) fn resize_rgba32f(w: u32, h: u32, p: &Vec<u8>, nw: u32, nh: u32) -> (r: Vec<u8>)
    requires
        p@.len() == w as nat * h as nat * 16,
    ensures
        r@.len() == nw as nat * nh as nat * 16,
{
    let src = image::Rgba32FImage::from_raw(w, h, bytemuck::pod_collect_to_vec(p)).unwrap();
    let out = image::imageops::resize(&src, nw, nh, image::imageops::FilterType::CatmullRom);
    bytemuck::pod_collect_to_vec(out.as_raw())
}

/// Relies on intel_tex_2::bc4::compress_blocks: 8 bytes for each 16 texels.
/// The kernel reads `h` rows of `w` one-byte texels, `stride` bytes apart.
#[verifier::external_body]
pub(crate) fn compress_bc4(w: u32, h: u32, stride: u32, p: &Vec<u8>) -> (r: Vec<u8>)
    requires
        w as nat * h as nat + 15 <= u32::MAX,
        w <= i32::MAX && h <= i32::MAX && stride <= i32::MAX,
        stride as nat >= w as nat * 1,
        p@.len() >= stride as nat * h as nat,
    ensures
        r@.len() == block_bytes(w as nat, h as nat, 8),
{
    intel_tex_2::bc4::compress_blocks(&intel_tex_2::RSurface { width: w, height: h, stride, data: p })
}

/// Relies on intel_tex_2::bc5::compress_blocks: 16 bytes for each 16 texels.
/// The kernel reads `h` rows of `w` two-byte texels, `stride` bytes apart.
#[verifier::external_body]
pub(crate) fn compress_bc5(w: u32, h: u32, stride: u32, p: &Vec<u8>) -> (r: Vec<u8>)
    requires
        w as nat * h as nat + 15 <= u32::MAX,
        w <= i32::MAX && h <= i32::MAX && stride <= i32::MAX,
        stride as nat >= w as nat * 2,
        p@.len() >= stride as nat * h as nat,
    ensures
        r@.len() == block_bytes(w as nat, h as nat, 16),
{
    intel_tex_2::bc5::compress_blocks(&intel_tex_2::RgSurface { width: w, height: h, stride, data: p })
}

/// Relies on intel_tex_2::bc7::compress_blocks with its `alpha_ultra_fast_settings`:
/// 16 bytes for each 16 texels. The kernel reads `h` rows of `w` four-byte
/// texels, `stride` bytes apart.
#[verifier::external_body]
pub(crate) fn compress_bc7(w: u32, h: u32, stride: u32, p: &Vec<u8>) -> (r: Vec<u8>)
    requires
        w as nat * h as nat + 15 <= u32::MAX,
        w <= i32::MAX && h <= i32::MAX && stride <= i32::MAX,
        stride as nat >= w as nat * 4,
        p@.len() >= stride as nat * h as nat,
    ensures
        r@.len() == block_bytes(w as nat, h as nat, 16),
{
    let surface = intel_tex_2::RgbaSurface { width: w, height: h, stride, data: p };
    intel_tex_2::bc7::compress_blocks(&intel_tex_2::bc7::alpha_ultra_fast_settings(), &surface)
}

/// Relies on intel_tex_2::bc6h::compress_blocks with its `very_fast_settings`:
/// 16 bytes for each 16 texels. The kernel reads `h` rows of `w` eight-byte
/// half-precision texels, `stride` bytes apart.
#[verifier::external_body]
pub(crate) fn compress_bc6h(w: u32, h: u32, stride: u32, p: &Vec<u8>) -> (r: Vec<u8>)
    requires
        w as nat * h as nat + 15 <= u32::MAX,
        w <= i32::MAX && h <= i32::MAX && stride <= i32::MAX,
        stride as nat >= w as nat * 8,
        p@.len() >= stride as nat * h as nat,
    ensures
        r@.len() == block_bytes(w as nat, h as nat, 16),
{
    let surface = intel_tex_2::RgbaSurface { width: w, height: h, stride, data: p };
    intel_tex_2::bc6h::compress_blocks(&intel_tex_2::bc6h::very_fast_settings(), &surface)
}

} // verus!
