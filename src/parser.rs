use vstd::prelude::*;

use crate::texture::TextureCompression;

verus! {

/// Largest texture side a conversion keeps.
#[derive(Debug, Clone, Copy, PartialEq, Eq, Structural)]
pub enum MaxTextureResolution {
    Res1024,
    Res2048,
    Res4096,
}

impl MaxTextureResolution {
    pub open spec fn spec_resolution(self) -> u32 {
        match self {
            MaxTextureResolution::Res1024 => 1024,
            MaxTextureResolution::Res2048 => 2048,
            MaxTextureResolution::Res4096 => 4096,
        }
    }

    pub fn resolution(&self) -> (r: u32)
        ensures
            r == self.spec_resolution(),
    {
        match self {
            MaxTextureResolution::Res1024 => 1024,
            MaxTextureResolution::Res2048 => 2048,
            MaxTextureResolution::Res4096 => 4096,
        }
    }
}

/// What a conversion does beyond the required work.
#[derive(Debug, Clone, Copy)]
pub struct ParseOptions {
    pub texture_compression: Option<TextureCompression>,
    pub generate_mips: bool,
    pub max_texture_resolution: Option<MaxTextureResolution>,
    pub merge_duplicate_meshes: bool,
}

impl Default for ParseOptions {
    /// No compression, no resolution cap, no mesh merging.
    fn default() -> (r: Self)
        ensures
            r.texture_compression is None,
            !r.generate_mips,
            r.max_texture_resolution is None,
            !r.merge_duplicate_meshes,
    {
        ParseOptions {
            texture_compression: None,
            generate_mips: false,
            max_texture_resolution: None,
            merge_duplicate_meshes: false,
        }
    }
}

} // verus!
