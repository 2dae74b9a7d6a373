//! The already-parsed scene document that a conversion reads. Float values
//! are held as their IEEE-754 bit patterns.
use vstd::prelude::*;

use crate::pixels::SourceImage;

verus! {

/// A material channel's texture, with the channel's UV transform (offset 0
/// and scale 1 when the document gives none).
#[derive(Debug, Clone, Copy)]
pub struct TextureRef {
    pub texture: usize,
    pub uv_offset: [u32; 2],
    pub uv_scale: [u32; 2],
}

/// A texture of the document: a name and the image it samples.
#[derive(Debug, Clone)]
pub struct SourceTexture {
    pub name: Option<String>,
    pub image: usize,
}

/// Where an image's pixels come from.
#[derive(Debug, Clone)]
pub enum SourceImageData {
    /// Decoded pixels embedded in the document.
    Embedded(SourceImage),
    /// An image named by an outside URI.
    Uri,
}

/// Material parameters as the document gives them, already combined into
/// the values a `Material` holds (emission scaled by its strength,
/// absorption from the attenuation, eta as the inverse index of refraction),
/// with the neutral defaults where an extension is absent.
#[derive(Debug, Clone)]
pub struct SourceMaterial {
    pub color: [u32; 3],
    pub color_texture: Option<TextureRef>,
    pub metallic: u32,
    pub roughness: u32,
    pub metallic_roughness_texture: Option<TextureRef>,
    pub normal_scale: u32,
    pub normal_texture: Option<TextureRef>,
    pub emission: [u32; 3],
    pub emission_texture: Option<TextureRef>,
    pub absorption: [u32; 3],
    pub transmission: u32,
    pub transmission_texture: Option<TextureRef>,
    pub eta: u32,
    pub specular: u32,
    pub specular_tint: [u32; 3],
    pub sheen: u32,
    pub sheen_texture: Option<TextureRef>,
    pub sheen_tint: [u32; 3],
    pub sheen_tint_texture: Option<TextureRef>,
    pub clearcoat: u32,
    pub clearcoat_texture: Option<TextureRef>,
    pub clearcoat_roughness: u32,
    pub clearcoat_roughness_texture: Option<TextureRef>,
    pub clearcoat_normal_texture: Option<TextureRef>,
    pub alpha_mode_opaque: bool,
    pub alpha_cutoff: Option<u32>,
}

/// One primitive of a mesh, with the attribute streams the document holds.
#[derive(Debug, Clone)]
pub struct SourcePrimitive {
    pub is_triangles: bool,
    pub positions: Option<Vec<[u32; 3]>>,
    pub indices: Option<Vec<u32>>,
    pub normals: Option<Vec<[u32; 3]>>,
    pub tangents: Option<Vec<[u32; 4]>>,
    pub tex_coords: Option<Vec<[u32; 2]>>,
    pub material: Option<usize>,
}

#[derive(Debug, Clone)]
pub struct SourceMesh {
    pub primitives: Vec<SourcePrimitive>,
}

/// A node of the hierarchy, its local transform already in column-major
/// 4x4 form.
#[derive(Debug, Clone)]
pub struct SourceNode {
    pub name: Option<String>,
    pub transform: [u32; 16],
    pub mesh: Option<usize>,
    pub children: Vec<usize>,
}

/// The parsed document: the default scene's root nodes and everything they
/// reach.
#[derive(Debug, Clone)]
pub struct SourceDocument {
    pub nodes: Vec<SourceNode>,
    pub scene_roots: Vec<usize>,
    pub meshes: Vec<SourceMesh>,
    pub materials: Vec<SourceMaterial>,
    pub textures: Vec<SourceTexture>,
    pub images: Vec<SourceImageData>,
}

pub open spec fn ref_ok(r: Option<TextureRef>, n: nat) -> bool {
    r matches Some(t) ==> t.texture < n
}

impl SourceMaterial {
    /// Every texture reference names a texture of a document with `n` textures.
    pub open spec fn refs_ok(&self, n: nat) -> bool {
        &&& ref_ok(self.color_texture, n)
        &&& ref_ok(self.metallic_roughness_texture, n)
        &&& ref_ok(self.normal_texture, n)
        &&& ref_ok(self.emission_texture, n)
        &&& ref_ok(self.transmission_texture, n)
        &&& ref_ok(self.sheen_texture, n)
        &&& ref_ok(self.sheen_tint_texture, n)
        &&& ref_ok(self.clearcoat_texture, n)
        &&& ref_ok(self.clearcoat_roughness_texture, n)
        &&& ref_ok(self.clearcoat_normal_texture, n)
    }
}

impl SourceDocument {
    /// Every reference of the document is in range and every embedded image
    /// holds as many pixels as its size says.
    pub open spec fn wf(&self) -> bool {
        &&& forall|i: int|
            0 <= i < self.scene_roots@.len() ==> (#[trigger] self.scene_roots@[i]) < self.nodes@.len()
        &&& forall|i: int, j: int|
            0 <= i < self.nodes@.len() && 0 <= j < self.nodes@[i].children@.len() ==> (
            #[trigger] self.nodes@[i].children@[j]) < self.nodes@.len()
        &&& forall|i: int|
            0 <= i < self.nodes@.len() ==> ((#[trigger] self.nodes@[i]).mesh matches Some(m) ==> m
                < self.meshes@.len())
        &&& forall|i: int, j: int|
            0 <= i < self.meshes@.len() && 0 <= j < self.meshes@[i].primitives@.len() ==> ((
            #[trigger] self.meshes@[i].primitives@[j]).material matches Some(m) ==> m
                < self.materials@.len())
        &&& forall|i: int|
            0 <= i < self.materials@.len() ==> (#[trigger] self.materials@[i]).refs_ok(
                self.textures@.len(),
            )
        &&& forall|i: int|
            0 <= i < self.textures@.len() ==> (#[trigger] self.textures@[i]).image
                < self.images@.len()
        &&& forall|i: int|
            0 <= i < self.images@.len() ==> ((#[trigger] self.images@[i]) matches SourceImageData::Embedded(
                img,
            ) ==> img.wf())
    }
}

} // verus!
