use vstd::prelude::*;

verus! {

/// Bits of the f32 value 1.0.
pub const ONE_BITS: u32 = 0x3F80_0000;

/// Bits of the f32 value 0.5.
pub const HALF_BITS: u32 = 0x3F00_0000;

/// Bits of the f32 nearest to 1 / 1.5, the ratio of air to a common dielectric.
pub const DIELECTRIC_ETA_BITS: u32 = 0x3F2A_AAAB;

/// The f32 given by bits `b` is greater than zero: positive, not zero, not NaN.
pub open spec fn f32_is_positive(b: u32) -> bool {
    0 < b <= 0x7F80_0000
}

/// The f32 given by bits `b` equals zero (either sign).
pub open spec fn f32_is_zero(b: u32) -> bool {
    b == 0 || b == 0x8000_0000
}

/// Shading parameters of one material slot. Float parameters are held as
/// their IEEE-754 bit patterns; texture fields index the model's textures.
#[derive(Debug, Clone)]
pub struct Material {
    pub index: Option<usize>,
    pub color: [u32; 3],
    pub color_texture: Option<u32>,
    pub metallic: u32,
    pub roughness: u32,
    pub metallic_roughness_texture: Option<u32>,
    pub normal_scale: u32,
    pub normal_texture: Option<u32>,
    pub emission: [u32; 3],
    pub emission_texture: Option<u32>,
    pub absorption: [u32; 3],
    pub transmission: u32,
    pub transmission_texture: Option<u32>,
    pub eta: u32,
    pub subsurface: u32,
    pub specular: u32,
    pub specular_tint: [u32; 3],
    pub anisotropic: u32,
    pub sheen: u32,
    pub sheen_texture: Option<u32>,
    pub sheen_tint: [u32; 3],
    pub sheen_tint_texture: Option<u32>,
    pub clearcoat: u32,
    pub clearcoat_texture: Option<u32>,
    pub clearcoat_roughness: u32,
    pub clearcoat_roughness_texture: Option<u32>,
    pub clearcoat_normal_texture: Option<u32>,
    pub is_opaque: bool,
    pub alpha_cutoff: u32,
}

impl Material {
    /// A physically neutral dielectric: white, roughness 0.5, eta 1/1.5,
    /// everything else zero or absent.
    pub open spec fn is_default(&self) -> bool {
        &&& self.index is None
        &&& self.color == [ONE_BITS, ONE_BITS, ONE_BITS]
        &&& self.color_texture is None
        &&& self.metallic == 0
        &&& self.roughness == HALF_BITS
        &&& self.metallic_roughness_texture is None
        &&& self.normal_scale == ONE_BITS
        &&& self.normal_texture is None
        &&& self.emission == [0u32, 0u32, 0u32]
        &&& self.emission_texture is None
        &&& self.absorption == [0u32, 0u32, 0u32]
        &&& self.transmission == 0
        &&& self.transmission_texture is None
        &&& self.eta == DIELECTRIC_ETA_BITS
        &&& self.subsurface == 0
        &&& self.specular == 0
        &&& self.specular_tint == [ONE_BITS, ONE_BITS, ONE_BITS]
        &&& self.anisotropic == 0
        &&& self.sheen == 0
        &&& self.sheen_texture is None
        &&& self.sheen_tint == [ONE_BITS, ONE_BITS, ONE_BITS]
        &&& self.sheen_tint_texture is None
        &&& self.clearcoat == 0
        &&& self.clearcoat_texture is None
        &&& self.clearcoat_roughness == 0
        &&& self.clearcoat_roughness_texture is None
        &&& self.clearcoat_normal_texture is None
        &&& self.is_opaque
        &&& self.alpha_cutoff == 0
    }

    pub open spec fn spec_is_emissive(&self) -> bool {
        f32_is_positive(self.emission[0]) || f32_is_positive(self.emission[1])
            || f32_is_positive(self.emission[2])
    }

    /// Some emission channel is greater than zero.
    pub fn is_emissive(&self) -> (r: bool)
        ensures
            r == self.spec_is_emissive(),
    {
        (0 < self.emission[0] && self.emission[0] <= 0x7F80_0000) || (0 < self.emission[1]
            && self.emission[1] <= 0x7F80_0000) || (0 < self.emission[2] && self.emission[2]
            <= 0x7F80_0000)
    }
}

impl Default for Material {
    fn default() -> (r: Self)
        ensures
            r.is_default(),
    {
        Material {
            index: None,
            color: [ONE_BITS, ONE_BITS, ONE_BITS],
            color_texture: None,
            metallic: 0,
            roughness: HALF_BITS,
            metallic_roughness_texture: None,
            normal_scale: ONE_BITS,
            normal_texture: None,
            emission: [0, 0, 0],
            emission_texture: None,
            absorption: [0, 0, 0],
            transmission: 0,
            transmission_texture: None,
            eta: DIELECTRIC_ETA_BITS,
            subsurface: 0,
            specular: 0,
            specular_tint: [ONE_BITS, ONE_BITS, ONE_BITS],
            anisotropic: 0,
            sheen: 0,
            sheen_texture: None,
            sheen_tint: [ONE_BITS, ONE_BITS, ONE_BITS],
            sheen_tint_texture: None,
            clearcoat: 0,
            clearcoat_texture: None,
            clearcoat_roughness: 0,
            clearcoat_roughness_texture: None,
            clearcoat_normal_texture: None,
            is_opaque: true,
            alpha_cutoff: 0,
        }
    }
}

/// A material is opaque when its alpha mode is opaque or its alpha cutoff is zero.
pub open spec fn spec_is_opaque(alpha_mode_opaque: bool, alpha_cutoff: u32) -> bool {
    alpha_mode_opaque || f32_is_zero(alpha_cutoff)
}

pub fn is_opaque(alpha_mode_opaque: bool, alpha_cutoff: u32) -> (r: bool)
    ensures
        r == spec_is_opaque(alpha_mode_opaque, alpha_cutoff),
{
    alpha_mode_opaque || alpha_cutoff == 0 || alpha_cutoff == 0x8000_0000
}

} // verus!
