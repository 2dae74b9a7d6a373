use vstd::prelude::*;

use crate::material::Material;
use crate::mesh::{f32_max, f32_min, f32_less, Mesh, NEG_INFINITY_BITS, POS_INFINITY_BITS};
use crate::texture::Texture;

verus! {

/// A node of the flattened hierarchy. Its transform is the local one,
/// column-major, as f32 bits.
#[derive(Debug, Clone)]
pub struct ModelNode {
    pub name: String,
    pub transform: [u32; 16],
    pub mesh_idx: Option<u32>,
    pub child_node_indices: Vec<u32>,
}

/// A render-ready model. Bounds are f32 bits.
#[derive(Debug, Clone)]
pub struct Model {
    pub root_node_indices: Vec<u32>,
    pub nodes: Vec<ModelNode>,
    pub bounds_min: [u32; 3],
    pub bounds_max: [u32; 3],
    pub meshes: Vec<Mesh>,
    pub materials: Vec<Material>,
    pub textures: Vec<Texture>,
}

pub open spec fn tex_ok(t: Option<u32>, n: nat) -> bool {
    t matches Some(i) ==> i < n
}

impl Material {
    /// Every texture field names one of `n` textures.
    pub open spec fn refs_ok(&self, n: nat) -> bool {
        &&& tex_ok(self.color_texture, n)
        &&& tex_ok(self.metallic_roughness_texture, n)
        &&& tex_ok(self.normal_texture, n)
        &&& tex_ok(self.emission_texture, n)
        &&& tex_ok(self.transmission_texture, n)
        &&& tex_ok(self.sheen_texture, n)
        &&& tex_ok(self.sheen_tint_texture, n)
        &&& tex_ok(self.clearcoat_texture, n)
        &&& tex_ok(self.clearcoat_roughness_texture, n)
        &&& tex_ok(self.clearcoat_normal_texture, n)
    }
}

impl ModelNode {
    /// Node `i` of `n` nodes: its children come after it, and its mesh is
    /// one of `m` meshes.
    pub open spec fn wf_at(&self, i: int, n: nat, m: nat) -> bool {
        &&& forall|j: int|
            0 <= j < self.child_node_indices@.len() ==> i < (
            #[trigger] self.child_node_indices@[j]) < n
        &&& self.mesh_idx matches Some(k) ==> k < m
    }
}

/// The meshes' own bounds, folded: componentwise minimum of coordinate `k`
/// of every `bounds_min`, starting from +infinity.
pub open spec fn fold_mesh_min(ms: Seq<Mesh>, k: int) -> u32
    decreases ms.len(),
{
    if ms.len() == 0 {
        POS_INFINITY_BITS
    } else {
        f32_min(fold_mesh_min(ms.drop_last(), k), ms.last().bounds_min[k])
    }
}

/// Componentwise maximum of coordinate `k` of every `bounds_max`, starting
/// from -infinity.
pub open spec fn fold_mesh_max(ms: Seq<Mesh>, k: int) -> u32
    decreases ms.len(),
{
    if ms.len() == 0 {
        NEG_INFINITY_BITS
    } else {
        f32_max(fold_mesh_max(ms.drop_last(), k), ms.last().bounds_max[k])
    }
}

/// The model's bounds: the union of the meshes' own bounds.
pub fn model_bounds(meshes: &Vec<Mesh>) -> (r: ([u32; 3], [u32; 3]))
    ensures
        forall|k: int|
            0 <= k < 3 ==> r.0[k] == fold_mesh_min(meshes@, k) && r.1[k] == fold_mesh_max(
                meshes@,
                k,
            ),
{
    let mut lo: [u32; 3] = [POS_INFINITY_BITS, POS_INFINITY_BITS, POS_INFINITY_BITS];
    let mut hi: [u32; 3] = [NEG_INFINITY_BITS, NEG_INFINITY_BITS, NEG_INFINITY_BITS];
    let mut i: usize = 0;
    while i < meshes.len()
        invariant
            i <= meshes@.len(),
            forall|k: int|
                0 <= k < 3 ==> lo[k] == fold_mesh_min(meshes@.take(i as int), k) && hi[k]
                    == fold_mesh_max(meshes@.take(i as int), k),
        decreases meshes@.len() - i,
    {
        let mesh = &meshes[i];
        let mut k: usize = 0;
        let ghost prev_lo = lo;
        let ghost prev_hi = hi;
        assert(meshes@.take(i + 1).drop_last() =~= meshes@.take(i as int));
        while k < 3
            invariant
                k <= 3,
                *mesh == meshes@[i as int],
                forall|j: int|
                    0 <= j < k ==> lo[j] == f32_min(prev_lo[j], mesh.bounds_min[j]) && hi[j]
                        == f32_max(prev_hi[j], mesh.bounds_max[j]),
                forall|j: int| k <= j < 3 ==> lo[j] == prev_lo[j] && hi[j] == prev_hi[j],
            decreases 3 - k,
        {
            if !f32_less(lo[k], mesh.bounds_min[k]) {
                lo[k] = mesh.bounds_min[k];
            }
            if !f32_less(mesh.bounds_max[k], hi[k]) {
                hi[k] = mesh.bounds_max[k];
            }
            k += 1;
        }
        i += 1;
    }
    assert(meshes@.take(meshes@.len() as int) =~= meshes@);
    (lo, hi)
}

/// Every material named by `slots` is opaque.
pub open spec fn all_opaque(slots: Seq<u32>, ms: Seq<Material>) -> bool {
    forall|k: int| 0 <= k < slots.len() ==> #[trigger] ms[slots[k] as int].is_opaque
}

/// Some material named by `slots` is emissive.
pub open spec fn any_emissive(slots: Seq<u32>, ms: Seq<Material>) -> bool {
    exists|k: int| 0 <= k < slots.len() && #[trigger] ms[slots[k] as int].spec_is_emissive()
}

/// A mesh's flags follow its materials: opaque when all of them are,
/// emissive when any of them is.
pub open spec fn flags_follow(mesh: Mesh, ms: Seq<Material>) -> bool {
    &&& mesh.opaque == all_opaque(mesh.material_indices@, ms)
    &&& mesh.is_emissive == any_emissive(mesh.material_indices@, ms)
}

/// The flags over `slots` only read the materials that `slots` names.
pub proof fn lemma_flags_stable(slots: Seq<u32>, a: Seq<Material>, b: Seq<Material>)
    requires
        forall|k: int| 0 <= k < slots.len() ==> #[trigger] a[slots[k] as int] == b[slots[k] as int],
    ensures
        all_opaque(slots, a) == all_opaque(slots, b),
        any_emissive(slots, a) == any_emissive(slots, b),
{
    if all_opaque(slots, a) {
        assert forall|k: int| 0 <= k < slots.len() implies #[trigger] b[slots[k] as int].is_opaque by {
            assert(a[slots[k] as int] == b[slots[k] as int]);
        }
    }
    if all_opaque(slots, b) {
        assert forall|k: int| 0 <= k < slots.len() implies #[trigger] a[slots[k] as int].is_opaque by {
            assert(a[slots[k] as int] == b[slots[k] as int]);
        }
    }
    if any_emissive(slots, a) {
        let k = choose|k: int| 0 <= k < slots.len() && #[trigger] a[slots[k] as int].spec_is_emissive();
        assert(a[slots[k] as int] == b[slots[k] as int]);
    }
    if any_emissive(slots, b) {
        let k = choose|k: int| 0 <= k < slots.len() && #[trigger] b[slots[k] as int].spec_is_emissive();
        assert(a[slots[k] as int] == b[slots[k] as int]);
    }
}

/// Adding a slot (or finding it already there) folds its material into the
/// flags.
pub proof fn lemma_flags_add(slots: Seq<u32>, next: Seq<u32>, s: u32, ms: Seq<Material>)
    requires
        next == slots || next == slots.push(s),
        exists|k: int| 0 <= k < next.len() && next[k] == s,
    ensures
        all_opaque(next, ms) == (all_opaque(slots, ms) && ms[s as int].is_opaque),
        any_emissive(next, ms) == (any_emissive(slots, ms) || ms[s as int].spec_is_emissive()),
{
    let w = choose|k: int| 0 <= k < next.len() && next[k] == s;
    if next == slots.push(s) {
        assert(next[slots.len() as int] == s);
        if all_opaque(slots, ms) && ms[s as int].is_opaque {
            assert forall|k: int| 0 <= k < next.len() implies #[trigger] ms[next[k] as int].is_opaque by {
                if k < slots.len() {
                    assert(next[k] == slots[k]);
                }
            }
        }
        if all_opaque(next, ms) {
            assert(ms[next[slots.len() as int] as int].is_opaque);
            assert forall|k: int| 0 <= k < slots.len() implies #[trigger] ms[slots[k] as int].is_opaque by {
                assert(next[k] == slots[k]);
                assert(ms[next[k] as int].is_opaque);
            }
        }
        if any_emissive(slots, ms) {
            let k = choose|k: int| 0 <= k < slots.len() && #[trigger] ms[slots[k] as int].spec_is_emissive();
            assert(next[k] == slots[k]);
            assert(ms[next[k] as int].spec_is_emissive());
        }
        if ms[s as int].spec_is_emissive() {
            assert(ms[next[slots.len() as int] as int].spec_is_emissive());
        }
        if any_emissive(next, ms) {
            let k = choose|k: int| 0 <= k < next.len() && #[trigger] ms[next[k] as int].spec_is_emissive();
            if k < slots.len() {
                assert(next[k] == slots[k]);
                assert(ms[slots[k] as int].spec_is_emissive());
            }
        }
    } else {
        assert(ms[next[w] as int] == ms[s as int]);
        if ms[s as int].spec_is_emissive() {
            assert(ms[next[w] as int].spec_is_emissive());
        }
    }
}

impl Model {
    /// Every index the model holds is in range: roots and children name
    /// nodes, children come after their parent, nodes name meshes, meshes
    /// name materials, materials name textures; every mesh and texture is
    /// well formed.
    pub open spec fn wf(&self) -> bool {
        &&& forall|i: int|
            0 <= i < self.root_node_indices@.len() ==> (#[trigger] self.root_node_indices@[i])
                < self.nodes@.len()
        &&& forall|i: int|
            0 <= i < self.nodes@.len() ==> (#[trigger] self.nodes@[i]).wf_at(
                i,
                self.nodes@.len(),
                self.meshes@.len(),
            )
        &&& forall|i: int|
            0 <= i < self.meshes@.len() ==> (#[trigger] self.meshes@[i]).wf() && forall|j: int|
                0 <= j < self.meshes@[i].material_indices@.len() ==> (
                #[trigger] self.meshes@[i].material_indices@[j]) < self.materials@.len()
        &&& forall|i: int|
            0 <= i < self.meshes@.len() ==> flags_follow(#[trigger] self.meshes@[i], self.materials@)
        &&& forall|i: int| 0 <= i < self.textures@.len() ==> (#[trigger] self.textures@[i]).wf()
        &&& forall|i: int|
            0 <= i < self.materials@.len() ==> (#[trigger] self.materials@[i]).refs_ok(
                self.textures@.len(),
            )
    }
}

/// In a well-formed model every mesh's indices form whole triangles, with
/// exactly one material reference per triangle.
pub proof fn lemma_material_reference_per_triangle(m: &Model, i: int)
    requires
        m.wf(),
        0 <= i < m.meshes@.len(),
    ensures
        m.meshes@[i].indices@.len() % 3 == 0,
        m.meshes@[i].triangle_material_indices@.len() == m.meshes@[i].indices@.len() / 3,
{
    assert(m.meshes@[i].wf());
}

/// In a well-formed model with a single material, every triangle of every
/// mesh resolves to material slot 0.
pub proof fn lemma_single_material_slot(m: &Model, i: int, t: int)
    requires
        m.wf(),
        m.materials@.len() == 1,
        0 <= i < m.meshes@.len(),
        0 <= t < m.meshes@[i].triangle_material_indices@.len(),
    ensures
        m.meshes@[i].material_indices@[m.meshes@[i].triangle_material_indices@[t] as int] == 0,
{
    let mesh = m.meshes@[i];
    assert(mesh.wf());
    let local = mesh.triangle_material_indices@[t] as int;
    assert(0 <= local < mesh.material_indices@.len());
    assert(mesh.material_indices@[local] < m.materials@.len());
}

} // verus!
