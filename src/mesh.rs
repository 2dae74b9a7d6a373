use vstd::prelude::*;

use crate::packing::PackedNormalizedXyz10;

verus! {

/// Bits of the f32 value +infinity.
pub const POS_INFINITY_BITS: u32 = 0x7F80_0000;

/// Bits of the f32 value -infinity.
pub const NEG_INFINITY_BITS: u32 = 0xFF80_0000;

/// One vertex as a renderer reads it. Float fields are held as their IEEE-754
/// bit patterns.
#[derive(Debug, Clone, Copy)]
pub struct PackedVertex {
    pub position: [u32; 3],
    pub normal: PackedNormalizedXyz10,
    pub tex_coord: [u32; 2],
    pub tangent: PackedNormalizedXyz10,
    pub tangent_handiness: u32,
}

/// The packed tangent frame of one vertex: its quantized normal and tangent
/// direction and the tangent's handedness sign (f32 bits, +1 or -1).
#[derive(Debug, Clone, Copy, PartialEq, Eq, Structural)]
pub struct VertexFrame {
    pub normal: PackedNormalizedXyz10,
    pub tangent: PackedNormalizedXyz10,
    pub tangent_handiness: u32,
}

/// One mesh: its vertices, its triangles, and for each triangle a mesh-local
/// material reference into `material_indices`, which names material slots.
#[derive(Debug, Clone)]
pub struct Mesh {
    pub packed_vertices: Vec<PackedVertex>,
    pub triangle_material_indices: Vec<u32>,
    pub material_indices: Vec<u32>,
    pub indices: Vec<u32>,
    pub opaque: bool,
    pub is_emissive: bool,
    pub bounds_min: [u32; 3],
    pub bounds_max: [u32; 3],
}

/// The f32 given by bits `b` is NaN.
pub open spec fn f32_is_nan(b: u32) -> bool {
    b % 0x8000_0000 > 0x7F80_0000
}

/// A key that orders non-NaN f32 bit patterns as their values are ordered
/// (both zeros get the same key).
pub open spec fn f32_key(b: u32) -> int {
    if b >= 0x8000_0000 {
        -((b - 0x8000_0000) as int)
    } else {
        b as int
    }
}

/// `a < b` on the f32 values given by their bits; false when either is NaN.
pub open spec fn f32_lt(a: u32, b: u32) -> bool {
    !f32_is_nan(a) && !f32_is_nan(b) && f32_key(a) < f32_key(b)
}

/// `if a < b { a } else { b }` on f32 values given by their bits.
pub open spec fn f32_min(a: u32, b: u32) -> u32 {
    if f32_lt(a, b) {
        a
    } else {
        b
    }
}

/// `if a > b { a } else { b }` on f32 values given by their bits.
pub open spec fn f32_max(a: u32, b: u32) -> u32 {
    if f32_lt(b, a) {
        a
    } else {
        b
    }
}

pub fn f32_less(a: u32, b: u32) -> (r: bool)
    ensures
        r == f32_lt(a, b),
{
    if a % 0x8000_0000 > 0x7F80_0000 || b % 0x8000_0000 > 0x7F80_0000 {
        return false;
    }
    let ka: i64 = if a >= 0x8000_0000 {
        -((a - 0x8000_0000) as i64)
    } else {
        a as i64
    };
    let kb: i64 = if b >= 0x8000_0000 {
        -((b - 0x8000_0000) as i64)
    } else {
        b as i64
    };
    ka < kb
}

/// Componentwise minimum of coordinate `k` over `ps`, starting from +infinity.
pub open spec fn fold_min(ps: Seq<[u32; 3]>, k: int) -> u32
    decreases ps.len(),
{
    if ps.len() == 0 {
        POS_INFINITY_BITS
    } else {
        f32_min(fold_min(ps.drop_last(), k), ps.last()[k])
    }
}

/// Componentwise maximum of coordinate `k` over `ps`, starting from -infinity.
pub open spec fn fold_max(ps: Seq<[u32; 3]>, k: int) -> u32
    decreases ps.len(),
{
    if ps.len() == 0 {
        NEG_INFINITY_BITS
    } else {
        f32_max(fold_max(ps.drop_last(), k), ps.last()[k])
    }
}

pub open spec fn positions_of(vs: Seq<PackedVertex>) -> Seq<[u32; 3]> {
    vs.map_values(|v: PackedVertex| v.position)
}

impl Mesh {
    /// The indices form whole triangles, every triangle has one material
    /// reference, and every reference is in
    /// range: vertex indices into the vertices, triangle references into the
    /// mesh-local material list.
    pub open spec fn wf(&self) -> bool {
        &&& self.indices@.len() % 3 == 0
        &&& self.triangle_material_indices@.len() == self.indices@.len() / 3
        &&& forall|i: int|
            0 <= i < self.indices@.len() ==> (#[trigger] self.indices@[i] as int)
                < self.packed_vertices@.len()
        &&& forall|i: int|
            0 <= i < self.triangle_material_indices@.len() ==> (
            #[trigger] self.triangle_material_indices@[i] as int) < self.material_indices@.len()
    }

    /// Builds a mesh and its bounds: the componentwise minimum and maximum of
    /// its vertex positions (+infinity and -infinity when it has none).
    pub fn new(
        packed_vertices: Vec<PackedVertex>,
        triangle_material_indices: Vec<u32>,
        material_indices: Vec<u32>,
        indices: Vec<u32>,
        opaque: bool,
        is_emissive: bool,
    ) -> (r: Self)
        requires
            triangle_material_indices@.len() == indices@.len() / 3,
        ensures
            r.packed_vertices == packed_vertices,
            r.triangle_material_indices == triangle_material_indices,
            r.material_indices == material_indices,
            r.indices == indices,
            r.opaque == opaque,
            r.is_emissive == is_emissive,
            forall|k: int|
                0 <= k < 3 ==> r.bounds_min[k] == fold_min(positions_of(packed_vertices@), k)
                    && r.bounds_max[k] == fold_max(positions_of(packed_vertices@), k),
    {
        let mut bounds_min: [u32; 3] = [POS_INFINITY_BITS, POS_INFINITY_BITS, POS_INFINITY_BITS];
        let mut bounds_max: [u32; 3] = [NEG_INFINITY_BITS, NEG_INFINITY_BITS, NEG_INFINITY_BITS];
        let ghost ps = positions_of(packed_vertices@);
        let mut i: usize = 0;
        while i < packed_vertices.len()
            invariant
                i <= packed_vertices@.len(),
                ps == positions_of(packed_vertices@),
                forall|k: int|
                    0 <= k < 3 ==> bounds_min[k] == fold_min(ps.take(i as int), k)
                        && bounds_max[k] == fold_max(ps.take(i as int), k),
            decreases packed_vertices@.len() - i,
        {
            let p = packed_vertices[i].position;
            let mut k: usize = 0;
            let ghost prev_min = bounds_min;
            let ghost prev_max = bounds_max;
            assert(ps.take(i + 1).drop_last() =~= ps.take(i as int));
            while k < 3
                invariant
                    k <= 3,
                    p == ps[i as int],
                    forall|j: int|
                        0 <= j < k ==> bounds_min[j] == f32_min(prev_min[j], p[j])
                            && bounds_max[j] == f32_max(prev_max[j], p[j]),
                    forall|j: int|
                        k <= j < 3 ==> bounds_min[j] == prev_min[j] && bounds_max[j]
                            == prev_max[j],
                decreases 3 - k,
            {
                if !f32_less(bounds_min[k], p[k]) {
                    bounds_min[k] = p[k];
                }
                if f32_less(p[k], bounds_max[k]) {
                } else {
                    bounds_max[k] = p[k];
                }
                k += 1;
            }
            i += 1;
        }
        assert(ps.take(packed_vertices@.len() as int) =~= ps);
        Mesh {
            packed_vertices,
            triangle_material_indices,
            material_indices,
            indices,
            opaque,
            is_emissive,
            bounds_min,
            bounds_max,
        }
    }
}

/// Vertex `i` of `pack_vertices`: position and texture coordinates verbatim,
/// the tangent frame from `frames`.
pub open spec fn packed_vertex(position: [u32; 3], frame: VertexFrame, tex_coord: [u32; 2]) -> PackedVertex {
    PackedVertex {
        position,
        normal: frame.normal,
        tex_coord,
        tangent: frame.tangent,
        tangent_handiness: frame.tangent_handiness,
    }
}

/// Packs parallel vertex arrays into vertex records.
pub fn pack_vertices(
    vertex_positions: &Vec<[u32; 3]>,
    vertex_frames: &Vec<VertexFrame>,
    vertex_tex_coords: &Vec<[u32; 2]>,
) -> (r: Vec<PackedVertex>)
    requires
        vertex_frames@.len() == vertex_positions@.len(),
        vertex_tex_coords@.len() == vertex_positions@.len(),
    ensures
        r@.len() == vertex_positions@.len(),
        forall|i: int|
            0 <= i < r@.len() ==> #[trigger] r@[i] == packed_vertex(
                vertex_positions@[i],
                vertex_frames@[i],
                vertex_tex_coords@[i],
            ),
{
    let mut packed: Vec<PackedVertex> = Vec::new();
    let mut i: usize = 0;
    while i < vertex_positions.len()
        invariant
            i <= vertex_positions@.len(),
            vertex_frames@.len() == vertex_positions@.len(),
            vertex_tex_coords@.len() == vertex_positions@.len(),
            packed@.len() == i,
            forall|j: int|
                0 <= j < i ==> #[trigger] packed@[j] == packed_vertex(
                    vertex_positions@[j],
                    vertex_frames@[j],
                    vertex_tex_coords@[j],
                ),
        decreases vertex_positions@.len() - i,
    {
        let frame = vertex_frames[i];
        packed.push(
            PackedVertex {
                position: vertex_positions[i],
                normal: frame.normal,
                tex_coord: vertex_tex_coords[i],
                tangent: frame.tangent,
                tangent_handiness: frame.tangent_handiness,
            },
        );
        i += 1;
    }
    packed
}

/// Two meshes hold the same content: the same vertices, triangles and
/// triangle-to-material mapping.
pub open spec fn same_content(a: &Mesh, b: &Mesh) -> bool {
    &&& a.packed_vertices@ == b.packed_vertices@
    &&& a.indices@ == b.indices@
    &&& a.triangle_material_indices@ == b.triangle_material_indices@
    &&& a.material_indices@ == b.material_indices@
}

fn same_u32s(a: &Vec<u32>, b: &Vec<u32>) -> (r: bool)
    ensures
        r == (a@ == b@),
{
    if a.len() != b.len() {
        return false;
    }
    let mut i: usize = 0;
    while i < a.len()
        invariant
            a@.len() == b@.len(),
            i <= a@.len(),
            a@.take(i as int) == b@.take(i as int),
        decreases a@.len() - i,
    {
        if a[i] != b[i] {
            assert(a@[i as int] != b@[i as int]);
            return false;
        }
        assert(a@.take(i + 1) =~= a@.take(i as int).push(a@[i as int]));
        assert(b@.take(i + 1) =~= b@.take(i as int).push(b@[i as int]));
        i += 1;
    }
    assert(a@ =~= a@.take(i as int));
    assert(b@ =~= b@.take(i as int));
    true
}

fn same_vertices(a: &Vec<PackedVertex>, b: &Vec<PackedVertex>) -> (r: bool)
    ensures
        r == (a@ == b@),
{
    if a.len() != b.len() {
        return false;
    }
    let mut i: usize = 0;
    while i < a.len()
        invariant
            a@.len() == b@.len(),
            i <= a@.len(),
            a@.take(i as int) == b@.take(i as int),
        decreases a@.len() - i,
    {
        if !same_vertex(&a[i], &b[i]) {
            assert(a@[i as int] != b@[i as int]);
            return false;
        }
        assert(a@.take(i + 1) =~= a@.take(i as int).push(a@[i as int]));
        assert(b@.take(i + 1) =~= b@.take(i as int).push(b@[i as int]));
        i += 1;
    }
    assert(a@ =~= a@.take(i as int));
    assert(b@ =~= b@.take(i as int));
    true
}

fn same_vertex(a: &PackedVertex, b: &PackedVertex) -> (r: bool)
    ensures
        r == (*a == *b),
{
    let r = a.position[0] == b.position[0] && a.position[1] == b.position[1] && a.position[2]
        == b.position[2] && a.normal == b.normal && a.tex_coord[0] == b.tex_coord[0]
        && a.tex_coord[1] == b.tex_coord[1] && a.tangent == b.tangent && a.tangent_handiness
        == b.tangent_handiness;
    if r {
        assert(a.position =~= b.position);
        assert(a.tex_coord =~= b.tex_coord);
    }
    r
}

/// Whether two meshes hold the same content.
pub fn has_same_content(a: &Mesh, b: &Mesh) -> (r: bool)
    ensures
        r == same_content(a, b),
{
    same_vertices(&a.packed_vertices, &b.packed_vertices) && same_u32s(&a.indices, &b.indices)
        && same_u32s(&a.triangle_material_indices, &b.triangle_material_indices) && same_u32s(
        &a.material_indices,
        &b.material_indices,
    )
}

/// The first of `meshes` with the same content as `candidate`, if any.
pub fn find_duplicate(meshes: &Vec<Mesh>, candidate: &Mesh) -> (r: Option<usize>)
    ensures
        r matches Some(i) ==> i < meshes@.len() && same_content(&meshes@[i as int], candidate)
            && forall|j: int| 0 <= j < i ==> !same_content(#[trigger] &meshes@[j], candidate),
        r is None ==> forall|j: int|
            0 <= j < meshes@.len() ==> !same_content(#[trigger] &meshes@[j], candidate),
{
    let mut i: usize = 0;
    while i < meshes.len()
        invariant
            i <= meshes@.len(),
            forall|j: int| 0 <= j < i ==> !same_content(#[trigger] &meshes@[j], candidate),
        decreases meshes@.len() - i,
    {
        if has_same_content(&meshes[i], candidate) {
            return Some(i);
        }
        i += 1;
    }
    None
}

} // verus!
