use vstd::prelude::*;
use vstd::set_lib::{lemma_int_range, lemma_len_subset, set_int_range};

use crate::material::{is_opaque, Material, HALF_BITS, ONE_BITS};
use crate::mesh::{
    find_duplicate, pack_vertices, positions_of, same_content, Mesh, PackedVertex, VertexFrame,
};
use crate::model::{
    all_opaque, any_emissive, flags_follow, lemma_flags_add, lemma_flags_stable, model_bounds, Model,
    ModelNode,
};
use crate::packing::PackedNormalizedXyz10;
use crate::parser::ParseOptions;
use crate::source::{
    SourceDocument, SourceImageData, SourceMaterial, SourceMesh, SourcePrimitive, TextureRef,
};
use crate::pixels::canonical_pixels;
use crate::texture::{
    capped_size, fits_block_compression, normal_filter_ok, Texture, TextureCompression, TextureCreateDesc,
    TextureError, TextureFormat, UncompressedTextureFormat,
};
use crate::pixels::SourceImage;

verus! {

/// Why a conversion was rejected.
#[derive(Debug, Clone, Copy, PartialEq, Eq, Structural)]
pub enum ConvertError {
    /// A compression family that is not implemented was asked for.
    UnsupportedCompression,
    /// A primitive is not a triangle list.
    NonTriangleTopology,
    /// A primitive has no positions.
    MissingPositions,
    /// A primitive has no index buffer.
    MissingIndices,
    /// A primitive's index names no vertex of the primitive.
    IndexOutOfRange,
    /// A primitive's index count is not a multiple of 3.
    IncompleteTriangle,
    /// A count or an index would not fit in 32 bits.
    TooLarge,
    /// An image's pixels have no canonical layout.
    UnsupportedPixelLayout,
    /// A normal map's pixels hold fewer than three channels.
    NormalMapWithoutColor,
    /// An image is named by an outside URI rather than embedded.
    ExternalImage,
    /// A node is reached twice from the scene's roots.
    CyclicHierarchy,
}

/// Primitive `p`'s `k`-th index names no vertex of the primitive.
pub open spec fn bad_index(p: SourcePrimitive, k: int) -> bool {
    p.indices matches Some(ix) && p.positions matches Some(ps) && 0 <= k < ix@.len() && ix@[k]
        >= ps@.len()
}

/// The indices of a primitive.
pub open spec fn used_indices(p: SourcePrimitive) -> Seq<u32> {
    p.indices.unwrap()@
}

/// The positions of `prims`, one primitive after the other.
pub open spec fn merged_positions(prims: Seq<SourcePrimitive>) -> Seq<[u32; 3]>
    decreases prims.len(),
{
    if prims.len() == 0 {
        seq![]
    } else {
        merged_positions(prims.drop_last()) + prims.last().positions.unwrap()@
    }
}

/// The indices of `prims`, each primitive's shifted past the vertices of
/// the primitives before it.
pub open spec fn merged_indices(prims: Seq<SourcePrimitive>) -> Seq<u32>
    decreases prims.len(),
{
    if prims.len() == 0 {
        seq![]
    } else {
        let base = merged_positions(prims.drop_last()).len();
        merged_indices(prims.drop_last()) + used_indices(prims.last()).map_values(
            |i: u32| (i + base) as u32,
        )
    }
}

/// A primitive has texture coordinates for every vertex.
pub open spec fn has_tex_coords(p: SourcePrimitive) -> bool {
    p.tex_coords matches Some(t) && p.positions matches Some(ps) && t@.len() == ps@.len()
}

/// Every primitive of `prims` has texture coordinates for every vertex.
pub open spec fn all_tex_coords(prims: Seq<SourcePrimitive>) -> bool {
    forall|j: int| 0 <= j < prims.len() ==> has_tex_coords(#[trigger] prims[j])
}

/// The texture coordinates of `prims`, one primitive after the other.
pub open spec fn merged_tex_coords(prims: Seq<SourcePrimitive>) -> Seq<[u32; 2]>
    decreases prims.len(),
{
    if prims.len() == 0 {
        seq![]
    } else {
        merged_tex_coords(prims.drop_last()) + prims.last().tex_coords.unwrap()@
    }
}

/// The material slot of a primitive: its material, or slot 0 without one.
pub open spec fn slot_of(p: SourcePrimitive) -> u32 {
    match p.material {
        Some(m) => m as u32,
        None => 0,
    }
}

/// The material slot of every triangle of `prims`, one primitive after the
/// other.
pub open spec fn merged_slots(prims: Seq<SourcePrimitive>) -> Seq<u32>
    decreases prims.len(),
{
    if prims.len() == 0 {
        seq![]
    } else {
        merged_slots(prims.drop_last()) + Seq::new(
            used_indices(prims.last()).len() / 3,
            |t: int| slot_of(prims.last()),
        )
    }
}

/// `mesh` is what source mesh `src` assembles to: its vertices at the
/// merged positions, with the merged texture coordinates when every
/// primitive has them and otherwise zero coordinates and a zero tangent of
/// handedness +1; its triangles the merged indices, each triangle's material
/// the slot of its primitive.
pub open spec fn mesh_matches(src: SourceMesh, mesh: Mesh) -> bool {
    &&& forall|j: int| 0 <= j < src.primitives@.len() ==> prim_ok(#[trigger] src.primitives@[j])
    &&& positions_of(mesh.packed_vertices@) == merged_positions(src.primitives@)
    &&& mesh.indices@ == merged_indices(src.primitives@)
    &&& all_tex_coords(src.primitives@) ==> mesh.packed_vertices@.map_values(
        |v: PackedVertex| v.tex_coord,
    ) == merged_tex_coords(src.primitives@)
    &&& !all_tex_coords(src.primitives@) ==> forall|v: int|
        0 <= v < mesh.packed_vertices@.len() ==> (#[trigger] mesh.packed_vertices@[v]).tex_coord
            == [0u32, 0u32] && mesh.packed_vertices@[v].tangent@ == 0
            && mesh.packed_vertices@[v].tangent_handiness == ONE_BITS
    &&& mesh.triangle_material_indices@.len() == merged_slots(src.primitives@).len()
    &&& forall|t: int|
        0 <= t < mesh.triangle_material_indices@.len() ==> mesh.material_indices@[(
        #[trigger] mesh.triangle_material_indices@[t]) as int] == merged_slots(src.primitives@)[t]
}

/// A place where the document names a node: `(-1, r)` is root `r` of the
/// scene, `(s, j)` child `j` of source node `s`.
pub open spec fn slot_valid(doc: &SourceDocument, slot: (int, int)) -> bool {
    if slot.0 < 0 {
        slot.0 == -1 && 0 <= slot.1 < doc.scene_roots@.len()
    } else {
        slot.0 < doc.nodes@.len() && 0 <= slot.1 < doc.nodes@[slot.0].children@.len()
    }
}

/// The node that a place names.
pub open spec fn slot_node(doc: &SourceDocument, slot: (int, int)) -> int {
    if slot.0 < 0 {
        doc.scene_roots@[slot.1] as int
    } else {
        doc.nodes@[slot.0].children@[slot.1] as int
    }
}

/// A primitive's index count is not a whole number of triangles.
pub open spec fn incomplete_triangle(p: SourcePrimitive) -> bool {
    p.indices matches Some(ix) && ix@.len() % 3 != 0
}

/// The vertex count of `prims`, counting a primitive without positions as
/// empty.
pub open spec fn total_positions(prims: Seq<SourcePrimitive>) -> nat
    decreases prims.len(),
{
    if prims.len() == 0 {
        0
    } else {
        total_positions(prims.drop_last()) + match prims.last().positions {
            Some(ps) => ps@.len(),
            None => 0,
        }
    }
}

/// An embedded image whose capped size has a side above 65535 texels, the
/// most this library hands to the block compressor.
pub open spec fn too_big_to_compress(image: SourceImageData, opt: ParseOptions) -> bool {
    match image {
        SourceImageData::Embedded(img) => {
            let size = capped_size(img.width as nat, img.height as nat, cap_of(opt));
            size.0 > 0xffff || size.1 > 0xffff
        },
        SourceImageData::Uri => false,
    }
}

/// The document needs more than the model's 32-bit indices and counts can
/// hold, or compression was asked for an image too large for it.
pub open spec fn exceeds_limits(doc: &SourceDocument, opt: ParseOptions) -> bool {
    ||| doc.nodes@.len() >= 0xffff_ffff
    ||| doc.meshes@.len() >= 0xffff_ffff
    ||| doc.images@.len() >= 0xffff_ffff
    ||| doc.materials@.len() >= 0xffff_ffff
    ||| exists|i: int|
        0 <= i < doc.meshes@.len() && (#[trigger] doc.meshes@[i]).primitives@.len() >= 0xffff_ffff
    ||| exists|i: int|
        0 <= i < doc.meshes@.len() && total_positions((#[trigger] doc.meshes@[i]).primitives@)
            > 0x1_0000_0000
    ||| (opt.texture_compression is Some && exists|i: int|
        0 <= i < doc.images@.len() && #[trigger] too_big_to_compress(doc.images@[i], opt))
}

/// Entries of a table that are filled.
pub open spec fn count_some(s: Seq<Option<u32>>) -> nat
    decreases s.len(),
{
    if s.len() == 0 {
        0
    } else {
        count_some(s.drop_last()) + if s.last() is Some {
            1nat
        } else {
            0nat
        }
    }
}

proof fn lemma_count_some_bound(s: Seq<Option<u32>>, i: int)
    requires
        0 <= i < s.len(),
        s[i] is None,
    ensures
        count_some(s) < s.len(),
    decreases s.len(),
{
    lemma_count_some_le(s.drop_last());
    if i < s.len() - 1 {
        assert(s.drop_last()[i] == s[i]);
        lemma_count_some_bound(s.drop_last(), i);
    }
}

proof fn lemma_count_some_le(s: Seq<Option<u32>>)
    ensures
        count_some(s) <= s.len(),
    decreases s.len(),
{
    if s.len() > 0 {
        lemma_count_some_le(s.drop_last());
    }
}

proof fn lemma_count_some_fill(s: Seq<Option<u32>>, i: int, x: u32)
    requires
        0 <= i < s.len(),
        s[i] is None,
    ensures
        count_some(s.update(i, Some(x))) == count_some(s) + 1,
    decreases s.len(),
{
    let t = s.update(i, Some(x));
    if i == s.len() - 1 {
        assert(t.drop_last() =~= s.drop_last());
    } else {
        assert(t.drop_last() =~= s.drop_last().update(i, Some(x)));
        lemma_count_some_fill(s.drop_last(), i, x);
    }
}

/// The vertex count of a prefix is at most that of the whole.
proof fn lemma_total_positions_prefix(prims: Seq<SourcePrimitive>, k: int)
    requires
        0 <= k <= prims.len(),
    ensures
        total_positions(prims.take(k)) <= total_positions(prims),
    decreases prims.len(),
{
    if k < prims.len() {
        lemma_total_positions_prefix(prims.drop_last(), k);
        assert(prims.drop_last().take(k) =~= prims.take(k));
    } else {
        assert(prims.take(k) =~= prims);
    }
}

/// A walk through the hierarchy: from a root of the scene, each next node a
/// child of the one before.
pub open spec fn path_in(doc: &SourceDocument, p: Seq<int>) -> bool {
    &&& p.len() >= 1
    &&& exists|r: int| 0 <= r < doc.scene_roots@.len() && #[trigger] doc.scene_roots@[r] as int == p[0]
    &&& forall|i: int| 0 <= i < p.len() ==> 0 <= #[trigger] p[i] < doc.nodes@.len()
    &&& forall|i: int|
        0 <= i < p.len() - 1 ==> #[trigger] doc.nodes@[p[i]].children@.contains(p[i + 1] as usize)
}

/// Source node `x` is reached from the scene's roots.
pub open spec fn reachable(doc: &SourceDocument, x: int) -> bool {
    exists|p: Seq<int>| #[trigger] path_in(doc, p) && p[p.len() - 1] == x
}

/// Source mesh `m` belongs to a reached node.
pub open spec fn mesh_reached(doc: &SourceDocument, m: int) -> bool {
    exists|x: int|
        0 <= x < doc.nodes@.len() && reachable(doc, x) && #[trigger] doc.nodes@[x].mesh == Some(
            m as usize,
        )
}

/// The material slot a primitive uses.
pub open spec fn slot_index(p: SourcePrimitive) -> int {
    match p.material {
        Some(m) => m as int,
        None => 0,
    }
}

/// Material slot `s` is used by a primitive of a reached mesh.
pub open spec fn slot_reached(doc: &SourceDocument, s: int) -> bool {
    exists|m: int, j: int|
        0 <= m < doc.meshes@.len() && 0 <= j < doc.meshes@[m].primitives@.len() && mesh_reached(
            doc,
            m,
        ) && #[trigger] slot_index(doc.meshes@[m].primitives@[j]) == s
}

/// Channel `c` of used material `i` samples an image that is embedded with a
/// layout outside the canonical set (`what` 0) or named by a URI (`what` 1).
pub open spec fn channel_image_is(doc: &SourceDocument, i: int, c: int, what: int) -> bool {
    &&& 0 <= i < doc.materials@.len()
    &&& 0 <= c < 10
    &&& slot_reached(doc, i)
    &&& channel_ref(doc.materials@[i], c) matches Some(r) && 0 <= r.texture < doc.textures@.len() && {
        let img = doc.textures@[r.texture as int].image as int;
        &&& 0 <= img < doc.images@.len()
        &&& what == 0 ==> (doc.images@[img] matches SourceImageData::Embedded(image)
            && image.layout.spec_canonical() is None)
        &&& what == 1 ==> doc.images@[img] is Uri
        &&& what == 0 || what == 1
    }
}

/// Normal-map channel `c` (2 or 9) of used material `i` samples an embedded
/// image whose canonical layout is not four 8-bit channels.
pub open spec fn normal_channel_without_color(doc: &SourceDocument, i: int, c: int) -> bool {
    &&& 0 <= i < doc.materials@.len()
    &&& slot_reached(doc, i)
    &&& (c == 2 || c == 9)
    &&& channel_ref(doc.materials@[i], c) matches Some(r) && 0 <= r.texture < doc.textures@.len() && {
        let img = doc.textures@[r.texture as int].image as int;
        &&& 0 <= img < doc.images@.len()
        &&& doc.images@[img] matches SourceImageData::Embedded(image) && image.layout.spec_canonical() is Some
            && image.layout.spec_canonical() != Some(UncompressedTextureFormat::Rgba8Unorm)
    }
}

/// A primitive the assembler accepts: a triangle list with positions and
/// indices, whole triangles, every index naming one of its vertices.
pub open spec fn prim_ok(p: SourcePrimitive) -> bool {
    &&& p.is_triangles
    &&& p.positions is Some
    &&& p.indices is Some
    &&& p.indices.unwrap()@.len() % 3 == 0
    &&& forall|k: int|
        0 <= k < p.indices.unwrap()@.len() ==> (#[trigger] p.indices.unwrap()@[k] as int)
            < p.positions.unwrap()@.len()
}

/// What the document holds for an error to be reported: a primitive, image
/// or texture that shows it, two places that name the same node, or a size
/// beyond the 32-bit indices.
pub open spec fn justified(doc: &SourceDocument, opt: ParseOptions, e: ConvertError) -> bool {
    match e {
        ConvertError::UnsupportedCompression => false,
        ConvertError::NonTriangleTopology => exists|i: int, j: int|
            0 <= i < doc.meshes@.len() && 0 <= j < doc.meshes@[i].primitives@.len() && mesh_reached(
                doc,
                i,
            ) && !(#[trigger] doc.meshes@[i].primitives@[j]).is_triangles,
        ConvertError::MissingPositions => exists|i: int, j: int|
            0 <= i < doc.meshes@.len() && 0 <= j < doc.meshes@[i].primitives@.len() && mesh_reached(
                doc,
                i,
            ) && (#[trigger] doc.meshes@[i].primitives@[j]).positions is None,
        ConvertError::MissingIndices => exists|i: int, j: int|
            0 <= i < doc.meshes@.len() && 0 <= j < doc.meshes@[i].primitives@.len() && mesh_reached(
                doc,
                i,
            ) && (#[trigger] doc.meshes@[i].primitives@[j]).indices is None,
        ConvertError::IndexOutOfRange => exists|i: int, j: int, k: int|
            0 <= i < doc.meshes@.len() && 0 <= j < doc.meshes@[i].primitives@.len() && mesh_reached(
                doc,
                i,
            ) && #[trigger] bad_index(doc.meshes@[i].primitives@[j], k),
        ConvertError::UnsupportedPixelLayout => exists|i: int, c: int|
            #[trigger] channel_image_is(doc, i, c, 0),
        ConvertError::NormalMapWithoutColor => exists|i: int, c: int|
            #[trigger] normal_channel_without_color(doc, i, c),
        ConvertError::ExternalImage => exists|i: int, c: int| #[trigger] channel_image_is(doc, i, c, 1),
        ConvertError::CyclicHierarchy => exists|a: (int, int), b: (int, int)|
            a != b && slot_valid(doc, a) && slot_valid(doc, b) && (a.0 < 0 || reachable(doc, a.0))
                && (b.0 < 0 || reachable(doc, b.0)) && #[trigger] slot_node(doc, a)
                == #[trigger] slot_node(doc, b),
        ConvertError::IncompleteTriangle => exists|i: int, j: int|
            0 <= i < doc.meshes@.len() && 0 <= j < doc.meshes@[i].primitives@.len() && mesh_reached(
                doc,
                i,
            ) && incomplete_triangle(#[trigger] doc.meshes@[i].primitives@[j]),
        ConvertError::TooLarge => exceeds_limits(doc, opt),
    }
}

/// The vertex streams of one assembled mesh, handed to the tangent-frame
/// kernel: `normals`, `tangents` and `tex_coords` are empty when some
/// primitive lacked them, and otherwise as long as `positions`. Tangents are
/// only read when texture coordinates are present.
#[derive(Debug, Clone)]
pub struct VertexStreams {
    pub positions: Vec<[u32; 3]>,
    pub normals: Vec<[u32; 3]>,
    pub tangents: Vec<[u32; 4]>,
    pub tex_coords: Vec<[u32; 2]>,
    pub indices: Vec<u32>,
}

/// The half-precision narrowing can be called on anything and halves the
/// byte count.
pub open spec fn narrow_ok<H: Fn(&Vec<u8>) -> Vec<u8>>(h: &H) -> bool {
    &&& forall|p: &Vec<u8>| #[trigger] h.requires((p,))
    &&& forall|p: &Vec<u8>, q: Vec<u8>| #[trigger] h.ensures((p,), q) ==> q@.len() == p@.len() / 2
}

/// The tangent-frame kernel can be called on anything and yields one frame
/// per vertex.
pub open spec fn frames_ok<G: Fn(&VertexStreams) -> Vec<VertexFrame>>(g: &G) -> bool {
    &&& forall|s: &VertexStreams| #[trigger] g.requires((s,))
    &&& forall|s: &VertexStreams, q: Vec<VertexFrame>|
        #[trigger] g.ensures((s,), q) ==> q@.len() == s.positions@.len()
}

/// Frames for a mesh without texture coordinates: no tangent space is
/// defined, so every tangent is the zero vector with handedness +1.
pub fn zero_tangent_frames(frames: Vec<VertexFrame>) -> (r: Vec<VertexFrame>)
    ensures
        r@.len() == frames@.len(),
        forall|i: int|
            0 <= i < r@.len() ==> (#[trigger] r@[i]).normal == frames@[i].normal && r@[i].tangent@
                == 0 && r@[i].tangent_handiness == ONE_BITS,
{
    let mut r: Vec<VertexFrame> = Vec::new();
    let mut i: usize = 0;
    while i < frames.len()
        invariant
            i <= frames@.len(),
            r@.len() == i,
            forall|j: int|
                0 <= j < i ==> (#[trigger] r@[j]).normal == frames@[j].normal && r@[j].tangent@
                    == 0 && r@[j].tangent_handiness == ONE_BITS,
        decreases frames@.len() - i,
    {
        let zero = PackedNormalizedXyz10::from_octahedral(0, 0);
        r.push(VertexFrame { normal: frames[i].normal, tangent: zero, tangent_handiness: ONE_BITS });
        i += 1;
    }
    r
}

fn extend_from<T: Copy>(dst: &mut Vec<T>, src: &Vec<T>)
    ensures
        final(dst)@ == old(dst)@ + src@,
{
    let ghost start = dst@;
    let mut i: usize = 0;
    while i < src.len()
        invariant
            i <= src@.len(),
            dst@ == start + src@.take(i as int),
        decreases src@.len() - i,
    {
        dst.push(src[i]);
        i += 1;
        assert(dst@ =~= start + src@.take(i as int));
    }
    assert(src@.take(src@.len() as int) =~= src@);
}

fn copy_image(img: &SourceImage) -> (r: SourceImage)
    ensures
        r.width == img.width,
        r.height == img.height,
        r.layout == img.layout,
        r.pixels@ == img.pixels@,
{
    let mut pixels: Vec<u8> = Vec::new();
    extend_from(&mut pixels, &img.pixels);
    assert(pixels@ =~= img.pixels@);
    SourceImage { width: img.width, height: img.height, layout: img.layout, pixels }
}

fn copy_name(name: &Option<String>) -> (r: Option<String>)
    ensures
        r is Some <==> name is Some,
        r matches Some(n) ==> n@ == name.unwrap()@,
{
    match name {
        Some(n) => Some(n.clone()),
        None => None,
    }
}

/// Model node `m` stands for source node `s`: the same local transform, the
/// source name or a placeholder, and a mesh exactly when the source node has
/// one.
pub open spec fn node_from(doc: &SourceDocument, m: ModelNode, s: int) -> bool {
    &&& 0 <= s < doc.nodes@.len()
    &&& m.transform == doc.nodes@[s].transform
    &&& m.name@ == (match doc.nodes@[s].name {
        Some(n) => n@,
        None => "Unnamed"@,
    })
    &&& (m.mesh_idx is Some <==> doc.nodes@[s].mesh is Some)
}

/// `src_of` names the source node of every model node: each source node at
/// most once, root `r` of the model is root `r` of the scene, and a node's
/// mesh is what its source node's mesh assembles to.
pub open spec fn flattened_from(
    doc: &SourceDocument,
    nodes: Seq<ModelNode>,
    roots: Seq<u32>,
    meshes: Seq<Mesh>,
    src_of: Seq<int>,
) -> bool {
    &&& src_of.len() == nodes.len()
    &&& forall|k: int|
        0 <= k < nodes.len() ==> ((#[trigger] nodes[k]).mesh_idx matches Some(i) ==> i
            < meshes.len() && mesh_matches(
            doc.meshes@[doc.nodes@[src_of[k]].mesh.unwrap() as int],
            meshes[i as int],
        ))
    &&& forall|k: int| 0 <= k < nodes.len() ==> node_from(doc, #[trigger] nodes[k], src_of[k])
    &&& forall|k1: int, k2: int|
        0 <= k1 < k2 < nodes.len() ==> #[trigger] src_of[k1] != #[trigger] src_of[k2]
    &&& roots.len() <= doc.scene_roots@.len()
    &&& forall|r: int|
        0 <= r < roots.len() ==> src_of[#[trigger] roots[r] as int] == doc.scene_roots@[r] as int
}

/// The resolution cap that `opt` asks for.
pub open spec fn cap_of(opt: ParseOptions) -> Option<u32> {
    match opt.max_texture_resolution {
        Some(m) => Some(m.spec_resolution()),
        None => None,
    }
}

/// Texture `t` was made from embedded image `img`: its size is the image's
/// under the cap; its format is the image's canonical layout, or that
/// layout's block-compressed counterpart when compression is asked for;
/// uncompressed and uncapped, its base level is the image's canonical
/// pixels; and it carries the UV transform and name of a channel that
/// samples the image.
pub open spec fn texture_from(doc: &SourceDocument, img: int, t: Texture, opt: ParseOptions) -> bool {
    &&& 0 <= img < doc.images@.len()
    &&& match doc.images@[img] {
        SourceImageData::Embedded(image) => match image.layout.spec_canonical() {
            Some(f) => {
                let size = capped_size(image.width as nat, image.height as nat, cap_of(opt));
                &&& t.spec_width() as nat == size.0
                &&& t.spec_height() as nat == size.1
                &&& opt.texture_compression is Some ==> t.spec_format() == TextureFormat::Compressed(
                    f.spec_as_compressed(),
                )
                &&& opt.texture_compression is None ==> t.spec_format()
                    == TextureFormat::Uncompressed(f)
                &&& opt.texture_compression is None && size == (
                    image.width as nat,
                    image.height as nat,
                ) ==> t.spec_data()[0]@ == canonical_pixels(image.layout, image.pixels@)
                &&& exists|i: int, c: int| #[trigger] channel_sourced(doc, i, c, img, t)
            },
            None => false,
        },
        SourceImageData::Uri => false,
    }
}

/// Channel `c` of document material `i` samples image `img`, and `t` carries
/// that channel's UV transform and its texture's name (or a placeholder).
pub open spec fn channel_sourced(doc: &SourceDocument, i: int, c: int, img: int, t: Texture) -> bool {
    &&& 0 <= i < doc.materials@.len()
    &&& 0 <= c < 10
    &&& channel_ref(doc.materials@[i], c) matches Some(r) && {
        &&& 0 <= r.texture < doc.textures@.len()
        &&& doc.textures@[r.texture as int].image as int == img
        &&& t.spec_uv_offset() == r.uv_offset
        &&& t.spec_uv_scale() == r.uv_scale
        &&& t.spec_name() == (match doc.textures@[r.texture as int].name {
            Some(n) => n@,
            None => "Unnamed"@,
        })
    }
}

/// Every filled texture channel of a filled material holds a texture made
/// from the image that the channel samples.
pub open spec fn channels_textured(
    doc: &SourceDocument,
    ms: Seq<Material>,
    ts: Seq<Texture>,
    opt: ParseOptions,
) -> bool {
    forall|i: int, c: int|
        0 <= i < ms.len() && 0 <= c < 10 && ms[i].index is Some ==> (#[trigger] channel_tex(
            ms[i],
            c,
        ) matches Some(t) ==> t < ts.len() && texture_from(
            doc,
            channel_image(doc, i, c),
            ts[t as int],
            opt,
        ))
}

/// Node `p`'s children so far are its source node's first children, in
/// order.
pub open spec fn children_prefix(
    doc: &SourceDocument,
    nodes: Seq<ModelNode>,
    src_of: Seq<int>,
    p: int,
) -> bool {
    let kids = doc.nodes@[src_of[p]].children@;
    let got = nodes[p].child_node_indices@;
    &&& got.len() <= kids.len()
    &&& forall|j: int| 0 <= j < got.len() ==> src_of[#[trigger] got[j] as int] == kids[j] as int
}

/// Every node's children are its source node's children, in order.
pub open spec fn children_follow(doc: &SourceDocument, nodes: Seq<ModelNode>, src_of: Seq<int>) -> bool {
    forall|p: int|
        0 <= p < nodes.len() ==> #[trigger] children_prefix(doc, nodes, src_of, p)
            && nodes[p].child_node_indices@.len() == doc.nodes@[src_of[p]].children@.len()
}

/// Child `j` of node `p` waits on the stack.
spec fn has_pending(stack: Seq<(usize, Option<usize>)>, js: Seq<int>, p: int, j: int) -> bool {
    exists|q: int| 0 <= q < stack.len() && stack[q].1 == Some(p as usize) && #[trigger] js[q] == j
}

/// The stack holds, for each node, the source children it has not yet
/// visited: entry `q` is child `js[q]` of its parent, a parent's entries lie
/// with the next child on top, and every missing child of a node other than
/// `skip` has an entry.
spec fn pending_ok(
    doc: &SourceDocument,
    nodes: Seq<ModelNode>,
    src_of: Seq<int>,
    stack: Seq<(usize, Option<usize>)>,
    js: Seq<int>,
    skip: int,
) -> bool {
    &&& js.len() == stack.len()
    &&& forall|q: int|
        0 <= q < stack.len() ==> ((#[trigger] stack[q]).1 matches Some(p) ==> p < nodes.len()
            && nodes[p as int].child_node_indices@.len() <= js[q] < doc.nodes@[src_of[p as int]].children@.len()
            && stack[q].0 == doc.nodes@[src_of[p as int]].children@[js[q]])
    &&& forall|q1: int, q2: int|
        0 <= q1 < q2 < stack.len() && (#[trigger] stack[q1]).1 is Some && stack[q1].1 == (
        #[trigger] stack[q2]).1 ==> js[q1] > js[q2]
    &&& forall|p: int, j: int|
        0 <= p < nodes.len() && p != skip && nodes[p].child_node_indices@.len() <= j
            < doc.nodes@[src_of[p]].children@.len() ==> #[trigger] has_pending(stack, js, p, j)
}

/// The place that stack entry `q` stands for.
spec fn entry_slot(
    stack: Seq<(usize, Option<usize>)>,
    js: Seq<int>,
    src_of: Seq<int>,
    r: int,
    q: int,
) -> (int, int) {
    match stack[q].1 {
        Some(p) => (src_of[p as int], js[q]),
        None => (-1, r),
    }
}

/// The places of visited nodes and of waiting entries are all distinct, and
/// each names what it stands for.
spec fn slots_ok(
    doc: &SourceDocument,
    nodes: Seq<ModelNode>,
    src_of: Seq<int>,
    consumed: Seq<(int, int)>,
    stack: Seq<(usize, Option<usize>)>,
    js: Seq<int>,
    r: int,
) -> bool {
    &&& consumed.len() == src_of.len()
    &&& forall|k: int|
        0 <= k < consumed.len() ==> slot_valid(doc, #[trigger] consumed[k]) && slot_node(
            doc,
            consumed[k],
        ) == src_of[k]
    &&& forall|k: int|
        0 <= k < consumed.len() && (#[trigger] consumed[k]).0 >= 0 ==> exists|p: int|
            0 <= p < k && #[trigger] src_of[p] == consumed[k].0
    &&& forall|k: int| 0 <= k < consumed.len() && (#[trigger] consumed[k]).0 < 0 ==> consumed[k].1 <= r
    &&& forall|q: int|
        0 <= q < stack.len() ==> ((#[trigger] stack[q]).1 is None ==> stack[q].0 as int
            == doc.scene_roots@[r] as int)
    &&& forall|q1: int, q2: int|
        0 <= q1 < q2 < stack.len() ==> !((#[trigger] stack[q1]).1 is None && (
        #[trigger] stack[q2]).1 is None)
    &&& forall|k: int, q: int|
        0 <= k < consumed.len() && 0 <= q < stack.len() ==> #[trigger] consumed[k]
            != #[trigger] entry_slot(stack, js, src_of, r, q)
}

/// Popping the next pending child and appending its node keeps the stack
/// bookkeeping, except for the new node's own children.
proof fn lemma_pop_step(
    doc: &SourceDocument,
    old_nodes: Seq<ModelNode>,
    old_src: Seq<int>,
    stack: Seq<(usize, Option<usize>)>,
    js: Seq<int>,
    nodes: Seq<ModelNode>,
    src_of: Seq<int>,
)
    requires
        stack.len() > 0,
        old_src.len() == old_nodes.len(),
        pending_ok(doc, old_nodes, old_src, stack, js, -1),
        forall|x: int| 0 <= x < old_nodes.len() ==> #[trigger] children_prefix(doc, old_nodes, old_src, x),
        forall|x: int, j: int|
            0 <= x < old_nodes.len() && 0 <= j < old_nodes[x].child_node_indices@.len() ==> (
            #[trigger] old_nodes[x].child_node_indices@[j] as int) < old_nodes.len(),
        forall|x: int| 0 <= x < old_nodes.len() ==> 0 <= #[trigger] old_src[x] < doc.nodes@.len(),
        0 <= stack.last().0 < doc.nodes@.len(),
        src_of == old_src.push(stack.last().0 as int),
        old_nodes.len() < 0xffff_ffff,
        nodes.len() == old_nodes.len() + 1,
        nodes[old_nodes.len() as int].child_node_indices@.len() == 0,
        stack.last().1 matches Some(p) ==> js.last() == old_nodes[p as int].child_node_indices@.len(),
        forall|x: int|
            0 <= x < old_nodes.len() && stack.last().1 != Some(x as usize) ==> #[trigger] nodes[x].child_node_indices
                == old_nodes[x].child_node_indices,
        stack.last().1 matches Some(p) ==> nodes[p as int].child_node_indices@
            == old_nodes[p as int].child_node_indices@.push(old_nodes.len() as u32),
    ensures
        pending_ok(doc, nodes, src_of, stack.drop_last(), js.drop_last(), old_nodes.len() as int),
        forall|x: int| 0 <= x < nodes.len() ==> #[trigger] children_prefix(doc, nodes, src_of, x),
{
    let k = old_nodes.len() as int;
    let top = stack.len() - 1;
    let rest = stack.drop_last();
    let rjs = js.drop_last();
    let parent = stack.last().1;
    assert(stack[top] == stack.last());
    assert forall|x: int| 0 <= x < nodes.len() implies #[trigger] children_prefix(doc, nodes, src_of, x) by {
        if x < k {
            assert(children_prefix(doc, old_nodes, old_src, x));
            assert(src_of[x] == old_src[x]);
            let got = nodes[x].child_node_indices@;
            let og = old_nodes[x].child_node_indices@;
            assert forall|j: int| 0 <= j < got.len() implies src_of[#[trigger] got[j] as int]
                == doc.nodes@[src_of[x]].children@[j] as int by {
                if parent == Some(x as usize) {
                    assert(got == og.push(k as u32));
                    if j < og.len() {
                        assert(got[j] == og[j]);
                        assert((og[j] as int) < k);
                        assert(src_of[og[j] as int] == old_src[og[j] as int]);
                    } else {
                        assert(got[j] == k as u32);
                        assert(src_of[k] == stack.last().0 as int);
                    }
                } else {
                    assert(got == og);
                    assert((og[j] as int) < k);
                    assert(src_of[og[j] as int] == old_src[og[j] as int]);
                }
            }
        }
    }
    assert forall|q: int| 0 <= q < rest.len() implies ((#[trigger] rest[q]).1 matches Some(p) ==> p
        < nodes.len() && nodes[p as int].child_node_indices@.len() <= rjs[q]
        < doc.nodes@[src_of[p as int]].children@.len() && rest[q].0
        == doc.nodes@[src_of[p as int]].children@[rjs[q]]) by {
        assert(rest[q] == stack[q]);
        assert(rjs[q] == js[q]);
        if let Some(p) = rest[q].1 {
            assert(src_of[p as int] == old_src[p as int]);
            if parent == Some(p) {
                assert(js[q] > js[top]);
            }
        }
    }
    assert forall|q1: int, q2: int|
        0 <= q1 < q2 < rest.len() && (#[trigger] rest[q1]).1 is Some && rest[q1].1 == (
        #[trigger] rest[q2]).1 implies rjs[q1] > rjs[q2] by {
        assert(rest[q1] == stack[q1]);
        assert(rest[q2] == stack[q2]);
    }
    assert forall|p: int, j: int|
        0 <= p < nodes.len() && p != k && nodes[p].child_node_indices@.len() <= j
            < doc.nodes@[src_of[p]].children@.len() implies #[trigger] has_pending(rest, rjs, p, j) by {
        assert(src_of[p] == old_src[p]);
        assert(has_pending(stack, js, p, j));
        let q = choose|q: int|
            0 <= q < stack.len() && stack[q].1 == Some(p as usize) && #[trigger] js[q] == j;
        assert(q != top);
        assert(rest[q] == stack[q]);
        assert(rjs[q] == j);
    }
}

/// Pushing the next pending child of the new node `k` keeps the stack
/// bookkeeping.
proof fn lemma_push_step(
    doc: &SourceDocument,
    nodes: Seq<ModelNode>,
    src_of: Seq<int>,
    stack: Seq<(usize, Option<usize>)>,
    js: Seq<int>,
    k: int,
    c: int,
    base: int,
)
    requires
        0 <= k < nodes.len(),
        k < 0xffff_ffff,
        src_of.len() == nodes.len(),
        0 <= src_of[k] < doc.nodes@.len(),
        nodes[k].child_node_indices@.len() == 0,
        0 <= c < doc.nodes@[src_of[k]].children@.len(),
        0 <= base <= stack.len(),
        stack.len() == base + (doc.nodes@[src_of[k]].children@.len() - (c + 1)),
        forall|q: int| 0 <= q < base ==> (#[trigger] stack[q]).1 != Some(k as usize),
        forall|q: int|
            base <= q < stack.len() ==> (#[trigger] stack[q]).1 == Some(k as usize) && js[q]
                == doc.nodes@[src_of[k]].children@.len() - 1 - (q - base),
        pending_ok(doc, nodes, src_of, stack, js, k),
    ensures
        pending_ok(
            doc,
            nodes,
            src_of,
            stack.push((doc.nodes@[src_of[k]].children@[c], Some(k as usize))),
            js.push(c),
            k,
        ),
{
    let e = (doc.nodes@[src_of[k]].children@[c], Some(k as usize));
    let st = stack.push(e);
    let j2 = js.push(c);
    assert forall|q: int| 0 <= q < st.len() implies ((#[trigger] st[q]).1 matches Some(p) ==> p
        < nodes.len() && nodes[p as int].child_node_indices@.len() <= j2[q]
        < doc.nodes@[src_of[p as int]].children@.len() && st[q].0
        == doc.nodes@[src_of[p as int]].children@[j2[q]]) by {
        if q < stack.len() {
            assert(st[q] == stack[q]);
            assert(j2[q] == js[q]);
        }
    }
    assert forall|q1: int, q2: int|
        0 <= q1 < q2 < st.len() && (#[trigger] st[q1]).1 is Some && st[q1].1 == (
        #[trigger] st[q2]).1 implies j2[q1] > j2[q2] by {
        assert(st[q1] == stack[q1]);
        if q2 < stack.len() {
            assert(st[q2] == stack[q2]);
        } else {
            assert(st[q1].1 == Some(k as usize));
        }
    }
    assert forall|p: int, j: int|
        0 <= p < nodes.len() && p != k && nodes[p].child_node_indices@.len() <= j
            < doc.nodes@[src_of[p]].children@.len() implies #[trigger] has_pending(st, j2, p, j) by {
        assert(has_pending(stack, js, p, j));
        let q = choose|q: int|
            0 <= q < stack.len() && stack[q].1 == Some(p as usize) && #[trigger] js[q] == j;
        assert(st[q] == stack[q]);
        assert(j2[q] == j);
    }
}

/// With no child pending, every node has all its source children, in order.
proof fn lemma_stack_done(
    doc: &SourceDocument,
    nodes: Seq<ModelNode>,
    src_of: Seq<int>,
    stack: Seq<(usize, Option<usize>)>,
    js: Seq<int>,
)
    requires
        stack.len() == 0,
        pending_ok(doc, nodes, src_of, stack, js, -1),
        forall|x: int| 0 <= x < nodes.len() ==> #[trigger] children_prefix(doc, nodes, src_of, x),
    ensures
        children_follow(doc, nodes, src_of),
{
    assert forall|p: int| 0 <= p < nodes.len() implies #[trigger] children_prefix(doc, nodes, src_of, p)
        && nodes[p].child_node_indices@.len() == doc.nodes@[src_of[p]].children@.len() by {
        let len = nodes[p].child_node_indices@.len();
        assert(children_prefix(doc, nodes, src_of, p));
        if len < doc.nodes@[src_of[p]].children@.len() {
            assert(has_pending(stack, js, p, len as int));
        }
    }
}

/// Finding a node visited already shows two places naming it.
proof fn lemma_revisit(
    doc: &SourceDocument,
    nodes: Seq<ModelNode>,
    src_of: Seq<int>,
    consumed: Seq<(int, int)>,
    stack: Seq<(usize, Option<usize>)>,
    js: Seq<int>,
    r: int,
    k: int,
)
    requires
        0 <= r < doc.scene_roots@.len(),
        stack.len() > 0,
        src_of.len() == nodes.len(),
        forall|x: int| 0 <= x < src_of.len() ==> 0 <= #[trigger] src_of[x] < doc.nodes@.len(),
        slots_ok(doc, nodes, src_of, consumed, stack, js, r),
        pending_ok(doc, nodes, src_of, stack, js, -1),
        forall|x: int| 0 <= x < src_of.len() ==> reachable(doc, #[trigger] src_of[x]),
        0 <= k < src_of.len(),
        src_of[k] == stack.last().0 as int,
    ensures
        forall|opt: ParseOptions| #[trigger] justified(doc, opt, ConvertError::CyclicHierarchy),
{
    let top = stack.len() - 1;
    assert(stack[top] == stack.last());
    let a = consumed[k];
    let b = entry_slot(stack, js, src_of, r, top);
    assert(a != b);
    if a.0 >= 0 {
        let p = choose|p: int| 0 <= p < k && #[trigger] src_of[p] == consumed[k].0;
        assert(reachable(doc, src_of[p]));
    }
    if let Some(p) = stack[top].1 {
        assert(reachable(doc, src_of[p as int]));
    }
    assert(slot_valid(doc, a) && slot_node(doc, a) == src_of[k]);
    assert(slot_valid(doc, b) && slot_node(doc, b) == stack[top].0 as int);
}

/// Entries of the stack stand for distinct places.
proof fn lemma_entries_distinct(
    doc: &SourceDocument,
    nodes: Seq<ModelNode>,
    src_of: Seq<int>,
    consumed: Seq<(int, int)>,
    stack: Seq<(usize, Option<usize>)>,
    js: Seq<int>,
    r: int,
    q1: int,
    q2: int,
)
    requires
        src_of.len() == nodes.len(),
        forall|x: int| 0 <= x < src_of.len() ==> 0 <= #[trigger] src_of[x] < doc.nodes@.len(),
        forall|k1: int, k2: int|
            0 <= k1 < k2 < src_of.len() ==> #[trigger] src_of[k1] != #[trigger] src_of[k2],
        slots_ok(doc, nodes, src_of, consumed, stack, js, r),
        pending_ok(doc, nodes, src_of, stack, js, -1),
        0 <= q1 < q2 < stack.len(),
    ensures
        entry_slot(stack, js, src_of, r, q1) != entry_slot(stack, js, src_of, r, q2),
{
    match (stack[q1].1, stack[q2].1) {
        (Some(p1), Some(p2)) => {
            if p1 == p2 {
                assert(js[q1] > js[q2]);
            } else if (p1 as int) < (p2 as int) {
                assert(src_of[p1 as int] != src_of[p2 as int]);
            } else {
                assert(src_of[p2 as int] != src_of[p1 as int]);
            }
        },
        (None, None) => {
            assert(!(stack[q1].1 is None && stack[q2].1 is None));
        },
        _ => {},
    }
}

/// Popping an entry and visiting its node keeps the places distinct.
proof fn lemma_slots_pop(
    doc: &SourceDocument,
    old_nodes: Seq<ModelNode>,
    old_src: Seq<int>,
    consumed: Seq<(int, int)>,
    stack: Seq<(usize, Option<usize>)>,
    js: Seq<int>,
    r: int,
    nodes: Seq<ModelNode>,
    src_of: Seq<int>,
)
    requires
        0 <= r < doc.scene_roots@.len(),
        stack.len() > 0,
        old_src.len() == old_nodes.len(),
        forall|x: int| 0 <= x < old_src.len() ==> 0 <= #[trigger] old_src[x] < doc.nodes@.len(),
        forall|k1: int, k2: int|
            0 <= k1 < k2 < old_src.len() ==> #[trigger] old_src[k1] != #[trigger] old_src[k2],
        slots_ok(doc, old_nodes, old_src, consumed, stack, js, r),
        pending_ok(doc, old_nodes, old_src, stack, js, -1),
        src_of == old_src.push(stack.last().0 as int),
        nodes.len() == old_nodes.len() + 1,
    ensures
        slots_ok(
            doc,
            nodes,
            src_of,
            consumed.push(entry_slot(stack, js, old_src, r, stack.len() - 1)),
            stack.drop_last(),
            js.drop_last(),
            r,
        ),
{
    let top = stack.len() - 1;
    let k = old_src.len() as int;
    let s = entry_slot(stack, js, old_src, r, top);
    let c2 = consumed.push(s);
    let st = stack.drop_last();
    let j2 = js.drop_last();
    assert(stack[top] == stack.last());
    assert(slot_valid(doc, s) && slot_node(doc, s) == src_of[k]);
    assert forall|x: int|
        0 <= x < c2.len() implies slot_valid(doc, #[trigger] c2[x]) && slot_node(doc, c2[x])
        == src_of[x] by {
        if x < k {
            assert(c2[x] == consumed[x]);
        }
    }
    assert forall|x: int|
        0 <= x < c2.len() && (#[trigger] c2[x]).0 >= 0 implies exists|p: int|
        0 <= p < x && #[trigger] src_of[p] == c2[x].0 by {
        if x < k {
            assert(c2[x] == consumed[x]);
            let p = choose|p: int| 0 <= p < x && #[trigger] old_src[p] == consumed[x].0;
            assert(src_of[p] == old_src[p]);
        } else {
            if let Some(p) = stack[top].1 {
                assert(src_of[p as int] == old_src[p as int]);
            }
        }
    }
    assert forall|x: int| 0 <= x < c2.len() && (#[trigger] c2[x]).0 < 0 implies c2[x].1 <= r by {
        if x < k {
            assert(c2[x] == consumed[x]);
        }
    }
    assert forall|q: int| 0 <= q < st.len() implies ((#[trigger] st[q]).1 is None ==> st[q].0 as int
        == doc.scene_roots@[r] as int) by {
        assert(st[q] == stack[q]);
    }
    assert forall|q1: int, q2: int|
        0 <= q1 < q2 < st.len() implies !((#[trigger] st[q1]).1 is None && (#[trigger] st[q2]).1 is None) by {
        assert(st[q1] == stack[q1]);
        assert(st[q2] == stack[q2]);
    }
    assert forall|x: int, q: int|
        0 <= x < c2.len() && 0 <= q < st.len() implies #[trigger] c2[x]
        != #[trigger] entry_slot(st, j2, src_of, r, q) by {
        assert(st[q] == stack[q]);
        assert(j2[q] == js[q]);
        if let Some(p) = stack[q].1 {
            assert(src_of[p as int] == old_src[p as int]);
        }
        assert(entry_slot(st, j2, src_of, r, q) == entry_slot(stack, js, old_src, r, q));
        if x < k {
            assert(c2[x] == consumed[x]);
        } else {
            lemma_entries_distinct(doc, old_nodes, old_src, consumed, stack, js, r, q, top);
        }
    }
}

/// Pushing child `c` of the new node `k` keeps the places distinct.
proof fn lemma_slots_push(
    doc: &SourceDocument,
    nodes: Seq<ModelNode>,
    src_of: Seq<int>,
    consumed: Seq<(int, int)>,
    stack: Seq<(usize, Option<usize>)>,
    js: Seq<int>,
    r: int,
    k: int,
    c: int,
)
    requires
        k == nodes.len() - 1,
        0 <= k < 0xffff_ffff,
        src_of.len() == nodes.len(),
        forall|x: int| 0 <= x < src_of.len() ==> 0 <= #[trigger] src_of[x],
        js.len() == stack.len(),
        forall|k1: int, k2: int|
            0 <= k1 < k2 < src_of.len() ==> #[trigger] src_of[k1] != #[trigger] src_of[k2],
        slots_ok(doc, nodes, src_of, consumed, stack, js, r),
    ensures
        slots_ok(
            doc,
            nodes,
            src_of,
            consumed,
            stack.push((doc.nodes@[src_of[k]].children@[c], Some(k as usize))),
            js.push(c),
            r,
        ),
{
    let st = stack.push((doc.nodes@[src_of[k]].children@[c], Some(k as usize)));
    let j2 = js.push(c);
    assert forall|q: int| 0 <= q < st.len() implies ((#[trigger] st[q]).1 is None ==> st[q].0 as int
        == doc.scene_roots@[r] as int) by {
        if q < stack.len() {
            assert(st[q] == stack[q]);
        }
    }
    assert forall|q1: int, q2: int|
        0 <= q1 < q2 < st.len() implies !((#[trigger] st[q1]).1 is None && (#[trigger] st[q2]).1 is None) by {
        assert(st[q1] == stack[q1]);
        if q2 < stack.len() {
            assert(st[q2] == stack[q2]);
        }
    }
    assert forall|x: int, q: int|
        0 <= x < consumed.len() && 0 <= q < st.len() implies #[trigger] consumed[x]
        != #[trigger] entry_slot(st, j2, src_of, r, q) by {
        if q < stack.len() {
            assert(st[q] == stack[q]);
            assert(j2[q] == js[q]);
            assert(entry_slot(st, j2, src_of, r, q) == entry_slot(stack, js, src_of, r, q));
        } else {
            assert(entry_slot(st, j2, src_of, r, q) == (src_of[k], c));
            if consumed[x].0 >= 0 && consumed[x] == (src_of[k], c) {
                let p = choose|p: int| 0 <= p < x && #[trigger] src_of[p] == consumed[x].0;
                assert(consumed.len() == src_of.len());
                assert(p < k);
                assert(src_of[p] != src_of[k]);
            }
        }
    }
}

/// Each node's first child directly follows it, and its children come in
/// increasing order.
pub open spec fn preorder_links(nodes: Seq<ModelNode>) -> bool {
    &&& forall|p: int|
        0 <= p < nodes.len() && (#[trigger] nodes[p]).child_node_indices@.len() > 0
            ==> nodes[p].child_node_indices@[0] == p + 1
    &&& forall|p: int, j1: int, j2: int|
        0 <= p < nodes.len() && 0 <= j1 < j2 < nodes[p].child_node_indices@.len()
            ==> #[trigger] nodes[p].child_node_indices@[j1] < #[trigger] nodes[p].child_node_indices@[j2]
}

/// The roots start at node 0 and come in increasing order.
pub open spec fn roots_ordered(roots: Seq<u32>) -> bool {
    &&& roots.len() > 0 ==> roots[0] == 0
    &&& forall|r1: int, r2: int| 0 <= r1 < r2 < roots.len() ==> #[trigger] roots[r1] < #[trigger] roots[r2]
}

/// Nodes whose source nodes name the same source mesh share one mesh.
pub open spec fn meshes_shared(doc: &SourceDocument, nodes: Seq<ModelNode>, src_of: Seq<int>) -> bool {
    forall|k1: int, k2: int|
        0 <= k1 < nodes.len() && 0 <= k2 < nodes.len() && doc.nodes@[src_of[k1]].mesh is Some
            && #[trigger] doc.nodes@[src_of[k1]].mesh == #[trigger] doc.nodes@[src_of[k2]].mesh
            ==> nodes[k1].mesh_idx == nodes[k2].mesh_idx
}

/// A node's mesh is the one the mesh table records for its source mesh.
spec fn mesh_links(
    doc: &SourceDocument,
    nodes: Seq<ModelNode>,
    src_of: Seq<int>,
    mesh_map: Seq<Option<u32>>,
) -> bool {
    forall|k: int|
        0 <= k < nodes.len() ==> ((#[trigger] nodes[k]).mesh_idx matches Some(i)
            ==> mesh_map[doc.nodes@[src_of[k]].mesh.unwrap() as int] == Some(i))
}

/// A waiting first child sits on top of the stack, and its parent is the
/// newest node.
spec fn first_pending_ok(
    nodes: Seq<ModelNode>,
    stack: Seq<(usize, Option<usize>)>,
    js: Seq<int>,
) -> bool {
    forall|q: int|
        0 <= q < stack.len() && #[trigger] first_waiting(nodes, stack, js, q) ==> stack[q].1
            == Some((nodes.len() - 1) as usize) && q == stack.len() - 1
}

/// Entry `q` is the first child of a node that has no child yet.
spec fn first_waiting(
    nodes: Seq<ModelNode>,
    stack: Seq<(usize, Option<usize>)>,
    js: Seq<int>,
    q: int,
) -> bool {
    match stack[q].1 {
        Some(p) => js[q] == 0 && nodes[p as int].child_node_indices@.len() == 0,
        None => false,
    }
}

/// Popping the top entry and appending its node keeps children in pre-order
/// positions.
proof fn lemma_order_pop(
    old_nodes: Seq<ModelNode>,
    stack: Seq<(usize, Option<usize>)>,
    js: Seq<int>,
    nodes: Seq<ModelNode>,
)
    requires
        stack.len() > 0,
        js.len() == stack.len(),
        old_nodes.len() < 0xffff_ffff,
        preorder_links(old_nodes),
        first_pending_ok(old_nodes, stack, js),
        forall|q: int|
            0 <= q < stack.len() ==> ((#[trigger] stack[q]).1 matches Some(p) ==> p < old_nodes.len()
                && old_nodes[p as int].child_node_indices@.len() <= js[q]),
        forall|x: int, j: int|
            0 <= x < old_nodes.len() && 0 <= j < old_nodes[x].child_node_indices@.len() ==> (
            #[trigger] old_nodes[x].child_node_indices@[j] as int) < old_nodes.len(),
        nodes.len() == old_nodes.len() + 1,
        nodes[old_nodes.len() as int].child_node_indices@.len() == 0,
        stack.last().1 matches Some(p) ==> js.last() == old_nodes[p as int].child_node_indices@.len(),
        forall|x: int|
            0 <= x < old_nodes.len() && stack.last().1 != Some(x as usize) ==> #[trigger] nodes[x].child_node_indices
                == old_nodes[x].child_node_indices,
        stack.last().1 matches Some(p) ==> nodes[p as int].child_node_indices@
            == old_nodes[p as int].child_node_indices@.push(old_nodes.len() as u32),
    ensures
        preorder_links(nodes),
        first_pending_ok(nodes, stack.drop_last(), js.drop_last()),
{
    let k = old_nodes.len() as int;
    let top = stack.len() - 1;
    assert(stack[top] == stack.last());
    let parent = stack.last().1;
    assert forall|p: int|
        0 <= p < nodes.len() && (#[trigger] nodes[p]).child_node_indices@.len() > 0 implies nodes[p].child_node_indices@[0]
        == p + 1 by {
        if p < k && parent == Some(p as usize) && old_nodes[p].child_node_indices@.len() == 0 {
            assert(js[top] == 0);
            assert(first_waiting(old_nodes, stack, js, top));
        }
        if p < k && parent == Some(p as usize) {
            assert(nodes[p].child_node_indices@[0] == old_nodes[p].child_node_indices@.push(k as u32)[0]);
        }
    }
    assert forall|p: int, j1: int, j2: int|
        0 <= p < nodes.len() && 0 <= j1 < j2 < nodes[p].child_node_indices@.len()
            implies #[trigger] nodes[p].child_node_indices@[j1] < #[trigger] nodes[p].child_node_indices@[j2] by {
        if p < k && parent == Some(p as usize) {
            let og = old_nodes[p].child_node_indices@;
            assert(nodes[p].child_node_indices@ == og.push(k as u32));
            if j2 == og.len() {
                assert((og[j1] as int) < k);
            } else {
                assert(og[j1] < og[j2]);
            }
        } else if p < k {
            assert(old_nodes[p].child_node_indices@[j1] < old_nodes[p].child_node_indices@[j2]);
        }
    }
    let st = stack.drop_last();
    let j2 = js.drop_last();
    assert forall|q: int|
        0 <= q < st.len() && #[trigger] first_waiting(nodes, st, j2, q) implies st[q].1 == Some(
        (nodes.len() - 1) as usize,
    ) && q == st.len() - 1 by {
        assert(st[q] == stack[q]);
        assert(j2[q] == js[q]);
        if let Some(p) = st[q].1 {
            if p as int != k {
                if parent != Some(p) {
                    assert(nodes[p as int].child_node_indices == old_nodes[p as int].child_node_indices);
                    assert(first_waiting(old_nodes, stack, js, q));
                }
            }
        }
    }
}

/// Pushing child `c` of the newest node `k` keeps the first waiting child on
/// top.
proof fn lemma_order_push(
    nodes: Seq<ModelNode>,
    stack: Seq<(usize, Option<usize>)>,
    js: Seq<int>,
    k: int,
    c: int,
    base: int,
    x: usize,
)
    requires
        k == nodes.len() - 1,
        0 <= k < 0xffff_ffff,
        js.len() == stack.len(),
        0 <= base <= stack.len(),
        0 <= c,
        first_pending_ok(nodes, stack, js),
        forall|q: int| 0 <= q < base ==> (#[trigger] stack[q]).1 != Some(k as usize),
        forall|q: int| base <= q < stack.len() ==> js[q] > c,
    ensures
        first_pending_ok(nodes, stack.push((x, Some(k as usize))), js.push(c)),
{
    let st = stack.push((x, Some(k as usize)));
    let j2 = js.push(c);
    assert forall|q: int|
        0 <= q < st.len() && #[trigger] first_waiting(nodes, st, j2, q) implies st[q].1 == Some(
        (nodes.len() - 1) as usize,
    ) && q == st.len() - 1 by {
        if q < stack.len() {
            assert(st[q] == stack[q]);
            assert(j2[q] == js[q]);
            if q < base {
                assert(first_waiting(nodes, stack, js, q));
                assert(stack[q].1 != Some(k as usize));
            } else {
                assert(js[q] > c);
            }
        } else {
            assert(st[q] == (x, Some(k as usize)));
        }
    }
}

/// Node `k`'s subtree is finished and spans `k .. end[k]` (at most `len`):
/// a leaf spans itself, the first child follows the node, each next child
/// starts where the previous child's subtree ends, and the last child's
/// subtree ends with the node's.
pub open spec fn subtree_closed(nodes: Seq<ModelNode>, end: Seq<int>, k: int, len: int) -> bool {
    let ch = nodes[k].child_node_indices@;
    &&& k < end[k] <= len
    &&& ch.len() == 0 ==> end[k] == k + 1
    &&& ch.len() > 0 ==> ch[0] as int == k + 1 && end[ch[ch.len() - 1] as int] == end[k]
    &&& forall|j: int| 0 <= j < ch.len() - 1 ==> #[trigger] ch[j + 1] as int == end[ch[j] as int]
}

/// The nodes are laid out in depth-first pre-order: every subtree occupies
/// the contiguous range `k .. end[k]`, and the roots' subtrees follow one
/// another from node 0 to the last node.
pub open spec fn preorder(nodes: Seq<ModelNode>, roots: Seq<u32>, end: Seq<int>) -> bool {
    &&& end.len() == nodes.len()
    &&& forall|k: int|
        0 <= k < nodes.len() ==> #[trigger] subtree_closed(nodes, end, k, nodes.len() as int)
    &&& roots.len() == 0 ==> nodes.len() == 0
    &&& roots.len() > 0 ==> roots[0] == 0 && end[roots[roots.len() - 1] as int] == nodes.len()
    &&& forall|r: int| 0 <= r < roots.len() - 1 ==> #[trigger] roots[r + 1] as int == end[roots[r] as int]
}

/// A node on the walk's open path: its children so far follow the
/// pre-order rules, except that the last one is still open.
spec fn subtree_open(nodes: Seq<ModelNode>, end: Seq<int>, k: int) -> bool {
    let ch = nodes[k].child_node_indices@;
    &&& ch.len() > 0 ==> ch[0] as int == k + 1
    &&& forall|j: int| 0 <= j < ch.len() - 1 ==> #[trigger] ch[j + 1] as int == end[ch[j] as int]
}

/// The walk of the tree rooted at node `lo`: `path` runs from that root to the
/// newest node, each next path node the last child of the one before; every
/// other node is finished.
#[verifier::opaque]
spec fn walk_ok(nodes: Seq<ModelNode>, end: Seq<int>, path: Seq<int>, lo: int) -> bool {
    let len = nodes.len() as int;
    &&& end.len() == nodes.len()
    &&& path.len() == 0 ==> len == lo
    &&& path.len() > 0 ==> path[0] == lo && path[path.len() - 1] == len - 1
    &&& forall|i: int, j: int| 0 <= i < j < path.len() ==> #[trigger] path[i] < #[trigger] path[j]
    &&& forall|i: int|
        0 <= i < path.len() - 1 ==> {
            let ch = nodes[#[trigger] path[i]].child_node_indices@;
            ch.len() > 0 && ch[ch.len() - 1] as int == path[i + 1]
        }
    &&& path.len() > 0 ==> nodes[path[path.len() - 1]].child_node_indices@.len() == 0
    &&& forall|i: int| 0 <= i < path.len() ==> subtree_open(nodes, end, #[trigger] path[i])
    &&& forall|k: int|
        0 <= k < len && !path.contains(k) ==> #[trigger] subtree_closed(nodes, end, k, len)
}

/// Each stack entry's parent is on the path at depth `dq[q]`, and deeper
/// parents' entries lie above shallower ones.
#[verifier::opaque]
spec fn depths_ok(stack: Seq<(usize, Option<usize>)>, dq: Seq<int>, path: Seq<int>) -> bool {
    &&& dq.len() == stack.len()
    &&& forall|q: int|
        0 <= q < stack.len() ==> ((#[trigger] stack[q]).1 matches Some(p) ==> 0 <= dq[q]
            < path.len() && path[dq[q]] == p as int)
    &&& forall|q: int| 0 <= q < stack.len() ==> ((#[trigger] stack[q]).1 is None ==> path.len() == 0)
    &&& forall|q1: int, q2: int| 0 <= q1 < q2 < stack.len() ==> #[trigger] dq[q1] <= #[trigger] dq[q2]
}

/// `end` with the path nodes from depth `keep` on finished at `len`.
spec fn finish(end: Seq<int>, path: Seq<int>, keep: int, len: int) -> Seq<int> {
    Seq::new(
        end.len(),
        |x: int|
            if keep < path.len() && x >= path[keep] && path.contains(x) {
                len
            } else {
                end[x]
            },
    )
}

/// Each node's recorded parent: a child's parent is the node that lists it;
/// the walk's root has none.
#[verifier::opaque]
spec fn parents_ok(nodes: Seq<ModelNode>, par: Seq<int>, path: Seq<int>) -> bool {
    &&& par.len() == nodes.len()
    &&& forall|k: int, j: int|
        0 <= k < nodes.len() && 0 <= j < nodes[k].child_node_indices@.len() ==> (
        #[trigger] nodes[k].child_node_indices@[j] as int) < nodes.len() && par[nodes[k].child_node_indices@[j] as int] == k
    &&& path.len() > 0 ==> par[path[0]] == -1
    &&& forall|i: int| 1 <= i < path.len() ==> par[#[trigger] path[i]] == path[i - 1]
}

/// A child of node `k` that is on the path is the path node after `k`.
proof fn lemma_child_on_path(nodes: Seq<ModelNode>, par: Seq<int>, path: Seq<int>, k: int, c: int)
    requires
        parents_ok(nodes, par, path),
        forall|i: int, j: int| 0 <= i < j < path.len() ==> #[trigger] path[i] < #[trigger] path[j],
        0 <= k,
        par[c] == k,
        path.contains(c),
    ensures
        exists|i: int| 0 <= i < path.len() - 1 && #[trigger] path[i] == k && path[i + 1] == c,
{
    reveal(parents_ok);
    let i = choose|i: int| 0 <= i < path.len() && path[i] == c;
    if i == 0 {
        assert(par[path[0]] == -1);
    } else {
        assert(par[path[i]] == path[i - 1]);
        assert(path[i - 1] == k && path[(i - 1) + 1] == c);
    }
}

/// Finishing the path below depth `keep` closes those nodes.
#[verifier::rlimit(60)]
proof fn lemma_finish(
    nodes: Seq<ModelNode>,
    end: Seq<int>,
    path: Seq<int>,
    par: Seq<int>,
    lo: int,
    keep: int,
)
    requires
        walk_ok(nodes, end, path, lo),
        parents_ok(nodes, par, path),
        preorder_links(nodes),
        0 <= lo,
        0 <= keep <= path.len(),
    ensures
        ({
            let len = nodes.len() as int;
            let e2 = finish(end, path, keep, len);
            let p2 = path.take(keep);
            &&& e2.len() == end.len()
            &&& forall|k: int| 0 <= k < len && !p2.contains(k) ==> #[trigger] subtree_closed(nodes, e2, k, len)
            &&& forall|i: int| 0 <= i < keep ==> subtree_open(nodes, e2, #[trigger] path[i])
            &&& forall|x: int| 0 <= x < len && !path.contains(x) ==> #[trigger] e2[x] == end[x]
            &&& forall|i: int| 0 <= i < keep ==> e2[path[i]] == end[#[trigger] path[i]]
            &&& keep < path.len() ==> e2[path[keep]] == len
        }),
{
    reveal(walk_ok);
    reveal(parents_ok);
    let len = nodes.len() as int;
    let e2 = finish(end, path, keep, len);
    let p2 = path.take(keep);
    assert forall|i: int| 0 <= i < path.len() implies lo <= #[trigger] path[i] < len by {
        if i > 0 {
            assert(path[0] < path[i]);
        }
        if i < path.len() - 1 {
            assert(path[i] < path[path.len() - 1]);
        }
    }
    assert forall|i: int| 0 <= i < keep implies e2[path[i]] == end[#[trigger] path[i]] by {
        if keep < path.len() {
            assert(path[i] < path[keep]);
            if path.contains(path[i]) && path[i] >= path[keep] {
            }
        }
    }
    if keep < path.len() {
        assert(path.contains(path[keep]));
    }
    // A child listed before a node's last child is never on the path.
    assert forall|k: int, j: int|
        0 <= k < len && 0 <= j < nodes[k].child_node_indices@.len() - 1 implies !path.contains(
        #[trigger] nodes[k].child_node_indices@[j] as int) by {
        let ch = nodes[k].child_node_indices@;
        let c = ch[j] as int;
        if path.contains(c) {
            lemma_child_on_path(nodes, par, path, k, c);
            let i = choose|i: int| 0 <= i < path.len() - 1 && #[trigger] path[i] == k && path[i + 1] == c;
            assert(ch[ch.len() - 1] as int == path[i + 1]);
            assert(ch[j] < ch[ch.len() - 1]);
        }
    }
    assert forall|k: int| 0 <= k < len && !p2.contains(k) implies #[trigger] subtree_closed(nodes, e2, k, len) by {
        let ch = nodes[k].child_node_indices@;
        if !path.contains(k) {
            assert(subtree_closed(nodes, end, k, len));
            if ch.len() > 0 {
                let c = ch[ch.len() - 1] as int;
                if path.contains(c) {
                    lemma_child_on_path(nodes, par, path, k, c);
                    let i = choose|i: int| 0 <= i < path.len() - 1 && #[trigger] path[i] == k && path[i + 1] == c;
                    assert(path.contains(k));
                }
            }
            assert forall|j: int| 0 <= j < ch.len() - 1 implies #[trigger] ch[j + 1] as int == e2[ch[j] as int] by {
                assert(!path.contains(ch[j] as int));
                assert(ch[j + 1] as int == end[ch[j] as int]);
            }
        } else {
            let i = choose|i: int| 0 <= i < path.len() && path[i] == k;
            if i < keep {
                assert(p2[i] == k);
                assert(p2.contains(k));
            }
            assert(subtree_open(nodes, end, path[i]));
            assert(e2[k] == len);
            if i < path.len() - 1 {
                assert(path[i] < path[path.len() - 1]);
                let c = ch[ch.len() - 1] as int;
                assert(c == path[i + 1]);
                assert(path[i + 1] >= path[keep]);
                assert(path.contains(path[i + 1]));
            }
            assert forall|j: int| 0 <= j < ch.len() - 1 implies #[trigger] ch[j + 1] as int == e2[ch[j] as int] by {
                assert(!path.contains(ch[j] as int));
            }
        }
    }
    assert forall|i: int| 0 <= i < keep implies subtree_open(nodes, e2, #[trigger] path[i]) by {
        let ch = nodes[path[i]].child_node_indices@;
        assert(subtree_open(nodes, end, path[i]));
        assert forall|j: int| 0 <= j < ch.len() - 1 implies #[trigger] ch[j + 1] as int == e2[ch[j] as int] by {
            assert(!path.contains(ch[j] as int));
        }
    }
}

/// What holds when the walk visits the next node: a child of the path node
/// at depth `keep - 1`, or the root when `keep` is 0.
spec fn pop_pre(
    old_nodes: Seq<ModelNode>,
    end: Seq<int>,
    path: Seq<int>,
    par: Seq<int>,
    lo: int,
    keep: int,
    nodes: Seq<ModelNode>,
) -> bool {
    &&& walk_ok(old_nodes, end, path, lo)
    &&& parents_ok(old_nodes, par, path)
    &&& preorder_links(old_nodes)
    &&& 0 <= lo
    &&& 0 <= keep <= path.len()
    &&& keep == 0 ==> path.len() == 0
    &&& old_nodes.len() < 0xffff_ffff
    &&& nodes.len() == old_nodes.len() + 1
    &&& nodes[old_nodes.len() as int].child_node_indices@.len() == 0
    &&& forall|x: int|
                0 <= x < old_nodes.len() && (keep == 0 || x != path[keep - 1]) ==> #[trigger] nodes[x].child_node_indices
                    == old_nodes[x].child_node_indices
    &&& keep > 0 ==> nodes[path[keep - 1]].child_node_indices@
                == old_nodes[path[keep - 1]].child_node_indices@.push(old_nodes.len() as u32)
}

proof fn lemma_path_range(nodes: Seq<ModelNode>, end: Seq<int>, path: Seq<int>, lo: int)
    requires
        walk_ok(nodes, end, path, lo),
    ensures
        forall|i: int| 0 <= i < path.len() ==> lo <= #[trigger] path[i] < nodes.len(),
{
    reveal(walk_ok);
    assert forall|i: int| 0 <= i < path.len() implies lo <= #[trigger] path[i] < nodes.len() by {
        if i > 0 {
            assert(path[0] < path[i]);
        }
        if i < path.len() - 1 {
            assert(path[i] < path[path.len() - 1]);
        }
    }
}

/// The path after the visit is increasing and linked by last children.
#[verifier::rlimit(60)]
proof fn lemma_pop_path(
    old_nodes: Seq<ModelNode>,
    end: Seq<int>,
    path: Seq<int>,
    par: Seq<int>,
    lo: int,
    keep: int,
    nodes: Seq<ModelNode>,
)
    requires
        pop_pre(old_nodes, end, path, par, lo, keep, nodes),
    ensures
        ({
            let len = old_nodes.len() as int;
            let p3 = path.take(keep).push(len);
            &&& forall|i: int, j: int| 0 <= i < j < p3.len() ==> #[trigger] p3[i] < #[trigger] p3[j]
            &&& forall|i: int|
                0 <= i < p3.len() - 1 ==> {
                    let ch = nodes[#[trigger] p3[i]].child_node_indices@;
                    ch.len() > 0 && ch[ch.len() - 1] as int == p3[i + 1]
                }
            &&& forall|i: int| 1 <= i < p3.len() ==> par.push(if keep == 0 { -1 } else { path[keep - 1] })[#[trigger] p3[i]] == p3[i - 1]
        }),
{
    reveal(walk_ok);
    reveal(parents_ok);
    let len = old_nodes.len() as int;
    let p3 = path.take(keep).push(len);
    let par3 = par.push(if keep == 0 { -1 } else { path[keep - 1] });
    lemma_path_range(old_nodes, end, path, lo);
    assert forall|i: int, j: int| 0 <= i < j < p3.len() implies #[trigger] p3[i] < #[trigger] p3[j] by {
        if j < keep {
            assert(path[i] < path[j]);
        }
    }
    assert forall|i: int| 0 <= i < p3.len() - 1 implies {
        let ch = nodes[#[trigger] p3[i]].child_node_indices@;
        ch.len() > 0 && ch[ch.len() - 1] as int == p3[i + 1]
    } by {
        if i < keep - 1 {
            assert(path[i] < path[keep - 1]);
            assert(nodes[path[i]].child_node_indices == old_nodes[path[i]].child_node_indices);
        }
    }
    assert forall|i: int| 1 <= i < p3.len() implies par3[#[trigger] p3[i]] == p3[i - 1] by {
        if i < keep {
            assert(par[path[i]] == path[i - 1]);
        }
    }
}

/// The path nodes stay open after the visit.
#[verifier::rlimit(60)]
proof fn lemma_pop_open(
    old_nodes: Seq<ModelNode>,
    end: Seq<int>,
    path: Seq<int>,
    par: Seq<int>,
    lo: int,
    keep: int,
    nodes: Seq<ModelNode>,
)
    requires
        pop_pre(old_nodes, end, path, par, lo, keep, nodes),
    ensures
        ({
            let len = old_nodes.len() as int;
            let e3 = finish(end, path, keep, len).push(0);
            let p3 = path.take(keep).push(len);
            forall|i: int| 0 <= i < p3.len() ==> subtree_open(nodes, e3, #[trigger] p3[i])
        }),
{
    reveal(walk_ok);
    reveal(parents_ok);
    let len = old_nodes.len() as int;
    lemma_finish(old_nodes, end, path, par, lo, keep);
    lemma_path_range(old_nodes, end, path, lo);
    let e2 = finish(end, path, keep, len);
    let e3 = e2.push(0);
    let p3 = path.take(keep).push(len);
    assert forall|i: int| 0 <= i < p3.len() implies subtree_open(nodes, e3, #[trigger] p3[i]) by {
        if i < keep {
            let k = path[i];
            assert(p3[i] == k);
            assert(subtree_open(old_nodes, e2, k));
            let och = old_nodes[k].child_node_indices@;
            let ch = nodes[k].child_node_indices@;
            assert forall|j: int| 0 <= j < och.len() implies (#[trigger] och[j] as int) < len by {}
            if i < keep - 1 {
                assert(path[i] < path[keep - 1]);
                assert(ch == och);
            } else {
                assert(ch == och.push(len as u32));
                if och.len() == 0 {
                    if i < path.len() - 1 {
                        assert(false);
                    }
                    assert(k == len - 1);
                } else {
                    if i == path.len() - 1 {
                        assert(false);
                    }
                    assert(och[och.len() - 1] as int == path[i + 1]);
                    assert(e2[path[keep]] == len);
                }
            }
        } else {
            assert(p3[i] == len);
        }
    }
}

/// The nodes off the path stay closed after the visit, and parents are kept.
#[verifier::rlimit(60)]
proof fn lemma_pop_closed(
    old_nodes: Seq<ModelNode>,
    end: Seq<int>,
    path: Seq<int>,
    par: Seq<int>,
    lo: int,
    keep: int,
    nodes: Seq<ModelNode>,
)
    requires
        pop_pre(old_nodes, end, path, par, lo, keep, nodes),
    ensures
        ({
            let len = old_nodes.len() as int;
            let e3 = finish(end, path, keep, len).push(0);
            let p3 = path.take(keep).push(len);
            let par3 = par.push(if keep == 0 { -1 } else { path[keep - 1] });
            &&& forall|k: int|
                0 <= k < nodes.len() && !p3.contains(k) ==> #[trigger] subtree_closed(nodes, e3, k, nodes.len() as int)
            &&& forall|k: int, j: int|
                0 <= k < nodes.len() && 0 <= j < nodes[k].child_node_indices@.len() ==> (
                #[trigger] nodes[k].child_node_indices@[j] as int) < nodes.len() && par3[nodes[k].child_node_indices@[j] as int] == k
            &&& forall|x: int| 0 <= x < lo ==> #[trigger] e3[x] == end[x]
        }),
{
    reveal(walk_ok);
    reveal(parents_ok);
    let len = old_nodes.len() as int;
    lemma_finish(old_nodes, end, path, par, lo, keep);
    lemma_path_range(old_nodes, end, path, lo);
    let e2 = finish(end, path, keep, len);
    let e3 = e2.push(0);
    let p2 = path.take(keep);
    let p3 = p2.push(len);
    let par3 = par.push(if keep == 0 { -1 } else { path[keep - 1] });
    assert forall|x: int| 0 <= x < lo implies #[trigger] e3[x] == end[x] by {
        if path.contains(x) {
            let i = choose|i: int| 0 <= i < path.len() && path[i] == x;
        }
    }
    assert forall|k: int|
        0 <= k < nodes.len() && !p3.contains(k) implies #[trigger] subtree_closed(nodes, e3, k, nodes.len() as int) by {
        if k == len {
            assert(p3[p3.len() - 1] == len);
        } else {
            if p2.contains(k) {
                let i = choose|i: int| 0 <= i < p2.len() && p2[i] == k;
                assert(p3[i] == k);
            }
            assert(subtree_closed(old_nodes, e2, k, len));
            if keep > 0 && k == path[keep - 1] {
                assert(p2[keep - 1] == k);
            }
            assert(nodes[k].child_node_indices == old_nodes[k].child_node_indices);
            let ch = nodes[k].child_node_indices@;
            assert forall|j: int| 0 <= j < ch.len() implies (#[trigger] ch[j] as int) < len by {}
        }
    }
    assert forall|k: int, j: int|
        0 <= k < nodes.len() && 0 <= j < nodes[k].child_node_indices@.len() implies (
        #[trigger] nodes[k].child_node_indices@[j] as int) < nodes.len() && par3[nodes[k].child_node_indices@[j] as int] == k by {
        if k == len {
        } else if keep > 0 && k == path[keep - 1] {
            let och = old_nodes[k].child_node_indices@;
            if j < och.len() {
                assert(nodes[k].child_node_indices@[j] == och[j]);
            }
        } else {
            assert(nodes[k].child_node_indices == old_nodes[k].child_node_indices);
        }
    }
}

/// Visiting the next node finishes the deeper path nodes and extends the
/// path with the new node.
#[verifier::rlimit(60)]
proof fn lemma_walk_pop(
    old_nodes: Seq<ModelNode>,
    end: Seq<int>,
    path: Seq<int>,
    par: Seq<int>,
    lo: int,
    keep: int,
    nodes: Seq<ModelNode>,
)
    requires
        pop_pre(old_nodes, end, path, par, lo, keep, nodes),
    ensures
        ({
            let len = old_nodes.len() as int;
            let e3 = finish(end, path, keep, len).push(0);
            let p3 = path.take(keep).push(len);
            let par3 = par.push(if keep == 0 { -1 } else { path[keep - 1] });
            &&& walk_ok(nodes, e3, p3, lo)
            &&& parents_ok(nodes, par3, p3)
            &&& forall|x: int| 0 <= x < lo ==> #[trigger] e3[x] == end[x]
        }),
{
    reveal(walk_ok);
    reveal(parents_ok);
    let len = old_nodes.len() as int;
    lemma_pop_path(old_nodes, end, path, par, lo, keep, nodes);
    lemma_pop_open(old_nodes, end, path, par, lo, keep, nodes);
    lemma_pop_closed(old_nodes, end, path, par, lo, keep, nodes);
    let p3 = path.take(keep).push(len);
    if keep > 0 {
        assert(p3[0] == path[0]);
    }
    assert(p3[p3.len() - 1] == len);
}

/// Popping the top entry and cutting the path below its parent keeps every
/// remaining entry's depth.
#[verifier::rlimit(60)]
proof fn lemma_depths_pop(
    stack: Seq<(usize, Option<usize>)>,
    dq: Seq<int>,
    path: Seq<int>,
    keep: int,
    len: int,
)
    requires
        stack.len() > 0,
        depths_ok(stack, dq, path),
        forall|q1: int, q2: int|
            0 <= q1 < q2 < stack.len() ==> !((#[trigger] stack[q1]).1 is None && (
            #[trigger] stack[q2]).1 is None),
        stack.last().1 is Some ==> keep == dq.last() + 1,
        stack.last().1 is None ==> keep == 0,
    ensures
        depths_ok(stack.drop_last(), dq.drop_last(), path.take(keep).push(len)),
        stack.last().1 matches Some(p) ==> 1 <= keep <= path.len() && path[keep - 1] == p as int,
        stack.last().1 is None ==> path.len() == 0,
{
    reveal(depths_ok);
    let st = stack.drop_last();
    let d2 = dq.drop_last();
    let p2 = path.take(keep).push(len);
    let top = stack.len() - 1;
    assert(stack[top] == stack.last());
    if stack.last().1 is Some {
        assert(0 <= dq[top] < path.len());
    }
    assert forall|q: int| 0 <= q < st.len() implies ((#[trigger] st[q]).1 matches Some(p) ==> 0 <= d2[q]
        < p2.len() && p2[d2[q]] == p as int) by {
        assert(st[q] == stack[q]);
        assert(d2[q] == dq[q]);
        if let Some(p) = st[q].1 {
            assert(dq[q] <= dq[top]);
            if stack.last().1 is None {
                assert(path.len() == 0);
            }
        }
    }
    assert forall|q: int| 0 <= q < st.len() implies ((#[trigger] st[q]).1 is None ==> p2.len() == 0) by {
        assert(st[q] == stack[q]);
        if st[q].1 is None {
            if stack.last().1 is None {
                assert(!(stack[q].1 is None && stack[top].1 is None));
            }
            assert(path.len() == 0);
        }
    }
    assert forall|q1: int, q2: int| 0 <= q1 < q2 < st.len() implies #[trigger] d2[q1] <= #[trigger] d2[q2] by {
        assert(d2[q1] == dq[q1]);
        assert(d2[q2] == dq[q2]);
    }
}

/// Pushing a child of the newest path node puts it deepest.
proof fn lemma_depths_push(
    stack: Seq<(usize, Option<usize>)>,
    dq: Seq<int>,
    path: Seq<int>,
    x: usize,
    k: usize,
)
    requires
        depths_ok(stack, dq, path),
        path.len() > 0,
        path[path.len() - 1] == k as int,
    ensures
        depths_ok(stack.push((x, Some(k))), dq.push(path.len() - 1), path),
{
    reveal(depths_ok);
    let st = stack.push((x, Some(k)));
    let d2 = dq.push(path.len() - 1);
    assert forall|q: int| 0 <= q < st.len() implies ((#[trigger] st[q]).1 matches Some(p) ==> 0 <= d2[q]
        < path.len() && path[d2[q]] == p as int) by {
        if q < stack.len() {
            assert(st[q] == stack[q]);
        }
    }
    assert forall|q: int| 0 <= q < st.len() implies ((#[trigger] st[q]).1 is None ==> path.len() == 0) by {
        if q < stack.len() {
            assert(st[q] == stack[q]);
        }
    }
    assert forall|q1: int, q2: int| 0 <= q1 < q2 < st.len() implies #[trigger] d2[q1] <= #[trigger] d2[q2] by {
        assert(st[q1] == stack[q1]);
        if q2 < stack.len() {
            assert(st[q2] == stack[q2]);
        }
    }
}

/// A child of a reached node is reached.
proof fn lemma_reach_child(doc: &SourceDocument, x: int, c: int)
    requires
        doc.wf(),
        0 <= x < doc.nodes@.len(),
        reachable(doc, x),
        0 <= c < doc.nodes@[x].children@.len(),
    ensures
        reachable(doc, doc.nodes@[x].children@[c] as int),
{
    let p = choose|p: Seq<int>| #[trigger] path_in(doc, p) && p[p.len() - 1] == x;
    let y = doc.nodes@[x].children@[c];
    let p2 = p.push(y as int);
    assert(doc.nodes@[x].children@[c] == y);
    assert forall|i: int| 0 <= i < p2.len() - 1 implies #[trigger] doc.nodes@[p2[i]].children@.contains(
        p2[i + 1] as usize,
    ) by {
        if i < p.len() - 1 {
            assert(p2[i] == p[i] && p2[i + 1] == p[i + 1]);
            assert(doc.nodes@[p[i]].children@.contains(p[i + 1] as usize));
        } else {
            assert(p2[i] == x);
            assert(doc.nodes@[x].children@[c] == y);
        }
    }
    assert forall|i: int| 0 <= i < p2.len() implies 0 <= #[trigger] p2[i] < doc.nodes@.len() by {
        if i < p.len() {
            assert(p2[i] == p[i]);
        }
    }
    let r = choose|r: int| 0 <= r < doc.scene_roots@.len() && #[trigger] doc.scene_roots@[r] as int == p[0];
    assert(doc.scene_roots@[r] as int == p2[0]);
    assert(path_in(doc, p2));
}

/// A root of the scene is reached.
proof fn lemma_reach_root(doc: &SourceDocument, r: int)
    requires
        doc.wf(),
        0 <= r < doc.scene_roots@.len(),
    ensures
        reachable(doc, doc.scene_roots@[r] as int),
{
    let p = seq![doc.scene_roots@[r] as int];
    assert(doc.scene_roots@[r] as int == p[0]);
    assert(path_in(doc, p));
}

/// The conversion's working state: the arrays being built and the tables
/// that remember what each source image, material and mesh became.
struct Builder {
    nodes: Vec<ModelNode>,
    meshes: Vec<Mesh>,
    materials: Vec<Material>,
    textures: Vec<Texture>,
    image_to_texture: Vec<Option<u32>>,
    mesh_map: Vec<Option<u32>>,
}

pub open spec fn material_count(doc: &SourceDocument) -> nat {
    if doc.materials@.len() == 0 {
        1
    } else {
        doc.materials@.len()
    }
}

impl Builder {
    spec fn inv(&self, doc: &SourceDocument, opt: ParseOptions) -> bool {
        &&& self.image_to_texture@.len() == doc.images@.len()
        &&& forall|i: int|
            0 <= i < self.image_to_texture@.len() ==> ((#[trigger] self.image_to_texture@[i]) matches Some(
                t,
            ) ==> t < self.textures@.len())
        &&& forall|i: int| 0 <= i < self.textures@.len() ==> (#[trigger] self.textures@[i]).wf()
        &&& forall|i: int|
            0 <= i < self.image_to_texture@.len() ==> ((#[trigger] self.image_to_texture@[i]) matches Some(
                t,
            ) ==> texture_from(doc, i, self.textures@[t as int], opt))
        &&& self.materials@.len() == material_count(doc)
        &&& forall|i: int|
            0 <= i < self.materials@.len() ==> (#[trigger] self.materials@[i]).refs_ok(
                self.textures@.len(),
            )
        &&& doc.materials@.len() == 0 ==> self.materials@[0].is_default()
        &&& forall|i: int|
            0 <= i < self.materials@.len() ==> material_from(doc, i, #[trigger] self.materials@[i])
        &&& forall|i: int|
            0 <= i < self.materials@.len() ==> #[trigger] channels_memoized(
                doc,
                self.materials@,
                self.image_to_texture@,
                i,
            )
        &&& self.meshes@.len() <= 0xffff_ffff
        &&& self.meshes@.len() <= count_some(self.mesh_map@)
        &&& self.textures@.len() <= count_some(self.image_to_texture@)
        &&& self.mesh_map@.len() == doc.meshes@.len()
        &&& forall|i: int|
            0 <= i < self.mesh_map@.len() ==> ((#[trigger] self.mesh_map@[i]) matches Some(m) ==> m
                < self.meshes@.len() && mesh_matches(doc.meshes@[i], self.meshes@[m as int]))
        &&& forall|i: int|
            0 <= i < self.meshes@.len() ==> (#[trigger] self.meshes@[i]).wf() && forall|j: int|
                0 <= j < self.meshes@[i].material_indices@.len() ==> (
                #[trigger] self.meshes@[i].material_indices@[j]) < self.materials@.len() && (
                self.materials@[self.meshes@[i].material_indices@[j] as int].index is Some
                    || doc.materials@.len() == 0)
        &&& forall|i: int|
            0 <= i < self.meshes@.len() ==> flags_follow(#[trigger] self.meshes@[i], self.materials@)
        &&& forall|i: int|
            0 <= i < self.nodes@.len() ==> (#[trigger] self.nodes@[i]).wf_at(
                i,
                self.nodes@.len(),
                self.meshes@.len(),
            )
        &&& opt.merge_duplicate_meshes ==> forall|i: int, j: int|
            0 <= i < j < self.meshes@.len() ==> !same_content(
                &#[trigger] self.meshes@[i],
                &#[trigger] self.meshes@[j],
            )
    }
}

/// What stays fixed while textures are added: nodes, meshes, materials and
/// the mesh table, and every image already converted.
spec fn only_textures_grew(old_b: &Builder, new_b: &Builder) -> bool {
    &&& new_b.nodes == old_b.nodes
    &&& new_b.meshes == old_b.meshes
    &&& new_b.materials == old_b.materials
    &&& new_b.mesh_map == old_b.mesh_map
    &&& new_b.textures@.len() >= old_b.textures@.len()
    &&& new_b.image_to_texture@.len() == old_b.image_to_texture@.len()
    &&& forall|i: int|
        0 <= i < old_b.image_to_texture@.len() && old_b.image_to_texture@[i] is Some
            ==> #[trigger] new_b.image_to_texture@[i] == old_b.image_to_texture@[i]
}

/// The texture of the image that `tref` samples: converted on its first
/// use, looked up afterwards.
fn process_texture<F, H>(
    b: &mut Builder,
    doc: &SourceDocument,
    tref: &TextureRef,
    channel: Ghost<(int, int)>,
    is_normal_map: bool,
    opt: &ParseOptions,
    normal_filter: &F,
    narrow_to_half: &H,
) -> (r: Result<u32, ConvertError>) where
    F: Fn(&Vec<u8>, u32, u32, u32, u32) -> Vec<u8>,
    H: Fn(&Vec<u8>) -> Vec<u8>,

    requires
        doc.wf(),
        old(b).inv(doc, *opt),
        0 <= channel@.0 < doc.materials@.len(),
        0 <= channel@.1 < 10,
        channel_ref(doc.materials@[channel@.0], channel@.1) == Some(*tref),
        is_normal_map == (channel@.1 == 2 || channel@.1 == 9),
        slot_reached(doc, channel@.0),
        opt.texture_compression != Some(TextureCompression::Astc),
        normal_filter_ok(normal_filter),
        narrow_ok(narrow_to_half),
    ensures
        r is Ok ==> {
            let img = doc.textures@[tref.texture as int].image as int;
            &&& final(b).inv(doc, *opt)
            &&& only_textures_grew(old(b), final(b))
            &&& r.unwrap() < final(b).textures@.len()
            &&& final(b).image_to_texture@[img] == Some(r.unwrap())
            &&& old(b).image_to_texture@[img] is Some ==> *final(b) == *old(b)
            &&& old(b).image_to_texture@[img] is None ==> {
                &&& r.unwrap() == old(b).textures@.len()
                &&& final(b).textures@.len() == old(b).textures@.len() + 1
                &&& final(b).textures@.take(old(b).textures@.len() as int) == old(b).textures@
                &&& final(b).image_to_texture@ == old(b).image_to_texture@.update(
                    img,
                    Some(r.unwrap()),
                )
            }
        },
        r matches Err(e) ==> justified(doc, *opt, e),
{
    let image_idx = doc.textures[tref.texture].image;
    if let Some(t) = b.image_to_texture[image_idx] {
        return Ok(t);
    }
    let image = match &doc.images[image_idx] {
        SourceImageData::Embedded(image) => image,
        SourceImageData::Uri => {
            assert(channel_image_is(doc, channel@.0, channel@.1, 1));
            return Err(ConvertError::ExternalImage);
        },
    };
    if b.textures.len() >= 0xffff_ffff {
        proof {
            lemma_count_some_bound(b.image_to_texture@, image_idx as int);
        }
        return Err(ConvertError::TooLarge);
    }
    let max_resolution = match opt.max_texture_resolution {
        Some(m) => Some(m.resolution()),
        None => None,
    };
    let desc = TextureCreateDesc {
        name: copy_name(&doc.textures[tref.texture].name),
        image: copy_image(image),
        mips: opt.generate_mips,
        is_normal_map,
        max_resolution,
        uv_offset: tref.uv_offset,
        uv_scale: tref.uv_scale,
    };
    let mut texture = match Texture::new(desc, normal_filter) {
        Ok(t) => t,
        Err(TextureError::UnsupportedPixelLayout) => {
            assert(channel_image_is(doc, channel@.0, channel@.1, 0));
            return Err(ConvertError::UnsupportedPixelLayout);
        },
        Err(TextureError::NormalMapWithoutColor) => {
            assert(normal_channel_without_color(doc, channel@.0, channel@.1));
            return Err(ConvertError::NormalMapWithoutColor);
        },
        Err(TextureError::UnsupportedCompression) => {
            return Err(ConvertError::UnsupportedCompression);
        },
    };
    if let Some(compression) = opt.texture_compression {
        if texture.width() > 0xffff || texture.height() > 0xffff {
            assert(too_big_to_compress(doc.images@[image_idx as int], *opt));
            return Err(ConvertError::TooLarge);
        }
        proof {
            assert(fits_block_compression(texture.spec_width() as nat, texture.spec_height() as nat)) by (nonlinear_arith)
                requires
                    texture.spec_width() <= 0xffff,
                    texture.spec_height() <= 0xffff,
            ;
        }
        texture = match texture.compress(&compression, narrow_to_half) {
            Ok(Some(t)) => t,
            _ => {
                return Err(ConvertError::UnsupportedCompression);
            },
        };
    }
    assert(channel_sourced(doc, channel@.0, channel@.1, image_idx as int, texture));
    let ghost old_memo = b.image_to_texture@;
    let ghost old_textures = b.textures@;
    let idx = b.textures.len() as u32;
    b.textures.push(texture);
    b.image_to_texture.set(image_idx, Some(idx));
    proof {
        lemma_count_some_fill(old_memo, image_idx as int, idx);
        assert(b.textures@.take(old_textures.len() as int) =~= old_textures);
        lemma_channel_images_in_range(doc, b.materials@);
        lemma_memo_grows(doc, b.materials@, old_memo, b.image_to_texture@);
    }
    Ok(idx)
}

/// The texture of an optional material channel.
fn resolve<F, H>(
    b: &mut Builder,
    doc: &SourceDocument,
    tref: &Option<TextureRef>,
    channel: Ghost<(int, int)>,
    is_normal_map: bool,
    opt: &ParseOptions,
    normal_filter: &F,
    narrow_to_half: &H,
) -> (r: Result<Option<u32>, ConvertError>) where
    F: Fn(&Vec<u8>, u32, u32, u32, u32) -> Vec<u8>,
    H: Fn(&Vec<u8>) -> Vec<u8>,

    requires
        doc.wf(),
        old(b).inv(doc, *opt),
        0 <= channel@.0 < doc.materials@.len(),
        0 <= channel@.1 < 10,
        channel_ref(doc.materials@[channel@.0], channel@.1) == *tref,
        is_normal_map == (channel@.1 == 2 || channel@.1 == 9),
        slot_reached(doc, channel@.0),
        opt.texture_compression != Some(TextureCompression::Astc),
        normal_filter_ok(normal_filter),
        narrow_ok(narrow_to_half),
    ensures
        r is Ok ==> {
            &&& final(b).inv(doc, *opt)
            &&& only_textures_grew(old(b), final(b))
            &&& (r.unwrap() is Some <==> tref is Some)
            &&& (r.unwrap() matches Some(t) ==> t < final(b).textures@.len()
                && final(b).image_to_texture@[doc.textures@[tref.unwrap().texture as int].image as int]
                == Some(t))
        },
        r matches Err(e) ==> justified(doc, *opt, e),
{
    match tref {
        Some(t) => {
            let idx = process_texture(
                b,
                doc,
                t,
                channel,
                is_normal_map,
                opt,
                normal_filter,
                narrow_to_half,
            )?;
            Ok(Some(idx))
        },
        None => Ok(None),
    }
}

/// Material `slot` built from `src`: parameters copied, texture references
/// as given in `t` (one per channel, in the order of `Material`'s fields).
pub open spec fn harvested(src: SourceMaterial, slot: usize, m: Material) -> bool {
    &&& m.index == Some(slot)
    &&& m.color == src.color
    &&& m.metallic == src.metallic
    &&& m.roughness == src.roughness
    &&& m.normal_scale == src.normal_scale
    &&& m.emission == src.emission
    &&& m.absorption == src.absorption
    &&& m.transmission == src.transmission
    &&& m.eta == src.eta
    &&& m.subsurface == 0
    &&& m.specular == src.specular
    &&& m.specular_tint == src.specular_tint
    &&& m.anisotropic == 0
    &&& m.sheen == src.sheen
    &&& m.sheen_tint == src.sheen_tint
    &&& m.clearcoat == src.clearcoat
    &&& m.clearcoat_roughness == src.clearcoat_roughness
    &&& m.alpha_cutoff == (match src.alpha_cutoff {
        Some(c) => c,
        None => HALF_BITS,
    })
    &&& m.is_opaque == crate::material::spec_is_opaque(src.alpha_mode_opaque, m.alpha_cutoff)
    &&& (m.color_texture is Some <==> src.color_texture is Some)
    &&& (m.metallic_roughness_texture is Some <==> src.metallic_roughness_texture is Some)
    &&& (m.normal_texture is Some <==> src.normal_texture is Some)
    &&& (m.emission_texture is Some <==> src.emission_texture is Some)
    &&& (m.transmission_texture is Some <==> src.transmission_texture is Some)
    &&& (m.sheen_texture is Some <==> src.sheen_texture is Some)
    &&& (m.sheen_tint_texture is Some <==> src.sheen_tint_texture is Some)
    &&& (m.clearcoat_texture is Some <==> src.clearcoat_texture is Some)
    &&& (m.clearcoat_roughness_texture is Some <==> src.clearcoat_roughness_texture is Some)
    &&& (m.clearcoat_normal_texture is Some <==> src.clearcoat_normal_texture is Some)
}

/// Material slot `i` holds the neutral default (a slot no primitive used, or
/// the one slot of a document without materials) or the document's material
/// `i`.
pub open spec fn material_from(doc: &SourceDocument, i: int, m: Material) -> bool {
    m.is_default() || (0 <= i < doc.materials@.len() && harvested(
        doc.materials@[i],
        i as usize,
        m,
    ))
}

/// Texture channel `c` (0 to 9, in the order of `Material`'s fields) of a
/// material.
pub open spec fn channel_tex(m: Material, c: int) -> Option<u32> {
    if c == 0 {
        m.color_texture
    } else if c == 1 {
        m.metallic_roughness_texture
    } else if c == 2 {
        m.normal_texture
    } else if c == 3 {
        m.emission_texture
    } else if c == 4 {
        m.transmission_texture
    } else if c == 5 {
        m.sheen_texture
    } else if c == 6 {
        m.sheen_tint_texture
    } else if c == 7 {
        m.clearcoat_texture
    } else if c == 8 {
        m.clearcoat_roughness_texture
    } else {
        m.clearcoat_normal_texture
    }
}

/// The source reference of texture channel `c` of a document material.
pub open spec fn channel_ref(s: SourceMaterial, c: int) -> Option<TextureRef> {
    if c == 0 {
        s.color_texture
    } else if c == 1 {
        s.metallic_roughness_texture
    } else if c == 2 {
        s.normal_texture
    } else if c == 3 {
        s.emission_texture
    } else if c == 4 {
        s.transmission_texture
    } else if c == 5 {
        s.sheen_texture
    } else if c == 6 {
        s.sheen_tint_texture
    } else if c == 7 {
        s.clearcoat_texture
    } else if c == 8 {
        s.clearcoat_roughness_texture
    } else {
        s.clearcoat_normal_texture
    }
}

/// The image that channel `c` of document material `i` samples.
pub open spec fn channel_image(doc: &SourceDocument, i: int, c: int) -> int {
    doc.textures@[channel_ref(doc.materials@[i], c).unwrap().texture as int].image as int
}

/// Every filled texture channel of material `i` holds the texture made from
/// the image it samples, as `image_to_texture` records it.
pub open spec fn channels_memoized(
    doc: &SourceDocument,
    materials: Seq<Material>,
    image_to_texture: Seq<Option<u32>>,
    i: int,
) -> bool {
    materials[i].index is Some ==> forall|c: int|
        0 <= c < 10 ==> (#[trigger] channel_tex(materials[i], c) matches Some(t)
            ==> image_to_texture[channel_image(doc, i, c)] == Some(t))
}

/// A filled channel of a document material samples an image of the document.
proof fn lemma_channel_images_in_range(doc: &SourceDocument, ms: Seq<Material>)
    requires
        doc.wf(),
        forall|i: int| 0 <= i < ms.len() ==> material_from(doc, i, #[trigger] ms[i]),
    ensures
        forall|i: int, c: int|
            0 <= i < ms.len() && 0 <= c < 10 && ms[i].index is Some && channel_tex(ms[i], c) is Some
                ==> 0 <= #[trigger] channel_image(doc, i, c) < doc.images@.len(),
{
    assert forall|i: int, c: int|
        0 <= i < ms.len() && 0 <= c < 10 && ms[i].index is Some && channel_tex(ms[i], c) is Some
            implies 0 <= #[trigger] channel_image(doc, i, c) < doc.images@.len() by {
        assert(material_from(doc, i, ms[i]));
        assert(harvested(doc.materials@[i], i as usize, ms[i]));
        assert(doc.materials@[i].refs_ok(doc.textures@.len()));
        let r = channel_ref(doc.materials@[i], c);
        assert(r is Some);
        assert(r.unwrap().texture < doc.textures@.len());
        assert(doc.textures@[r.unwrap().texture as int].image < doc.images@.len());
    }
}

/// If `r` is filled with texture `t`, `memo` records `t` for the image `r`
/// samples.
pub open spec fn memo_has(
    memo: Seq<Option<u32>>,
    doc: &SourceDocument,
    r: Option<TextureRef>,
    t: Option<u32>,
) -> bool {
    t matches Some(x) ==> memo[doc.textures@[r.unwrap().texture as int].image as int] == Some(x)
}

/// Recording more images keeps every filled channel memoized.
proof fn lemma_memo_grows(
    doc: &SourceDocument,
    ms: Seq<Material>,
    a: Seq<Option<u32>>,
    b: Seq<Option<u32>>,
)
    requires
        a.len() == b.len(),
        forall|j: int| 0 <= j < a.len() && a[j] is Some ==> #[trigger] b[j] == a[j],
        forall|i: int| 0 <= i < ms.len() ==> #[trigger] channels_memoized(doc, ms, a, i),
        forall|i: int, c: int|
            0 <= i < ms.len() && 0 <= c < 10 && ms[i].index is Some && channel_tex(ms[i], c) is Some
                ==> 0 <= #[trigger] channel_image(doc, i, c) < a.len(),
    ensures
        forall|i: int| 0 <= i < ms.len() ==> #[trigger] channels_memoized(doc, ms, b, i),
{
    assert forall|i: int| 0 <= i < ms.len() implies #[trigger] channels_memoized(doc, ms, b, i) by {
        assert(channels_memoized(doc, ms, a, i));
        if ms[i].index is Some {
            assert forall|c: int| 0 <= c < 10 implies (#[trigger] channel_tex(ms[i], c) matches Some(t)
                ==> b[channel_image(doc, i, c)] == Some(t)) by {
                if channel_tex(ms[i], c) is Some {
                    assert(a[channel_image(doc, i, c)] == channel_tex(ms[i], c));
                }
            }
        }
    }
}

/// Channels that sample the same image hold the same texture: each source
/// image is converted once.
pub open spec fn textures_shared(doc: &SourceDocument, materials: Seq<Material>) -> bool {
    forall|i1: int, c1: int, i2: int, c2: int|
        0 <= i1 < materials.len() && 0 <= i2 < materials.len() && 0 <= c1 < 10 && 0 <= c2 < 10
            && materials[i1].index is Some && materials[i2].index is Some && channel_tex(
            materials[i1],
            c1,
        ) is Some && channel_tex(materials[i2], c2) is Some && #[trigger] channel_image(doc, i1, c1)
            == #[trigger] channel_image(doc, i2, c2) ==> channel_tex(materials[i1], c1)
            == channel_tex(materials[i2], c2)
}

/// Channels that record their images' textures share a texture whenever
/// they share an image.
proof fn lemma_shared_from_memo(doc: &SourceDocument, ms: Seq<Material>, memo: Seq<Option<u32>>)
    requires
        forall|i: int| 0 <= i < ms.len() ==> #[trigger] channels_memoized(doc, ms, memo, i),
    ensures
        textures_shared(doc, ms),
{
    assert forall|i1: int, c1: int, i2: int, c2: int|
        0 <= i1 < ms.len() && 0 <= i2 < ms.len() && 0 <= c1 < 10 && 0 <= c2 < 10
            && ms[i1].index is Some && ms[i2].index is Some && channel_tex(ms[i1], c1) is Some
            && channel_tex(ms[i2], c2) is Some && #[trigger] channel_image(doc, i1, c1)
            == #[trigger] channel_image(doc, i2, c2) implies channel_tex(ms[i1], c1) == channel_tex(
        ms[i2],
        c2,
    ) by {
        assert(channels_memoized(doc, ms, memo, i1));
        assert(channels_memoized(doc, ms, memo, i2));
        assert(memo[channel_image(doc, i1, c1)] == channel_tex(ms[i1], c1));
        assert(memo[channel_image(doc, i2, c2)] == channel_tex(ms[i2], c2));
    }
}

/// The order in which a material's channels are resolved: transmission,
/// clearcoat (factor, roughness, normal), sheen (roughness, color), base
/// color, normal, metallic-roughness, emission.
pub open spec fn resolve_order(k: int) -> int {
    if k == 0 {
        4
    } else if k == 1 {
        7
    } else if k == 2 {
        8
    } else if k == 3 {
        9
    } else if k == 4 {
        5
    } else if k == 5 {
        6
    } else if k == 6 {
        0
    } else if k == 7 {
        2
    } else if k == 8 {
        1
    } else {
        3
    }
}

fn resolve_order_exec(k: usize) -> (r: usize)
    ensures
        r as int == resolve_order(k as int),
{
    if k == 0 {
        4
    } else if k == 1 {
        7
    } else if k == 2 {
        8
    } else if k == 3 {
        9
    } else if k == 4 {
        5
    } else if k == 5 {
        6
    } else if k == 6 {
        0
    } else if k == 7 {
        2
    } else if k == 8 {
        1
    } else {
        3
    }
}

fn channel_ref_exec(s: &SourceMaterial, c: usize) -> (r: Option<TextureRef>)
    ensures
        r == channel_ref(*s, c as int),
{
    if c == 0 {
        s.color_texture
    } else if c == 1 {
        s.metallic_roughness_texture
    } else if c == 2 {
        s.normal_texture
    } else if c == 3 {
        s.emission_texture
    } else if c == 4 {
        s.transmission_texture
    } else if c == 5 {
        s.sheen_texture
    } else if c == 6 {
        s.sheen_tint_texture
    } else if c == 7 {
        s.clearcoat_texture
    } else if c == 8 {
        s.clearcoat_roughness_texture
    } else {
        s.clearcoat_normal_texture
    }
}

proof fn lemma_grew_trans(a: &Builder, b: &Builder, c: &Builder)
    requires
        only_textures_grew(a, b),
        only_textures_grew(b, c),
    ensures
        only_textures_grew(a, c),
{
    assert forall|i: int|
        0 <= i < a.image_to_texture@.len() && a.image_to_texture@[i] is Some implies #[trigger] c.image_to_texture@[i]
        == a.image_to_texture@[i] by {
        assert(b.image_to_texture@[i] == a.image_to_texture@[i]);
    }
}

/// The textures of the ten channels of document material `slot`, indexed as
/// `channel_tex` numbers them; normal maps are filtered as directions.
fn resolve_channels<F, H>(
    b: &mut Builder,
    doc: &SourceDocument,
    slot: usize,
    opt: &ParseOptions,
    normal_filter: &F,
    narrow_to_half: &H,
) -> (r: Result<Vec<Option<u32>>, ConvertError>) where
    F: Fn(&Vec<u8>, u32, u32, u32, u32) -> Vec<u8>,
    H: Fn(&Vec<u8>) -> Vec<u8>,

    requires
        doc.wf(),
        old(b).inv(doc, *opt),
        slot < doc.materials@.len(),
        slot_reached(doc, slot as int),
        opt.texture_compression != Some(TextureCompression::Astc),
        normal_filter_ok(normal_filter),
        narrow_ok(narrow_to_half),
    ensures
        r is Ok ==> {
            &&& final(b).inv(doc, *opt)
            &&& only_textures_grew(old(b), final(b))
            &&& r.unwrap()@.len() == 10
            &&& forall|c: int|
                0 <= c < 10 ==> (#[trigger] r.unwrap()@[c] is Some <==> channel_ref(
                    doc.materials@[slot as int],
                    c,
                ) is Some) && memo_has(
                    final(b).image_to_texture@,
                    doc,
                    channel_ref(doc.materials@[slot as int], c),
                    r.unwrap()@[c],
                ) && (r.unwrap()@[c] matches Some(t) ==> t < final(b).textures@.len())
        },
        r matches Err(e) ==> justified(doc, *opt, e),
{
    let src = &doc.materials[slot];
    let mut texs: Vec<Option<u32>> = vec![None, None, None, None, None, None, None, None, None, None];
    let ghost start = *b;
    let mut k: usize = 0;
    while k < 10
        invariant
            doc.wf(),
            slot < doc.materials@.len(),
            slot_reached(doc, slot as int),
            *src == doc.materials@[slot as int],
            b.inv(doc, *opt),
            only_textures_grew(&start, b),
            opt.texture_compression != Some(TextureCompression::Astc),
            normal_filter_ok(normal_filter),
            narrow_ok(narrow_to_half),
            texs@.len() == 10,
            k <= 10,
            forall|j: int|
                #![trigger resolve_order(j)]
                0 <= j < k ==> {
                    let c = resolve_order(j);
                    &&& (texs@[c] is Some <==> channel_ref(*src, c) is Some)
                    &&& memo_has(b.image_to_texture@, doc, channel_ref(*src, c), texs@[c])
                    &&& (texs@[c] matches Some(t) ==> t < b.textures@.len())
                },
            forall|j: int| #![trigger resolve_order(j)] k <= j < 10 ==> texs@[resolve_order(j)] is None,
        decreases 10 - k,
    {
        let c = resolve_order_exec(k);
        let tref = channel_ref_exec(src, c);
        let ghost before = *b;
        let ghost texs_before = texs@;
        let t = resolve(b, doc, &tref, Ghost((slot as int, c as int)), c == 2 || c == 9, opt, normal_filter, narrow_to_half)?;
        texs.set(c, t);
        proof {
            lemma_grew_trans(&start, &before, b);
            assert forall|j: int| #![trigger resolve_order(j)] 0 <= j < k + 1 implies {
                let c2 = resolve_order(j);
                &&& (texs@[c2] is Some <==> channel_ref(*src, c2) is Some)
                &&& memo_has(b.image_to_texture@, doc, channel_ref(*src, c2), texs@[c2])
                &&& (texs@[c2] matches Some(t) ==> t < b.textures@.len())
            } by {
                let c2 = resolve_order(j);
                if j < k {
                    assert(c2 != c as int);
                    assert(texs@[c2] == texs_before[c2]);
                    if let Some(x) = texs_before[c2] {
                        let img = doc.textures@[channel_ref(*src, c2).unwrap().texture as int].image as int;
                        assert(before.image_to_texture@[img] == Some(x));
                        assert(b.image_to_texture@[img] == before.image_to_texture@[img]);
                    }
                }
            }
            assert forall|j: int| #![trigger resolve_order(j)] k + 1 <= j < 10 implies texs@[resolve_order(j)] is None by {
                assert(resolve_order(j) != c as int);
            }
        }
        k += 1;
    }
    proof {
        assert forall|c: int| 0 <= c < 10 implies (#[trigger] texs@[c] is Some <==> channel_ref(
            doc.materials@[slot as int],
            c,
        ) is Some) && memo_has(
            b.image_to_texture@,
            doc,
            channel_ref(doc.materials@[slot as int], c),
            texs@[c],
        ) && (texs@[c] matches Some(t) ==> t < b.textures@.len()) by {
            let j = if c == 4 { 0 } else if c == 7 { 1 } else if c == 8 { 2 } else if c == 9 { 3 }
                else if c == 5 { 4 } else if c == 6 { 5 } else if c == 0 { 6 } else if c == 2 { 7 }
                else if c == 1 { 8 } else { 9int };
            assert(resolve_order(j) == c);
        }
    }
    Ok(texs)
}

/// Material `slot` from document material `src`, its channels' textures
/// taken from `texs` (indexed as `channel_tex` numbers them).
fn build_material(src: &SourceMaterial, slot: usize, texs: &Vec<Option<u32>>) -> (m: Material)
    requires
        texs@.len() == 10,
        forall|c: int| 0 <= c < 10 ==> (#[trigger] texs@[c] is Some <==> channel_ref(*src, c) is Some),
    ensures
        harvested(*src, slot, m),
        forall|c: int| 0 <= c < 10 ==> #[trigger] channel_tex(m, c) == texs@[c],
{
    let color_texture = texs[0];
    let metallic_roughness_texture = texs[1];
    let normal_texture = texs[2];
    let emission_texture = texs[3];
    let transmission_texture = texs[4];
    let sheen_texture = texs[5];
    let sheen_tint_texture = texs[6];
    let clearcoat_texture = texs[7];
    let clearcoat_roughness_texture = texs[8];
    let clearcoat_normal_texture = texs[9];
    let alpha_cutoff = match src.alpha_cutoff {
        Some(c) => c,
        None => HALF_BITS,
    };
    let material = Material {
        index: Some(slot),
        color: src.color,
        color_texture,
        metallic: src.metallic,
        roughness: src.roughness,
        metallic_roughness_texture,
        normal_scale: src.normal_scale,
        normal_texture,
        emission: src.emission,
        emission_texture,
        absorption: src.absorption,
        transmission: src.transmission,
        transmission_texture,
        eta: src.eta,
        subsurface: 0,
        specular: src.specular,
        specular_tint: src.specular_tint,
        anisotropic: 0,
        sheen: src.sheen,
        sheen_texture,
        sheen_tint: src.sheen_tint,
        sheen_tint_texture,
        clearcoat: src.clearcoat,
        clearcoat_texture,
        clearcoat_roughness: src.clearcoat_roughness,
        clearcoat_roughness_texture,
        clearcoat_normal_texture,
        is_opaque: is_opaque(src.alpha_mode_opaque, alpha_cutoff),
        alpha_cutoff,
    };
    assert(texs@[0] is Some <==> channel_ref(*src, 0) is Some);
    assert(texs@[1] is Some <==> channel_ref(*src, 1) is Some);
    assert(texs@[2] is Some <==> channel_ref(*src, 2) is Some);
    assert(texs@[3] is Some <==> channel_ref(*src, 3) is Some);
    assert(texs@[4] is Some <==> channel_ref(*src, 4) is Some);
    assert(texs@[5] is Some <==> channel_ref(*src, 5) is Some);
    assert(texs@[6] is Some <==> channel_ref(*src, 6) is Some);
    assert(texs@[7] is Some <==> channel_ref(*src, 7) is Some);
    assert(texs@[8] is Some <==> channel_ref(*src, 8) is Some);
    assert(texs@[9] is Some <==> channel_ref(*src, 9) is Some);
    material
}

/// Fills material `slot` from the document on its first use; a slot that is
/// already filled is left as it is.
#[verifier::rlimit(100)]
fn harvest_material<F, H>(
    b: &mut Builder,
    doc: &SourceDocument,
    slot: usize,
    opt: &ParseOptions,
    normal_filter: &F,
    narrow_to_half: &H,
) -> (r: Result<(), ConvertError>) where
    F: Fn(&Vec<u8>, u32, u32, u32, u32) -> Vec<u8>,
    H: Fn(&Vec<u8>) -> Vec<u8>,

    requires
        doc.wf(),
        old(b).inv(doc, *opt),
        slot < doc.materials@.len(),
        slot_reached(doc, slot as int),
        opt.texture_compression != Some(TextureCompression::Astc),
        normal_filter_ok(normal_filter),
        narrow_ok(narrow_to_half),
    ensures
        r is Ok ==> {
            &&& final(b).inv(doc, *opt)
            &&& final(b).nodes == old(b).nodes
            &&& final(b).meshes == old(b).meshes
            &&& final(b).mesh_map == old(b).mesh_map
            &&& final(b).textures@.len() >= old(b).textures@.len()
            &&& old(b).materials@[slot as int].index is Some ==> final(b).materials
                == old(b).materials
            &&& old(b).materials@[slot as int].index is None ==> harvested(
                doc.materials@[slot as int],
                slot,
                final(b).materials@[slot as int],
            )
            &&& final(b).materials@[slot as int].index is Some
            &&& forall|i: int|
                0 <= i < old(b).materials@.len() && i != slot ==> #[trigger] final(b).materials@[i]
                    == old(b).materials@[i]
        },
        r matches Err(e) ==> justified(doc, *opt, e),
{
    if b.materials[slot].index.is_some() {
        return Ok(());
    }
    let src = &doc.materials[slot];
    let texs = resolve_channels(b, doc, slot, opt, normal_filter, narrow_to_half)?;
    let material = build_material(src, slot, &texs);
    proof {
        assert(channel_tex(material, 0) == texs@[0]);
        assert(channel_tex(material, 1) == texs@[1]);
        assert(channel_tex(material, 2) == texs@[2]);
        assert(channel_tex(material, 3) == texs@[3]);
        assert(channel_tex(material, 4) == texs@[4]);
        assert(channel_tex(material, 5) == texs@[5]);
        assert(channel_tex(material, 6) == texs@[6]);
        assert(channel_tex(material, 7) == texs@[7]);
        assert(channel_tex(material, 8) == texs@[8]);
        assert(channel_tex(material, 9) == texs@[9]);
        assert(material.refs_ok(b.textures@.len()));
    }
    let ghost before = b.materials@;
    b.materials.set(slot, material);
    proof {
        assert forall|i: int| 0 <= i < b.materials@.len() implies #[trigger] channels_memoized(
            doc,
            b.materials@,
            b.image_to_texture@,
            i,
        ) by {
            if i != slot as int {
                assert(channels_memoized(doc, before, b.image_to_texture@, i));
                assert(b.materials@[i] == before[i]);
            } else {
                assert forall|c: int| 0 <= c < 10 implies (#[trigger] channel_tex(b.materials@[i], c) matches Some(t)
                    ==> b.image_to_texture@[channel_image(doc, i, c)] == Some(t)) by {
                    assert(channel_tex(b.materials@[i], c) == texs@[c]);
                    assert(memo_has(b.image_to_texture@, doc, channel_ref(*src, c), texs@[c]));
                }
            }
        }
        assert forall|i: int| 0 <= i < b.meshes@.len() implies flags_follow(
            #[trigger] b.meshes@[i],
            b.materials@,
        ) by {
            let refs = b.meshes@[i].material_indices@;
            assert forall|k: int| 0 <= k < refs.len() implies #[trigger] before[refs[k] as int]
                == b.materials@[refs[k] as int] by {
                assert(b.meshes@[i].material_indices@[k] == refs[k]);
            }
            lemma_flags_stable(refs, before, b.materials@);
        }
    }
    Ok(())
}

/// `n` zero texture coordinates.
fn zero_tex_coords(n: usize) -> (r: Vec<[u32; 2]>)
    ensures
        r@.len() == n,
        forall|i: int| 0 <= i < n ==> #[trigger] r@[i] == [0u32, 0u32],
{
    let mut r: Vec<[u32; 2]> = Vec::new();
    let mut i: usize = 0;
    while i < n
        invariant
            i <= n,
            r@.len() == i,
            forall|j: int| 0 <= j < i ==> #[trigger] r@[j] == [0u32, 0u32],
        decreases n - i,
    {
        r.push([0, 0]);
        i += 1;
    }
    r
}

/// Index of `slot` in `slots`, appending it when absent.
fn local_material_index(slots: &mut Vec<u32>, slot: u32) -> (r: u32)
    requires
        old(slots)@.len() < 0xffff_ffff,
    ensures
        r < final(slots)@.len(),
        final(slots)@[r as int] == slot,
        final(slots)@ == old(slots)@ || final(slots)@ == old(slots)@.push(slot),
{
    let mut i: usize = 0;
    while i < slots.len()
        invariant
            i <= slots@.len(),
            slots@.len() < 0xffff_ffff,
        decreases slots@.len() - i,
    {
        if slots[i] == slot {
            return i as u32;
        }
        i += 1;
    }
    slots.push(slot);
    (slots.len() - 1) as u32
}

/// The model mesh of source mesh `mesh_idx`, assembled on its first use:
/// primitives are merged in order (their indices offset by the vertices
/// before them), every triangle gets its primitive's mesh-local material
/// reference, missing tangent frames come from `frames`, and with merging
/// enabled a mesh whose content another mesh already holds is not added.
fn assemble_mesh<F, H, G>(
    b: &mut Builder,
    doc: &SourceDocument,
    mesh_idx: usize,
    node: Ghost<int>,
    opt: &ParseOptions,
    normal_filter: &F,
    narrow_to_half: &H,
    frames: &G,
) -> (r: Result<u32, ConvertError>) where
    F: Fn(&Vec<u8>, u32, u32, u32, u32) -> Vec<u8>,
    H: Fn(&Vec<u8>) -> Vec<u8>,
    G: Fn(&VertexStreams) -> Vec<VertexFrame>,

    requires
        doc.wf(),
        old(b).inv(doc, *opt),
        mesh_idx < doc.meshes@.len(),
        0 <= node@ < doc.nodes@.len(),
        reachable(doc, node@),
        doc.nodes@[node@].mesh == Some(mesh_idx),
        old(b).mesh_map@[mesh_idx as int] is None,
        opt.texture_compression != Some(TextureCompression::Astc),
        normal_filter_ok(normal_filter),
        narrow_ok(narrow_to_half),
        frames_ok(frames),
    ensures
        r is Ok ==> {
            &&& final(b).inv(doc, *opt)
            &&& final(b).nodes == old(b).nodes
            &&& final(b).mesh_map@ == old(b).mesh_map@.update(mesh_idx as int, Some(r.unwrap()))
            &&& final(b).meshes@.len() >= old(b).meshes@.len()
            &&& r.unwrap() < final(b).meshes@.len()
            &&& final(b).meshes@.take(old(b).meshes@.len() as int) == old(b).meshes@
            &&& mesh_matches(doc.meshes@[mesh_idx as int], final(b).meshes@[r.unwrap() as int])
        },
        r matches Err(e) ==> justified(doc, *opt, e),
{
    let src = &doc.meshes[mesh_idx];
    assert(mesh_reached(doc, mesh_idx as int));
    let mut positions: Vec<[u32; 3]> = Vec::new();
    let mut normals: Vec<[u32; 3]> = Vec::new();
    let mut tangents: Vec<[u32; 4]> = Vec::new();
    let mut tex_coords: Vec<[u32; 2]> = Vec::new();
    let mut has_normals = true;
    let mut has_tangents = true;
    let mut has_uvs = true;
    let mut indices: Vec<u32> = Vec::new();
    let mut triangle_materials: Vec<u32> = Vec::new();
    let mut material_slots: Vec<u32> = Vec::new();
    let mut opaque = true;
    let mut emissive = false;
    let ghost b_start = *b;
    let mut p: usize = 0;
    while p < src.primitives.len()
        invariant
            doc.wf(),
            mesh_idx < doc.meshes@.len(),
            *src == doc.meshes@[mesh_idx as int],
            mesh_reached(doc, mesh_idx as int),
            b.inv(doc, *opt),
            b.nodes == b_start.nodes,
            b.meshes == b_start.meshes,
            b.mesh_map == b_start.mesh_map,
            b_start.mesh_map@[mesh_idx as int] is None,
            positions@.len() == total_positions(src.primitives@.take(p as int)),
            material_slots@.len() <= p,
            forall|j: int| 0 <= j < p ==> prim_ok(#[trigger] src.primitives@[j]),
            opt.texture_compression != Some(TextureCompression::Astc),
            normal_filter_ok(normal_filter),
            narrow_ok(narrow_to_half),
            frames_ok(frames),
            p <= src.primitives@.len(),
            positions@.len() <= 0x1_0000_0000,
            positions@ == merged_positions(src.primitives@.take(p as int)),
            indices@ == merged_indices(src.primitives@.take(p as int)),
            triangle_materials@.len() == merged_slots(src.primitives@.take(p as int)).len(),
            forall|t: int|
                0 <= t < triangle_materials@.len() ==> material_slots@[(
                #[trigger] triangle_materials@[t]) as int] == merged_slots(
                    src.primitives@.take(p as int),
                )[t],
            forall|k: int| 0 <= k < indices@.len() ==> (#[trigger] indices@[k] as int) < positions@.len(),
            indices@.len() % 3 == 0,
            triangle_materials@.len() == indices@.len() / 3,
            forall|k: int|
                0 <= k < triangle_materials@.len() ==> (#[trigger] triangle_materials@[k] as int)
                    < material_slots@.len(),
            forall|k: int|
                0 <= k < material_slots@.len() ==> (#[trigger] material_slots@[k] as int)
                    < b.materials@.len(),
            has_normals ==> normals@.len() == positions@.len(),
            has_tangents ==> tangents@.len() == positions@.len(),
            has_uvs ==> tex_coords@.len() == positions@.len(),
            has_uvs <==> all_tex_coords(src.primitives@.take(p as int)),
            has_uvs ==> tex_coords@ == merged_tex_coords(src.primitives@.take(p as int)),
            opaque == all_opaque(material_slots@, b.materials@),
            emissive == any_emissive(material_slots@, b.materials@),
            forall|k: int|
                0 <= k < material_slots@.len() ==> (b.materials@[#[trigger] material_slots@[k] as int].index is Some
                    || doc.materials@.len() == 0),
        decreases src.primitives@.len() - p,
    {
        let prim = &src.primitives[p];
        if !prim.is_triangles {
            assert(!doc.meshes@[mesh_idx as int].primitives@[p as int].is_triangles);
            return Err(ConvertError::NonTriangleTopology);
        }
        let prim_positions = match &prim.positions {
            Some(v) => v,
            None => {
                assert(doc.meshes@[mesh_idx as int].primitives@[p as int].positions is None);
                return Err(ConvertError::MissingPositions);
            },
        };
        let prim_indices = match &prim.indices {
            Some(v) => v,
            None => {
                assert(doc.meshes@[mesh_idx as int].primitives@[p as int].indices is None);
                return Err(ConvertError::MissingIndices);
            },
        };
        if prim_indices.len() % 3 != 0 {
            assert(incomplete_triangle(doc.meshes@[mesh_idx as int].primitives@[p as int]));
            return Err(ConvertError::IncompleteTriangle);
        }
        let base = positions.len();
        proof {
            let next = src.primitives@.take(p + 1);
            assert(next.drop_last() =~= src.primitives@.take(p as int));
            assert(next.last() == *prim);
            assert(total_positions(next) == base + prim_positions@.len());
            lemma_total_positions_prefix(src.primitives@, p + 1);
        }
        if prim_positions.len() as u64 > 0x1_0000_0000u64 - base as u64 {
            assert(total_positions(doc.meshes@[mesh_idx as int].primitives@) > 0x1_0000_0000);
            return Err(ConvertError::TooLarge);
        }
        let tri_count = prim_indices.len() / 3;
        let used = tri_count * 3;
        let mut k: usize = 0;
        let ghost indices_before = indices@;
        let ghost positions_before = positions@;
        proof {
            assert(tri_count * 3 == prim_indices@.len() / 3 * 3);
        }
        while k < used
            invariant
                mesh_idx < doc.meshes@.len(),
                mesh_reached(doc, mesh_idx as int),
                *src == doc.meshes@[mesh_idx as int],
                p < src.primitives@.len(),
                *prim == src.primitives@[p as int],
                prim.indices == Some(*prim_indices),
                prim.positions == Some(*prim_positions),
                used == tri_count * 3,
                used <= prim_indices@.len(),
                k <= used,
                base == positions@.len(),
                base + prim_positions@.len() <= 0x1_0000_0000,
                indices@.len() == indices_before.len() + k,
                forall|j: int| 0 <= j < k ==> (#[trigger] prim_indices@[j] as int) < prim_positions@.len(),
                used_indices(*prim).len() == used,
                indices@ == indices_before + used_indices(*prim).take(k as int).map_values(
                    |i: u32| (i + base) as u32,
                ),
                forall|j: int|
                    0 <= j < indices@.len() ==> (#[trigger] indices@[j] as int) < base
                        + prim_positions@.len(),
            decreases used - k,
        {
            let i = prim_indices[k];
            if i as usize >= prim_positions.len() {
                assert(bad_index(doc.meshes@[mesh_idx as int].primitives@[p as int], k as int));
                return Err(ConvertError::IndexOutOfRange);
            }
            indices.push(base as u32 + i);
            proof {
                let u = used_indices(*prim);
                assert(u[k as int] == i);
                assert(u.take(k + 1).map_values(|i: u32| (i + base) as u32) =~= u.take(
                    k as int,
                ).map_values(|i: u32| (i + base) as u32).push((i + base) as u32));
            }
            k += 1;
        }
        proof {
            assert(used_indices(*prim).take(used as int) =~= used_indices(*prim));
        }
        extend_from(&mut positions, prim_positions);
        match &prim.normals {
            Some(v) => {
                if has_normals && v.len() == prim_positions.len() {
                    extend_from(&mut normals, v);
                } else {
                    has_normals = false;
                }
            },
            None => {
                has_normals = false;
            },
        }
        match &prim.tangents {
            Some(v) => {
                if has_tangents && v.len() == prim_positions.len() {
                    extend_from(&mut tangents, v);
                } else {
                    has_tangents = false;
                }
            },
            None => {
                has_tangents = false;
            },
        }
        match &prim.tex_coords {
            Some(v) => {
                if has_uvs && v.len() == prim_positions.len() {
                    extend_from(&mut tex_coords, v);
                } else {
                    has_uvs = false;
                }
            },
            None => {
                has_uvs = false;
            },
        }
        let slot = match prim.material {
            Some(m) => m,
            None => 0,
        };
        let ghost mats_before = b.materials@;
        if doc.materials.len() > 0 {
            assert(slot_index(doc.meshes@[mesh_idx as int].primitives@[p as int]) == slot as int);
            assert(slot_reached(doc, slot as int));
            harvest_material(b, doc, slot, opt, normal_filter, narrow_to_half)?;
        }
        proof {
            assert forall|k: int| 0 <= k < material_slots@.len() implies #[trigger] mats_before[material_slots@[k] as int]
                == b.materials@[material_slots@[k] as int] by {
                if doc.materials@.len() > 0 && material_slots@[k] as int != slot as int {
                } 
            }
            lemma_flags_stable(material_slots@, mats_before, b.materials@);
        }
        if slot >= 0xffff_ffff || material_slots.len() >= 0xffff_ffff {
            assert(doc.meshes@[mesh_idx as int].primitives@.len() >= 0xffff_ffff
                || doc.materials@.len() >= 0xffff_ffff);
            return Err(ConvertError::TooLarge);
        }
        let ghost slots_before = material_slots@;
        let local = local_material_index(&mut material_slots, slot as u32);
        proof {
            lemma_flags_add(slots_before, material_slots@, slot as u32, b.materials@);
            assert forall|k: int| 0 <= k < material_slots@.len() implies (b.materials@[#[trigger] material_slots@[k] as int].index is Some
                || doc.materials@.len() == 0) by {
                if k < slots_before.len() {
                    assert(material_slots@[k] == slots_before[k]);
                }
            }
        }
        let mut t: usize = 0;
        let ghost tm_before = triangle_materials@;
        while t < tri_count
            invariant
                t <= tri_count,
                triangle_materials@.len() == tm_before.len() + t,
                local < material_slots@.len(),
                forall|j: int|
                    0 <= j < tm_before.len() ==> triangle_materials@[j] == tm_before[j],
                forall|j: int|
                    tm_before.len() <= j < triangle_materials@.len() ==> triangle_materials@[j]
                        == local,
            decreases tri_count - t,
        {
            triangle_materials.push(local);
            t += 1;
        }
        proof {
            assert(indices@.len() == indices_before.len() + tri_count * 3);
            assert(indices@.len() / 3 == indices_before.len() / 3 + tri_count) by (nonlinear_arith)
                requires
                    indices@.len() == indices_before.len() + tri_count * 3,
                    indices_before.len() % 3 == 0,
            ;
            assert(indices@.len() % 3 == 0) by (nonlinear_arith)
                requires
                    indices@.len() == indices_before.len() + tri_count * 3,
                    indices_before.len() % 3 == 0,
            ;
            assert forall|j: int| 0 <= j < triangle_materials@.len() implies (
            #[trigger] triangle_materials@[j] as int) < material_slots@.len() by {
                if j < tm_before.len() {
                    assert(triangle_materials@[j] == tm_before[j]);
                }
            }
        }
        opaque = opaque && b.materials[slot].is_opaque;
        emissive = emissive || b.materials[slot].is_emissive();
        proof {
            let next = src.primitives@.take(p + 1);
            assert(next.drop_last() =~= src.primitives@.take(p as int));
            assert(next.last() == *prim);
            assert(positions@ == merged_positions(next));
            assert(indices@ == merged_indices(next));
            if has_uvs {
                assert(tex_coords@ == merged_tex_coords(next));
            }
            if all_tex_coords(next) {
                assert(has_tex_coords(next[p as int]));
                assert forall|j: int| 0 <= j < p implies has_tex_coords(#[trigger] src.primitives@.take(p as int)[j]) by {
                    assert(next[j] == src.primitives@.take(p as int)[j]);
                }
            }
            if has_uvs {
                assert forall|j: int| 0 <= j < p + 1 implies has_tex_coords(#[trigger] next[j]) by {
                    if j < p {
                        assert(next[j] == src.primitives@.take(p as int)[j]);
                    }
                }
            }
            let prev = merged_slots(src.primitives@.take(p as int));
            assert(used_indices(*prim).len() / 3 == tri_count);
            assert(slot_of(*prim) == slot as u32);
            assert forall|t: int| 0 <= t < triangle_materials@.len() implies material_slots@[(
            #[trigger] triangle_materials@[t]) as int] == merged_slots(next)[t] by {
                if t < tm_before.len() {
                    assert(triangle_materials@[t] == tm_before[t]);
                    assert(material_slots@[tm_before[t] as int] == slots_before[tm_before[t] as int]);
                } else {
                    assert(triangle_materials@[t] == local);
                }
            }
        }
        p += 1;
    }
    proof {
        assert(src.primitives@.take(src.primitives@.len() as int) =~= src.primitives@);
    }
    let n = positions.len();
    let streams = VertexStreams {
        positions,
        normals: if has_normals {
            normals
        } else {
            Vec::new()
        },
        tangents: if has_tangents && has_uvs {
            tangents
        } else {
            Vec::new()
        },
        tex_coords: if has_uvs {
            tex_coords
        } else {
            Vec::new()
        },
        indices,
    };
    let computed = frames(&streams);
    let VertexStreams { positions, normals: _, tangents: _, tex_coords, indices } = streams;
    let (vertex_frames, uvs) = if has_uvs {
        (computed, tex_coords)
    } else {
        (zero_tangent_frames(computed), zero_tex_coords(n))
    };
    let packed = pack_vertices(&positions, &vertex_frames, &uvs);
    assert(positions_of(packed@) =~= positions@);
    if has_uvs {
        assert(packed@.map_values(|v: PackedVertex| v.tex_coord) =~= uvs@);
    }
    let mesh = Mesh::new(packed, triangle_materials, material_slots, indices, opaque, emissive);
    if opt.merge_duplicate_meshes {
        if let Some(i) = find_duplicate(&b.meshes, &mesh) {
            proof {
                lemma_count_some_fill(b.mesh_map@, mesh_idx as int, i as u32);
            }
            b.mesh_map.set(mesh_idx, Some(i as u32));
            return Ok(i as u32);
        }
    }
    proof {
        lemma_count_some_bound(b.mesh_map@, mesh_idx as int);
    }
    if b.meshes.len() >= 0xffff_ffff {
        return Err(ConvertError::TooLarge);
    }
    let idx = b.meshes.len() as u32;
    proof {
        lemma_count_some_fill(b.mesh_map@, mesh_idx as int, idx);
    }
    b.meshes.push(mesh);
    b.mesh_map.set(mesh_idx, Some(idx));
    Ok(idx)
}

/// The working state at the start: default materials, empty tables.
fn new_builder(doc: &SourceDocument, opt: ParseOptions) -> (b: Builder)
    ensures
        b.inv(doc, opt),
        b.nodes@.len() == 0,
        b.meshes@.len() == 0,
        b.textures@.len() == 0,
        forall|i: int| 0 <= i < b.materials@.len() ==> (#[trigger] b.materials@[i]).is_default(),
{
    let mut materials: Vec<Material> = Vec::new();
    materials.push(Material::default());
    let mut i: usize = 1;
    while i < doc.materials.len()
        invariant
            1 <= i,
            i <= doc.materials@.len() || doc.materials@.len() == 0,
            doc.materials@.len() == 0 ==> i == 1,
            materials@.len() == i,
            forall|j: int| 0 <= j < materials@.len() ==> (#[trigger] materials@[j]).is_default(),
        decreases doc.materials@.len() - i,
    {
        materials.push(Material::default());
        i += 1;
    }
    let mut image_to_texture: Vec<Option<u32>> = Vec::new();
    let mut k: usize = 0;
    while k < doc.images.len()
        invariant
            k <= doc.images@.len(),
            image_to_texture@.len() == k,
            forall|j: int| 0 <= j < k ==> (#[trigger] image_to_texture@[j]) is None,
        decreases doc.images@.len() - k,
    {
        image_to_texture.push(None);
        k += 1;
    }
    let mut mesh_map: Vec<Option<u32>> = Vec::new();
    let mut m: usize = 0;
    while m < doc.meshes.len()
        invariant
            m <= doc.meshes@.len(),
            mesh_map@.len() == m,
            forall|j: int| 0 <= j < m ==> (#[trigger] mesh_map@[j]) is None,
        decreases doc.meshes@.len() - m,
    {
        mesh_map.push(None);
        m += 1;
    }
    let b = Builder {
        nodes: Vec::new(),
        meshes: Vec::new(),
        materials,
        textures: Vec::new(),
        image_to_texture,
        mesh_map,
    };
    assert(b.materials@.len() == material_count(doc));
    assert(forall|i: int| 0 <= i < b.materials@.len() ==> (#[trigger] b.materials@[i]).refs_ok(0));
    b
}

impl Model {
    /// Converts a parsed document into a model: the default scene's
    /// hierarchy is walked depth first from each root, in order, and every
    /// node is appended before its children; each source mesh, material and
    /// image is converted once, on first use. `normal_filter` downsamples
    /// normal maps, `narrow_to_half` narrows floating-point texels for block
    /// compression, and `frames` computes the tangent frames of each mesh's
    /// vertices.
    #[verifier::rlimit(100)]
    pub fn from_document<F, H, G>(
        doc: &SourceDocument,
        opt: ParseOptions,
        normal_filter: &F,
        narrow_to_half: &H,
        frames: &G,
    ) -> (r: Result<Model, ConvertError>) where
        F: Fn(&Vec<u8>, u32, u32, u32, u32) -> Vec<u8>,
        H: Fn(&Vec<u8>) -> Vec<u8>,
        G: Fn(&VertexStreams) -> Vec<VertexFrame>,

        requires
            doc.wf(),
            normal_filter_ok(normal_filter),
            narrow_ok(narrow_to_half),
            frames_ok(frames),
        ensures
            opt.texture_compression == Some(TextureCompression::Astc) ==> r
                == Err::<Model, ConvertError>(ConvertError::UnsupportedCompression),
            opt.texture_compression != Some(TextureCompression::Astc) ==> (r matches Err(e)
                ==> justified(doc, opt, e)),
            r is Ok ==> {
                let m = r.unwrap();
                &&& m.wf()
                &&& m.root_node_indices@.len() == doc.scene_roots@.len()
                &&& m.nodes@.len() <= doc.nodes@.len()
                &&& preorder_links(m.nodes@)
                &&& roots_ordered(m.root_node_indices@)
                &&& exists|end: Seq<int>| #[trigger] preorder(m.nodes@, m.root_node_indices@, end)
                &&& exists|src_of: Seq<int>|
                    #[trigger] flattened_from(doc, m.nodes@, m.root_node_indices@, m.meshes@, src_of)
                        && children_follow(doc, m.nodes@, src_of) && meshes_shared(doc, m.nodes@, src_of)
                &&& m.materials@.len() == material_count(doc)
                &&& doc.materials@.len() == 0 ==> m.materials@[0].is_default()
                &&& forall|i: int|
                    0 <= i < m.materials@.len() ==> material_from(doc, i, #[trigger] m.materials@[i])
                &&& doc.materials@.len() > 0 ==> forall|i: int, j: int|
                    0 <= i < m.meshes@.len() && 0 <= j < m.meshes@[i].material_indices@.len()
                        ==> #[trigger] harvested(
                        doc.materials@[m.meshes@[i].material_indices@[j] as int],
                        m.meshes@[i].material_indices@[j] as usize,
                        m.materials@[m.meshes@[i].material_indices@[j] as int],
                    )
                &&& textures_shared(doc, m.materials@)
                &&& channels_textured(doc, m.materials@, m.textures@, opt)
                &&& opt.merge_duplicate_meshes ==> forall|i: int, j: int|
                    0 <= i < j < m.meshes@.len() ==> !same_content(
                        &#[trigger] m.meshes@[i],
                        &#[trigger] m.meshes@[j],
                    )
                &&& forall|k: int|
                    0 <= k < 3 ==> m.bounds_min[k] == crate::model::fold_mesh_min(m.meshes@, k)
                        && m.bounds_max[k] == crate::model::fold_mesh_max(m.meshes@, k)
            },
    {
        if let Some(TextureCompression::Astc) = opt.texture_compression {
            return Err(ConvertError::UnsupportedCompression);
        }
        let merge = opt.merge_duplicate_meshes;
        let mut b = new_builder(doc, opt);
        let n = doc.nodes.len();
        let mut visited: Vec<bool> = Vec::new();
        let mut v: usize = 0;
        while v < n
            invariant
                v <= n,
                n == doc.nodes@.len(),
                visited@.len() == v,
                forall|j: int| 0 <= j < v ==> !(#[trigger] visited@[j]),
            decreases n - v,
        {
            visited.push(false);
            v += 1;
        }
        let ghost mut seen: Set<int> = Set::empty();
        let ghost mut src_of: Seq<int> = Seq::empty();
        let ghost mut consumed: Seq<(int, int)> = Seq::empty();
        let ghost mut end: Seq<int> = Seq::empty();
        let ghost mut par: Seq<int> = Seq::empty();
        proof {
            reveal(parents_ok);
        }
        proof {
            lemma_int_range(0, n as int);
        }
        let mut roots: Vec<u32> = Vec::new();
        let mut r: usize = 0;
        while r < doc.scene_roots.len()
            invariant
                doc.wf(),
                n == doc.nodes@.len(),
                merge == opt.merge_duplicate_meshes,
                opt.texture_compression != Some(TextureCompression::Astc),
                normal_filter_ok(normal_filter),
                narrow_ok(narrow_to_half),
                frames_ok(frames),
                b.inv(doc, opt),
                r <= doc.scene_roots@.len(),
                roots@.len() == r,
                forall|j: int| 0 <= j < roots@.len() ==> (#[trigger] roots@[j] as int) < b.nodes@.len(),
                flattened_from(doc, b.nodes@, roots@, b.meshes@, src_of),
                children_follow(doc, b.nodes@, src_of),
                preorder_links(b.nodes@),
                roots_ordered(roots@),
                r == 0 ==> b.nodes@.len() == 0,
                end.len() == b.nodes@.len(),
                forall|k: int|
                    0 <= k < b.nodes@.len() ==> #[trigger] subtree_closed(b.nodes@, end, k, b.nodes@.len() as int),
                parents_ok(b.nodes@, par, Seq::<int>::empty()),
                r > 0 ==> roots@[0] == 0 && end[roots@[r - 1] as int] == b.nodes@.len(),
                forall|q: int| 0 <= q < r - 1 ==> #[trigger] roots@[q + 1] as int == end[roots@[q] as int],
                mesh_links(doc, b.nodes@, src_of, b.mesh_map@),
                consumed.len() == src_of.len(),
                forall|x: int|
                    0 <= x < consumed.len() ==> slot_valid(doc, #[trigger] consumed[x]) && slot_node(
                        doc,
                        consumed[x],
                    ) == src_of[x],
                forall|x: int|
                    0 <= x < consumed.len() && (#[trigger] consumed[x]).0 >= 0 ==> exists|p: int|
                        0 <= p < x && #[trigger] src_of[p] == consumed[x].0,
                forall|x: int| 0 <= x < consumed.len() && (#[trigger] consumed[x]).0 < 0 ==> consumed[x].1 < r,
                forall|x: int| seen.contains(x) ==> exists|k: int| 0 <= k < src_of.len() && #[trigger] src_of[k] == x,
                forall|k: int| 0 <= k < src_of.len() ==> seen.contains(#[trigger] src_of[k]),
                forall|x: int| 0 <= x < src_of.len() ==> reachable(doc, #[trigger] src_of[x]),
                visited@.len() == n,
                seen.finite(),
                seen.len() == b.nodes@.len(),
                seen.subset_of(set_int_range(0, n as int)),
                set_int_range(0, n as int).finite(),
                set_int_range(0, n as int).len() == n,
                forall|j: int| 0 <= j < n ==> (#[trigger] visited@[j] <==> seen.contains(j)),
                doc.materials@.len() == 0 ==> b.materials@[0].is_default(),
            decreases doc.scene_roots@.len() - r,
        {
            proof {
                lemma_len_subset(seen, set_int_range(0, n as int));
            }
            if b.nodes.len() >= 0xffff_ffff {
                return Err(ConvertError::TooLarge);
            }
            roots.push(b.nodes.len() as u32);
            proof {
                assert(roots@.take(r as int) =~= roots@.drop_last());
            }
            let mut stack: Vec<(usize, Option<usize>)> = Vec::new();
            stack.push((doc.scene_roots[r], None));
            let ghost roots_len = b.nodes@.len();
            let ghost mut js: Seq<int> = seq![0];
            let ghost mut path: Seq<int> = Seq::empty();
            let ghost mut dq: Seq<int> = seq![0];
            proof {
                lemma_reach_root(doc, r as int);
                reveal(walk_ok);
                reveal(parents_ok);
                reveal(depths_ok);
            }
            proof {
                assert forall|p: int, j: int|
                    0 <= p < b.nodes@.len() && p != -1 && b.nodes@[p].child_node_indices@.len() <= j
                        < doc.nodes@[src_of[p]].children@.len() implies #[trigger] has_pending(
                    stack@,
                    js,
                    p,
                    j,
                ) by {
                    assert(children_prefix(doc, b.nodes@, src_of, p));
                }
            }
            while stack.len() > 0
                invariant
                    doc.wf(),
                    n == doc.nodes@.len(),
                    merge == opt.merge_duplicate_meshes,
                    opt.texture_compression != Some(TextureCompression::Astc),
                    normal_filter_ok(normal_filter),
                    narrow_ok(narrow_to_half),
                    frames_ok(frames),
                    b.inv(doc, opt),
                    roots@.len() == r + 1,
                    b.nodes@.len() >= roots_len,
                    forall|j: int| 0 <= j < roots@.len() ==> (#[trigger] roots@[j] as int) <= roots_len,
                    roots@[r as int] == roots_len,
                    forall|q: int| 0 <= q < r ==> (#[trigger] roots@[q] as int) < roots_len,
                    r < doc.scene_roots@.len(),
                    roots_len == b.nodes@.len() ==> stack@ == seq![(doc.scene_roots@[r as int], None::<usize>)],
                    flattened_from(doc, b.nodes@, roots@.take(r as int), b.meshes@, src_of),
                    roots_len < b.nodes@.len() ==> src_of[roots_len as int] == doc.scene_roots@[r as int] as int,
                    forall|k: int| 0 <= k < src_of.len() ==> seen.contains(#[trigger] src_of[k]),
                    pending_ok(doc, b.nodes@, src_of, stack@, js, -1),
                    preorder_links(b.nodes@),
                    roots_ordered(roots@),
                    first_pending_ok(b.nodes@, stack@, js),
                    walk_ok(b.nodes@, end, path, roots_len as int),
                    parents_ok(b.nodes@, par, path),
                    depths_ok(stack@, dq, path),
                    forall|q: int| 0 <= q < stack@.len() ==> reachable(doc, (#[trigger] stack@[q]).0 as int),
                    forall|x: int| 0 <= x < src_of.len() ==> reachable(doc, #[trigger] src_of[x]),
                    r > 0 ==> roots@[0] == 0 && end[roots@[r - 1] as int] == roots_len,
                    r == 0 ==> roots_len == 0,
                    forall|q: int| 0 <= q < r - 1 ==> #[trigger] roots@[q + 1] as int == end[roots@[q] as int],
                    mesh_links(doc, b.nodes@, src_of, b.mesh_map@),
                    slots_ok(doc, b.nodes@, src_of, consumed, stack@, js, r as int),
                    forall|x: int| seen.contains(x) ==> exists|k: int| 0 <= k < src_of.len() && #[trigger] src_of[k] == x,
                    forall|x: int| 0 <= x < b.nodes@.len() ==> #[trigger] children_prefix(doc, b.nodes@, src_of, x),
                    visited@.len() == n,
                    seen.finite(),
                    seen.len() == b.nodes@.len(),
                    seen.subset_of(set_int_range(0, n as int)),
                    set_int_range(0, n as int).finite(),
                    set_int_range(0, n as int).len() == n,
                    forall|j: int| 0 <= j < n ==> (#[trigger] visited@[j] <==> seen.contains(j)),
                    forall|j: int|
                        0 <= j < stack@.len() ==> (#[trigger] stack@[j]).0 < n && (stack@[j].1 matches Some(p) ==> p < b.nodes@.len()),
                    doc.materials@.len() == 0 ==> b.materials@[0].is_default(),
                decreases n - b.nodes@.len(),
            {
                proof {
                    lemma_len_subset(seen, set_int_range(0, n as int));
                }
                let ghost stack_before = stack@;
                let ghost js_before = js;
                let ghost dq_before = dq;
                let ghost path_at_pop = path;
                let ghost end_at_pop = end;
                let ghost par_at_pop = par;
                let (src, parent) = stack.pop().unwrap();
                let ghost keep: int = match parent {
                    Some(_) => dq_before.last() + 1,
                    None => 0,
                };
                proof {
                    dq = dq.drop_last();
                    assert(stack_before[stack_before.len() - 1] == (src, parent));
                    assert(reachable(doc, src as int));
                    assert forall|q: int| 0 <= q < stack@.len() implies reachable(doc, (#[trigger] stack@[q]).0 as int) by {
                        assert(stack@[q] == stack_before[q]);
                    }
                }
                proof {
                    js = js.drop_last();
                    let top = stack_before.len() - 1;
                    assert(stack_before[top] == (src, parent));
                    if let Some(p) = parent {
                        let len = b.nodes@[p as int].child_node_indices@.len() as int;
                        assert(len <= js_before[top]);
                        assert(has_pending(stack_before, js_before, p as int, len));
                        let q = choose|q: int|
                            0 <= q < stack_before.len() && stack_before[q].1 == Some(p)
                                && #[trigger] js_before[q] == len;
                        if q < top {
                            assert(js_before[q] > js_before[top]);
                        }
                        assert(js_before[top] == len);
                        assert(src == doc.nodes@[src_of[p as int]].children@[len]);
                    }
                }
                let ghost nodes_at_pop = b.nodes@;
                let ghost src_of_at_pop = src_of;
                if visited[src] {
                    proof {
                        assert(seen.contains(src as int));
                        let k = choose|k: int| 0 <= k < src_of.len() && #[trigger] src_of[k] == src as int;
                        lemma_revisit(doc, nodes_at_pop, src_of, consumed, stack_before, js_before, r as int, k);
                    }
                    return Err(ConvertError::CyclicHierarchy);
                }
                visited.set(src, true);
                let ghost seen_before = seen;
                proof {
                    assert(!seen.contains(src as int));
                    seen = seen.insert(src as int);
                    assert(seen.len() == b.nodes@.len() + 1);
                    lemma_len_subset(seen, set_int_range(0, n as int));
                }
                let node_src = &doc.nodes[src];
                let ghost meshes_before = b.meshes@;
                let mesh_idx = match node_src.mesh {
                    Some(m) => {
                        let idx = match b.mesh_map[m] {
                            Some(i) => i,
                            None => assemble_mesh(
                                &mut b,
                                doc,
                                m,
                                Ghost(src as int),
                                &opt,
                                normal_filter,
                                narrow_to_half,
                                frames,
                            )?,
                        };
                        Some(idx)
                    },
                    None => None,
                };
                proof {
                    assert forall|q: int| 0 <= q < b.nodes@.len() implies ((#[trigger] b.nodes@[q]).mesh_idx matches Some(i) ==> i
                        < b.meshes@.len() && mesh_matches(
                        doc.meshes@[doc.nodes@[src_of[q]].mesh.unwrap() as int],
                        b.meshes@[i as int],
                    )) by {
                        if let Some(i) = b.nodes@[q].mesh_idx {
                            assert(b.meshes@[i as int] == meshes_before[i as int]);
                        }
                    }
                }
                if b.nodes.len() >= 0xffff_ffff {
                    return Err(ConvertError::TooLarge);
                }
                let k = b.nodes.len();
                let name = match &node_src.name {
                    Some(s) => s.clone(),
                    None => "Unnamed".to_string(),
                };
                b.nodes.push(
                    ModelNode {
                        name,
                        transform: node_src.transform,
                        mesh_idx,
                        child_node_indices: Vec::new(),
                    },
                );
                proof {
                    let old_src = src_of;
                    src_of = src_of.push(src as int);
                    lemma_slots_pop(
                        doc,
                        nodes_at_pop,
                        old_src,
                        consumed,
                        stack_before,
                        js_before,
                        r as int,
                        b.nodes@,
                        src_of,
                    );
                    consumed = consumed.push(entry_slot(stack_before, js_before, old_src, r as int, stack_before.len() - 1));
                    assert(stack_before.drop_last() == stack@);
                    assert forall|x: int| seen.contains(x) implies exists|k: int| 0 <= k < src_of.len() && #[trigger] src_of[k] == x by {
                        if x == src as int {
                            assert(src_of[old_src.len() as int] == x);
                        } else {
                            assert(seen_before.contains(x));
                            let w = choose|w: int| 0 <= w < old_src.len() && #[trigger] old_src[w] == x;
                            assert(src_of[w] == x);
                        }
                    }
                    assert forall|x: int| 0 <= x < src_of.len() implies 0 <= #[trigger] src_of[x] by {
                        if x < old_src.len() {
                            assert(src_of[x] == old_src[x]);
                        }
                    }
                }
                if let Some(pi) = parent {
                    b.nodes[pi].child_node_indices.push(k as u32);
                }
                proof {
                    assert forall|k: int| 0 <= k < b.nodes@.len() implies node_from(
                        doc,
                        #[trigger] b.nodes@[k],
                        src_of[k],
                    ) by {}
                    assert forall|k1: int, k2: int|
                        0 <= k1 < k2 < b.nodes@.len() implies #[trigger] src_of[k1]
                        != #[trigger] src_of[k2] by {
                        if k2 == k as int {
                            assert(seen_before.contains(src_of[k1]));
                        }
                    }
                    assert forall|j: int| 0 <= j < src_of.len() implies seen.contains(
                        #[trigger] src_of[j],
                    ) by {
                        if j < k as int {
                            assert(seen_before.contains(src_of[j]));
                        }
                    }
                    let rs = roots@.take(r as int);
                    assert forall|q: int| 0 <= q < rs.len() implies src_of[#[trigger] rs[q] as int]
                        == doc.scene_roots@[q] as int by {
                        assert(rs[q] == roots@[q]);
                        assert((roots@[q] as int) < k);
                    }
                    assert(flattened_from(doc, b.nodes@, roots@.take(r as int), b.meshes@, src_of));
                }
                proof {
                    lemma_pop_step(
                        doc,
                        nodes_at_pop,
                        src_of_at_pop,
                        stack_before,
                        js_before,
                        b.nodes@,
                        src_of,
                    );
                    lemma_order_pop(nodes_at_pop, stack_before, js_before, b.nodes@);
                    lemma_depths_pop(stack_before, dq_before, path_at_pop, keep, nodes_at_pop.len() as int);
                    lemma_walk_pop(
                        nodes_at_pop,
                        end_at_pop,
                        path_at_pop,
                        par_at_pop,
                        roots_len as int,
                        keep,
                        b.nodes@,
                    );
                    let len = nodes_at_pop.len() as int;
                    end = finish(end_at_pop, path_at_pop, keep, len).push(0);
                    par = par_at_pop.push(if keep == 0 { -1 } else { path_at_pop[keep - 1] });
                    path = path_at_pop.take(keep).push(len);
                    assert(stack@ == stack_before.drop_last());
                }
                let ghost base = stack@.len();
                let ghost kids = node_src.children@;
                let mut c = node_src.children.len();
                while c > 0
                    invariant
                        doc.wf(),
                        src < n,
                        n == doc.nodes@.len(),
                        *node_src == doc.nodes@[src as int],
                        kids == node_src.children@,
                        c <= node_src.children@.len(),
                        k < b.nodes@.len(),
                        src_of[k as int] == src as int,
                        src_of.len() == b.nodes@.len(),
                        k < 0xffff_ffff,
                        k as int == b.nodes@.len() - 1,
                        forall|x: int| 0 <= x < src_of.len() ==> 0 <= #[trigger] src_of[x],
                        forall|k1: int, k2: int|
                            0 <= k1 < k2 < src_of.len() ==> #[trigger] src_of[k1] != #[trigger] src_of[k2],
                        slots_ok(doc, b.nodes@, src_of, consumed, stack@, js, r as int),
                        b.nodes@[k as int].child_node_indices@.len() == 0,
                        stack@.len() == base + (kids.len() - c),
                        js.len() == stack@.len(),
                        forall|q: int| 0 <= q < base ==> (#[trigger] stack@[q]).1 != Some(k),
                        forall|q: int|
                            base <= q < stack@.len() ==> #[trigger] stack@[q] == (
                                kids[kids.len() - 1 - (q - base)],
                                Some(k),
                            ) && js[q] == kids.len() - 1 - (q - base),
                        pending_ok(doc, b.nodes@, src_of, stack@, js, k as int),
                        preorder_links(b.nodes@),
                        first_pending_ok(b.nodes@, stack@, js),
                        walk_ok(b.nodes@, end, path, roots_len as int),
                        parents_ok(b.nodes@, par, path),
                        depths_ok(stack@, dq, path),
                        path.len() > 0 && path[path.len() - 1] == k as int,
                        reachable(doc, src as int),
                        forall|q: int| 0 <= q < stack@.len() ==> reachable(doc, (#[trigger] stack@[q]).0 as int),
                        forall|x: int| 0 <= x < src_of.len() ==> reachable(doc, #[trigger] src_of[x]),
                        mesh_links(doc, b.nodes@, src_of, b.mesh_map@),
                        forall|j: int|
                            0 <= j < stack@.len() ==> (#[trigger] stack@[j]).0 < n && (stack@[j].1 matches Some(p) ==> p < b.nodes@.len()),
                    decreases c,
                {
                    c -= 1;
                    proof {
                        lemma_push_step(doc, b.nodes@, src_of, stack@, js, k as int, c as int, base as int);
                        lemma_slots_push(doc, b.nodes@, src_of, consumed, stack@, js, r as int, k as int, c as int);
                        assert forall|q: int| base <= q < stack@.len() implies js[q] > c by {
                            assert(stack@[q] == (kids[kids.len() - 1 - (q - base)], Some(k)));
                        }
                        lemma_order_push(b.nodes@, stack@, js, k as int, c as int, base as int, node_src.children@[c as int]);
                    }
                    let ghost st_old = stack@;
                    proof {
                        lemma_reach_child(doc, src as int, c as int);
                    }
                    stack.push((node_src.children[c], Some(k)));
                    proof {
                        js = js.push(c as int);
                        lemma_depths_push(st_old, dq, path, node_src.children@[c as int], k);
                        dq = dq.push(path.len() - 1);
                    }
                }
                proof {
                    assert forall|p: int, j: int|
                        0 <= p < b.nodes@.len() && p != -1 && b.nodes@[p].child_node_indices@.len() <= j
                            < doc.nodes@[src_of[p]].children@.len() implies #[trigger] has_pending(
                        stack@,
                        js,
                        p,
                        j,
                    ) by {
                        if p == k as int {
                            let q = base + kids.len() - 1 - j;
                            assert(stack@[q] == (kids[kids.len() - 1 - (q - base)], Some(k)));
                            assert(js[q] == j);
                        } else {
                            assert(has_pending(stack@, js, p, j));
                        }
                    }
                }
            }
            proof {
                assert(roots@.take(r + 1) =~= roots@);
                lemma_stack_done(doc, b.nodes@, src_of, stack@, js);
                reveal(parents_ok);
                lemma_path_range(b.nodes@, end, path, roots_len as int);
                lemma_finish(b.nodes@, end, path, par, roots_len as int, 0);
                let len = b.nodes@.len() as int;
                let e2 = finish(end, path, 0, len);
                assert(path.len() > 0) by {
                    reveal(walk_ok);
                }
                assert(e2[path[0]] == len);
                assert forall|x: int| 0 <= x < roots_len implies #[trigger] e2[x] == end[x] by {
                    if path.contains(x) {
                        let i = choose|i: int| 0 <= i < path.len() && path[i] == x;
                    }
                }
                assert forall|k: int| 0 <= k < len implies #[trigger] subtree_closed(b.nodes@, e2, k, len) by {
                    assert(!path.take(0).contains(k));
                }
                end = e2;
                assert forall|q: int| 0 <= q < roots@.len() - 1 implies #[trigger] roots@[q + 1] as int == end[roots@[q] as int] by {
                    if q < r - 1 {
                        assert((roots@[q] as int) < roots_len);
                    } else {
                        assert((roots@[q] as int) < roots_len);
                    }
                }
            }
            r += 1;
        }
        proof {
            lemma_len_subset(seen, set_int_range(0, n as int));
        }
        assert(flattened_from(doc, b.nodes@, roots@, b.meshes@, src_of));
        let (bounds_min, bounds_max) = model_bounds(&b.meshes);
        let model = Model {
            root_node_indices: roots,
            nodes: b.nodes,
            bounds_min,
            bounds_max,
            meshes: b.meshes,
            materials: b.materials,
            textures: b.textures,
        };
        assert(flattened_from(doc, model.nodes@, model.root_node_indices@, model.meshes@, src_of));
        assert(children_follow(doc, model.nodes@, src_of));
        assert(preorder(model.nodes@, model.root_node_indices@, end));
        assert(meshes_shared(doc, model.nodes@, src_of)) by {
            assert forall|k1: int, k2: int|
                0 <= k1 < model.nodes@.len() && 0 <= k2 < model.nodes@.len() && doc.nodes@[src_of[k1]].mesh is Some
                    && #[trigger] doc.nodes@[src_of[k1]].mesh == #[trigger] doc.nodes@[src_of[k2]].mesh
                    implies model.nodes@[k1].mesh_idx == model.nodes@[k2].mesh_idx by {
                assert(node_from(doc, model.nodes@[k1], src_of[k1]));
                assert(node_from(doc, model.nodes@[k2], src_of[k2]));
            }
        }
        proof {
            assert forall|i: int, j: int|
                0 <= i < model.meshes@.len() && 0 <= j < model.meshes@[i].material_indices@.len()
                    && doc.materials@.len() > 0 implies #[trigger] harvested(
                doc.materials@[model.meshes@[i].material_indices@[j] as int],
                model.meshes@[i].material_indices@[j] as usize,
                model.materials@[model.meshes@[i].material_indices@[j] as int],
            ) by {
                let s = model.meshes@[i].material_indices@[j] as int;
                assert(model.meshes@[i].material_indices@[j] == b.meshes@[i].material_indices@[j]);
                assert(material_from(doc, s, model.materials@[s]));
            }
            lemma_shared_from_memo(doc, model.materials@, b.image_to_texture@);
            lemma_channel_images_in_range(doc, model.materials@);
            assert forall|i: int, c: int|
                0 <= i < model.materials@.len() && 0 <= c < 10 && model.materials@[i].index is Some implies (
            #[trigger] channel_tex(model.materials@[i], c) matches Some(t) ==> t
                < model.textures@.len() && texture_from(
                doc,
                channel_image(doc, i, c),
                model.textures@[t as int],
                opt,
            )) by {
                assert(channels_memoized(doc, model.materials@, b.image_to_texture@, i));
                if let Some(t) = channel_tex(model.materials@[i], c) {
                    let img = channel_image(doc, i, c);
                    assert(b.image_to_texture@[img] == Some(t));
                }
            }
        }
        Ok(model)
    }
}

} // verus!
