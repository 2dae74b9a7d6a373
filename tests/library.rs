use ugm::convert::{zero_tangent_frames, ConvertError, VertexStreams};
use ugm::material::Material;
use ugm::mesh::{find_duplicate, has_same_content, pack_vertices, Mesh, PackedVertex, VertexFrame};
use ugm::packing::{PackedNormalizedXyz10, PackedRgb9e5};
use ugm::parser::{MaxTextureResolution, ParseOptions};
use ugm::pixels::{canonicalize, PixelLayout, SourceImage};
use ugm::source::{
    SourceDocument, SourceImageData, SourceMaterial, SourceMesh, SourceNode, SourcePrimitive,
    SourceTexture, TextureRef,
};
use ugm::texture::{
    mip_dimensions, CompressedTextureFormat, Texture, TextureCompression, TextureCreateDesc,
    TextureError, TextureFormat, UncompressedTextureFormat,
};
use ugm::Model;

const ONE: u32 = 0x3F80_0000;

fn bits3(v: [f32; 3]) -> [u32; 3] {
    [v[0].to_bits(), v[1].to_bits(), v[2].to_bits()]
}

fn no_filter(_p: &Vec<u8>, _w: u32, _h: u32, nw: u32, nh: u32) -> Vec<u8> {
    vec![128u8; (nw * nh * 4) as usize]
}

fn no_narrow(p: &Vec<u8>) -> Vec<u8> {
    vec![0u8; p.len() / 2]
}

fn simple_frames(s: &VertexStreams) -> Vec<VertexFrame> {
    let up = PackedNormalizedXyz10::default();
    s.positions
        .iter()
        .map(|_| VertexFrame { normal: up, tangent: up, tangent_handiness: ONE })
        .collect()
}

fn image(width: u32, height: u32, layout: PixelLayout, bpp: usize) -> SourceImage {
    let n = width as usize * height as usize * bpp;
    SourceImage { width, height, layout, pixels: (0..n).map(|i| (i * 7 % 251) as u8).collect() }
}

fn desc(img: SourceImage, normal: bool) -> TextureCreateDesc {
    TextureCreateDesc {
        name: None,
        image: img,
        mips: true,
        is_normal_map: normal,
        max_resolution: None,
        uv_offset: [0, 0],
        uv_scale: [ONE, ONE],
    }
}

fn plain_material() -> SourceMaterial {
    SourceMaterial {
        color: [ONE, ONE, ONE],
        color_texture: None,
        metallic: 0,
        roughness: 0x3F00_0000,
        metallic_roughness_texture: None,
        normal_scale: ONE,
        normal_texture: None,
        emission: [0, 0, 0],
        emission_texture: None,
        absorption: [0, 0, 0],
        transmission: 0,
        transmission_texture: None,
        eta: 0x3F2A_AAAB,
        specular: 0,
        specular_tint: [ONE, ONE, ONE],
        sheen: 0,
        sheen_texture: None,
        sheen_tint: [ONE, ONE, ONE],
        sheen_tint_texture: None,
        clearcoat: 0,
        clearcoat_texture: None,
        clearcoat_roughness: 0,
        clearcoat_roughness_texture: None,
        clearcoat_normal_texture: None,
        alpha_mode_opaque: true,
        alpha_cutoff: None,
    }
}

fn triangle(offset: f32, material: Option<usize>, uvs: bool) -> SourcePrimitive {
    SourcePrimitive {
        is_triangles: true,
        positions: Some(vec![
            bits3([offset, 0.0, 0.0]),
            bits3([offset + 1.0, 0.0, 0.0]),
            bits3([offset, 1.0, 0.0]),
        ]),
        indices: Some(vec![0, 1, 2]),
        normals: None,
        tangents: None,
        tex_coords: if uvs { Some(vec![[0, 0], [ONE, 0], [0, ONE]]) } else { None },
        material,
    }
}

fn node(mesh: Option<usize>, children: Vec<usize>) -> SourceNode {
    let mut transform = [0u32; 16];
    for i in 0..4 {
        transform[i * 5] = ONE;
    }
    SourceNode { name: None, transform, mesh, children }
}

fn document(nodes: Vec<SourceNode>, meshes: Vec<SourceMesh>) -> SourceDocument {
    SourceDocument {
        nodes,
        scene_roots: vec![0],
        meshes,
        materials: vec![],
        textures: vec![],
        images: vec![],
    }
}

fn convert(doc: &SourceDocument, opt: ParseOptions) -> Result<Model, ConvertError> {
    Model::from_document(doc, opt, &no_filter, &no_narrow, &simple_frames)
}

#[test]
fn format_sizes() {
    let rgba8 = UncompressedTextureFormat::Rgba8Unorm;
    assert_eq!(rgba8.num_channels(), 4);
    assert_eq!(rgba8.bytes_per_channel(), 1);
    assert_eq!(rgba8.bytes_per_row(10), 40);
    assert_eq!(UncompressedTextureFormat::Rgba32Float.bytes_per_row(10), 160);
    assert_eq!(UncompressedTextureFormat::Rg8Unorm.bytes_per_row(3), 6);
    assert_eq!(CompressedTextureFormat::Bc4RUnorm.block_size(), 8);
    assert_eq!(CompressedTextureFormat::Bc4RUnorm.bytes_per_row(10), 24);
    assert_eq!(CompressedTextureFormat::Bc7RgbaUnorm.bytes_per_row(8), 32);
    assert_eq!(TextureFormat::Uncompressed(UncompressedTextureFormat::R8Unorm).bytes_per_row(5), 5);
    assert_eq!(TextureFormat::Compressed(CompressedTextureFormat::Bc6hRgbUfloat).bytes_per_row(5), 32);
}

#[test]
fn compressed_counterparts() {
    let bc = TextureCompression::Bc;
    assert_eq!(
        UncompressedTextureFormat::R8Unorm.try_as_compressed(&bc),
        Ok(&CompressedTextureFormat::Bc4RUnorm)
    );
    assert_eq!(
        UncompressedTextureFormat::Rg8Unorm.try_as_compressed(&bc),
        Ok(&CompressedTextureFormat::Bc5RgUnorm)
    );
    assert_eq!(
        UncompressedTextureFormat::Rgba8Unorm.try_as_compressed(&bc),
        Ok(&CompressedTextureFormat::Bc7RgbaUnorm)
    );
    assert_eq!(
        UncompressedTextureFormat::Rgba32Float.try_as_compressed(&bc),
        Ok(&CompressedTextureFormat::Bc6hRgbUfloat)
    );
}

#[test]
fn astc_is_unsupported() {
    let astc = TextureCompression::Astc;
    assert_eq!(
        UncompressedTextureFormat::Rgba8Unorm.try_as_compressed(&astc),
        Err(TextureError::UnsupportedCompression)
    );
    let t = Texture::new(desc(image(8, 8, PixelLayout::R8, 1), false), &no_filter).unwrap();
    assert_eq!(t.compress(&astc, &no_narrow).err(), Some(TextureError::UnsupportedCompression));
}

#[test]
fn resolution_caps() {
    assert_eq!(MaxTextureResolution::Res1024.resolution(), 1024);
    assert_eq!(MaxTextureResolution::Res2048.resolution(), 2048);
    assert_eq!(MaxTextureResolution::Res4096.resolution(), 4096);
}

#[test]
fn mip_chain_halves_to_one() {
    assert_eq!(mip_dimensions(8, 2), vec![(8, 2), (4, 1), (2, 1), (1, 1)]);
    assert_eq!(mip_dimensions(1, 1), vec![(1, 1)]);
    assert_eq!(mip_dimensions(5, 3), vec![(5, 3), (2, 1), (1, 1)]);
}

#[test]
fn mip_chain_length_is_log2_plus_one() {
    for (w, h) in [(1024u32, 512u32), (1, 1), (3, 300), (4096, 4096), (1000, 7)] {
        let chain = mip_dimensions(w, h);
        let expected = (w.max(h) as f64).log2().floor() as usize + 1;
        assert_eq!(chain.len(), expected);
        assert_eq!(*chain.last().unwrap(), (1, 1));
        for pair in chain.windows(2) {
            assert_eq!(pair[1].0, (pair[0].0 / 2).max(1));
            assert_eq!(pair[1].1, (pair[0].1 / 2).max(1));
        }
    }
}

fn rgb9e5_decode(word: u32) -> [f32; 3] {
    let e = (word >> 27) as i32;
    let unit = 2f32.powi(e - 24);
    [
        (word & 0x1FF) as f32 * unit,
        ((word >> 9) & 0x1FF) as f32 * unit,
        ((word >> 18) & 0x1FF) as f32 * unit,
    ]
}

#[test]
fn rgb9e5_exact_words() {
    assert_eq!(PackedRgb9e5::new(bits3([1.0, 1.0, 1.0])).bits(), (16 << 27) | (256 << 18) | (256 << 9) | 256);
    assert_eq!(PackedRgb9e5::new(bits3([0.0, 0.0, 0.0])).bits(), 0);
    assert_eq!(PackedRgb9e5::new(bits3([100.0, 0.1, 5.0])).bits(), (22 << 27) | (20 << 18) | 400);
    assert_eq!(PackedRgb9e5::default().bits(), PackedRgb9e5::new(bits3([1.0, 0.0, 1.0])).bits());
}

#[test]
fn rgb9e5_round_trip_within_one_unit() {
    for c in [[1.0f32, 1.0, 1.0], [0.0, 0.0, 0.0], [100.0, 0.1, 5.0], [0.5, 3.25, 65000.0], [1e-3, 2e-3, 7.5]] {
        let word = PackedRgb9e5::new(bits3(c)).bits();
        let unit = 2f32.powi((word >> 27) as i32 - 24);
        let d = rgb9e5_decode(word);
        for k in 0..3 {
            assert!((d[k] - c[k]).abs() <= unit, "{:?} {:?}", c, d);
        }
    }
}

#[test]
fn rgb9e5_clamps_out_of_range_channels() {
    let word = PackedRgb9e5::new(bits3([-5.0, f32::NAN, f32::INFINITY])).bits();
    let d = rgb9e5_decode(word);
    assert_eq!(d[0], 0.0);
    assert_eq!(d[1], 0.0);
    assert_eq!(d[2], 65408.0);
}

#[test]
fn octahedral_coordinates_round_trip() {
    let p = PackedNormalizedXyz10::from_octahedral(0x1234, 0x7fff);
    assert_eq!(p.octahedral(), (0x1234, 0x7fff));
    assert_eq!(p.bits(), (0x7fff << 15) | 0x1234);
    assert_eq!(PackedNormalizedXyz10::default().bits(), (0x7fff << 15) | 0x4000);
}

#[test]
fn default_material_is_neutral_dielectric() {
    let m = Material::default();
    assert_eq!(m.index, None);
    assert_eq!(m.color, [ONE; 3]);
    assert_eq!(f32::from_bits(m.roughness), 0.5);
    assert_eq!(f32::from_bits(m.eta), 1.0 / 1.5);
    assert!(m.is_opaque);
    assert!(!m.is_emissive());
}

#[test]
fn emissive_when_any_channel_positive() {
    let mut m = Material::default();
    m.emission = bits3([0.0, 0.25, 0.0]);
    assert!(m.is_emissive());
    m.emission = bits3([-1.0, -0.0, 0.0]);
    assert!(!m.is_emissive());
    m.emission = [f32::NAN.to_bits(), 0, 0];
    assert!(!m.is_emissive());
}

#[test]
fn opacity_rule() {
    assert!(ugm::material::is_opaque(true, 0x3F00_0000));
    assert!(ugm::material::is_opaque(false, 0));
    assert!(ugm::material::is_opaque(false, (-0.0f32).to_bits()));
    assert!(!ugm::material::is_opaque(false, 0x3F00_0000));
}

fn vertex(p: [f32; 3]) -> PackedVertex {
    let up = PackedNormalizedXyz10::default();
    PackedVertex { position: bits3(p), normal: up, tex_coord: [0, 0], tangent: up, tangent_handiness: ONE }
}

#[test]
fn mesh_bounds_are_componentwise() {
    let mesh = Mesh::new(
        vec![vertex([1.0, -2.0, 3.0]), vertex([-1.0, 5.0, 0.5])],
        vec![],
        vec![],
        vec![],
        true,
        false,
    );
    assert_eq!(mesh.bounds_min, bits3([-1.0, -2.0, 0.5]));
    assert_eq!(mesh.bounds_max, bits3([1.0, 5.0, 3.0]));
    let empty = Mesh::new(vec![], vec![], vec![], vec![], true, false);
    assert_eq!(empty.bounds_min, bits3([f32::INFINITY; 3]));
    assert_eq!(empty.bounds_max, bits3([f32::NEG_INFINITY; 3]));
}

#[test]
fn pack_vertices_copies_positions_and_uvs() {
    let up = PackedNormalizedXyz10::default();
    let side = PackedNormalizedXyz10::from_octahedral(1, 2);
    let frames = vec![VertexFrame { normal: up, tangent: side, tangent_handiness: ONE }];
    let packed = pack_vertices(&vec![bits3([1.0, 2.0, 3.0])], &frames, &vec![[7, 9]]);
    assert_eq!(packed.len(), 1);
    assert_eq!(packed[0].position, bits3([1.0, 2.0, 3.0]));
    assert_eq!(packed[0].tex_coord, [7, 9]);
    assert_eq!(packed[0].tangent.bits(), side.bits());
}

#[test]
fn duplicate_meshes_are_found() {
    let a = Mesh::new(vec![vertex([1.0, 0.0, 0.0])], vec![], vec![0], vec![], true, false);
    let b = Mesh::new(vec![vertex([1.0, 0.0, 0.0])], vec![], vec![0], vec![], true, false);
    let c = Mesh::new(vec![vertex([2.0, 0.0, 0.0])], vec![], vec![0], vec![], true, false);
    assert!(has_same_content(&a, &b));
    assert!(!has_same_content(&a, &c));
    assert_eq!(find_duplicate(&vec![c.clone(), a.clone()], &b), Some(1));
    assert_eq!(find_duplicate(&vec![c], &b), None);
}

#[test]
fn zero_tangents_keep_normals() {
    let n = PackedNormalizedXyz10::from_octahedral(5, 6);
    let frames = vec![VertexFrame { normal: n, tangent: n, tangent_handiness: (-1.0f32).to_bits() }; 3];
    let z = zero_tangent_frames(frames);
    assert_eq!(z.len(), 3);
    for f in z {
        assert_eq!(f.normal.bits(), n.bits());
        assert_eq!(f.tangent.bits(), 0);
        assert_eq!(f.tangent_handiness, ONE);
    }
}

#[test]
fn sixteen_bit_samples_are_narrowed() {
    let img = SourceImage { width: 2, height: 1, layout: PixelLayout::R16, pixels: vec![0xFF, 0xFF, 0x80, 0x80] };
    let (format, pixels) = canonicalize(&img).unwrap();
    assert_eq!(format, UncompressedTextureFormat::R8Unorm);
    assert_eq!(pixels, vec![255, 128]);
}

#[test]
fn rgb_gains_opaque_alpha() {
    let img = SourceImage { width: 1, height: 2, layout: PixelLayout::R8G8B8, pixels: vec![1, 2, 3, 4, 5, 6] };
    let (format, pixels) = canonicalize(&img).unwrap();
    assert_eq!(format, UncompressedTextureFormat::Rgba8Unorm);
    assert_eq!(pixels, vec![1, 2, 3, 255, 4, 5, 6, 255]);
    let float3 = SourceImage { width: 1, height: 1, layout: PixelLayout::R32G32B32Float, pixels: vec![0; 12] };
    assert!(canonicalize(&float3).is_none());
}

#[test]
fn texture_has_full_mip_chain() {
    let t = Texture::new(desc(image(8, 4, PixelLayout::R8, 1), false), &no_filter).unwrap();
    assert_eq!(t.name(), "Unnamed");
    assert_eq!((t.width(), t.height()), (8, 4));
    assert_eq!(t.format(), TextureFormat::Uncompressed(UncompressedTextureFormat::R8Unorm));
    let sizes: Vec<usize> = t.data().iter().map(|d| d.len()).collect();
    assert_eq!(sizes, vec![32, 8, 2, 1]);
    assert_eq!(t.uv_scale(), [ONE, ONE]);
}

#[test]
fn normal_maps_use_the_normal_filter() {
    let t = Texture::new(desc(image(4, 4, PixelLayout::R8G8B8A8, 4), true), &no_filter).unwrap();
    assert_eq!(t.data().len(), 3);
    assert!(t.data()[1].iter().all(|&b| b == 128));
    let bad = Texture::new(desc(image(4, 4, PixelLayout::R8G8, 2), true), &no_filter);
    assert_eq!(bad.err(), Some(TextureError::NormalMapWithoutColor));
}

#[test]
fn unsupported_layout_is_rejected() {
    let t = Texture::new(desc(image(2, 2, PixelLayout::R32G32B32Float, 12), false), &no_filter);
    assert_eq!(t.err(), Some(TextureError::UnsupportedPixelLayout));
}

#[test]
fn resolution_cap_scales_uniformly() {
    let mut d = desc(image(64, 16, PixelLayout::R8, 1), false);
    d.max_resolution = Some(32);
    let t = Texture::new(d, &no_filter).unwrap();
    assert_eq!((t.width(), t.height()), (32, 8));
    assert_eq!(t.data()[0].len(), 256);
    assert_eq!(t.data().len(), 6);
}

#[test]
fn bc_compression_truncates_small_levels() {
    let t = Texture::new(desc(image(16, 16, PixelLayout::R8, 1), false), &no_filter).unwrap();
    let c = t.compress(&TextureCompression::Bc, &no_narrow).unwrap().unwrap();
    assert_eq!(c.format(), TextureFormat::Compressed(CompressedTextureFormat::Bc4RUnorm));
    // 16x16, 8x8 and 4x4 are compressed; the 2x2 level is below a 4x4 block.
    let sizes: Vec<usize> = c.data().iter().map(|d| d.len()).collect();
    assert_eq!(sizes, vec![128, 32, 8]);
    assert_ne!(c.uuid(), t.uuid());
    assert!(c.compress(&TextureCompression::Bc, &no_narrow).unwrap().is_none());
    let rgba = Texture::new(desc(image(32, 32, PixelLayout::R8G8B8A8, 4), false), &no_filter).unwrap();
    let c = rgba.compress(&TextureCompression::Bc, &no_narrow).unwrap().unwrap();
    assert_eq!(c.data().len(), 4);
    assert_eq!(c.data()[0].len(), 1024);
    let rgba16 = Texture::new(desc(image(16, 16, PixelLayout::R8G8B8A8, 4), false), &no_filter).unwrap();
    assert_eq!(rgba16.compress(&TextureCompression::Bc, &no_narrow).unwrap().unwrap().data().len(), 3);
}

#[test]
fn flattening_is_pre_order() {
    let doc = document(
        vec![node(None, vec![1, 2]), node(Some(0), vec![]), node(Some(0), vec![])],
        vec![SourceMesh { primitives: vec![triangle(0.0, None, true)] }],
    );
    let model = convert(&doc, ParseOptions::default()).unwrap();
    assert_eq!(model.root_node_indices, vec![0]);
    assert_eq!(model.nodes.len(), 3);
    assert_eq!(model.nodes[0].child_node_indices, vec![1, 2]);
    assert_eq!(model.nodes[0].mesh_idx, None);
    assert_eq!(model.nodes[1].mesh_idx, Some(0));
    assert_eq!(model.nodes[2].mesh_idx, Some(0));
    assert_eq!(model.nodes[1].name, "Unnamed");
    assert_eq!(model.meshes.len(), 1);
}

#[test]
fn deep_hierarchy_order() {
    let doc = document(
        vec![node(None, vec![1, 3]), node(None, vec![2]), node(None, vec![]), node(None, vec![])],
        vec![],
    );
    let model = convert(&doc, ParseOptions::default()).unwrap();
    assert_eq!(model.nodes[0].child_node_indices, vec![1, 3]);
    assert_eq!(model.nodes[1].child_node_indices, vec![2]);
    assert!(model.nodes[2].child_node_indices.is_empty());
}

#[test]
fn default_material_when_document_has_none() {
    let doc = document(
        vec![node(Some(0), vec![])],
        vec![SourceMesh { primitives: vec![triangle(0.0, None, true), triangle(2.0, None, true)] }],
    );
    let model = convert(&doc, ParseOptions::default()).unwrap();
    assert_eq!(model.materials.len(), 1);
    assert_eq!(model.materials[0].index, None);
    assert_eq!(model.materials[0].color, [ONE; 3]);
    let mesh = &model.meshes[0];
    assert_eq!(mesh.material_indices, vec![0]);
    assert_eq!(mesh.triangle_material_indices, vec![0, 0]);
    assert_eq!(mesh.indices, vec![0, 1, 2, 3, 4, 5]);
    assert_eq!(mesh.triangle_material_indices.len(), mesh.indices.len() / 3);
}

#[test]
fn materials_are_harvested_once_per_slot() {
    let mut doc = document(
        vec![node(Some(0), vec![])],
        vec![SourceMesh {
            primitives: vec![triangle(0.0, Some(1), true), triangle(1.0, Some(0), true), triangle(2.0, Some(1), true)],
        }],
    );
    let mut glow = plain_material();
    glow.emission = bits3([0.0, 2.0, 0.0]);
    glow.alpha_mode_opaque = false;
    doc.materials = vec![plain_material(), glow];
    let model = convert(&doc, ParseOptions::default()).unwrap();
    assert_eq!(model.materials.len(), 2);
    assert_eq!(model.materials[1].index, Some(1));
    assert_eq!(model.materials[1].alpha_cutoff, 0x3F00_0000);
    assert!(!model.materials[1].is_opaque);
    let mesh = &model.meshes[0];
    assert_eq!(mesh.material_indices, vec![1, 0]);
    assert_eq!(mesh.triangle_material_indices, vec![0, 1, 0]);
    assert!(!mesh.opaque);
    assert!(mesh.is_emissive);
}

#[test]
fn duplicate_meshes_merge_when_enabled() {
    let doc = document(
        vec![node(None, vec![1, 2]), node(Some(0), vec![]), node(Some(1), vec![])],
        vec![
            SourceMesh { primitives: vec![triangle(0.0, None, true)] },
            SourceMesh { primitives: vec![triangle(0.0, None, true)] },
        ],
    );
    let mut opt = ParseOptions::default();
    opt.merge_duplicate_meshes = true;
    let merged = convert(&doc, opt).unwrap();
    assert_eq!(merged.meshes.len(), 1);
    assert_eq!(merged.nodes[1].mesh_idx, Some(0));
    assert_eq!(merged.nodes[2].mesh_idx, Some(0));
    let separate = convert(&doc, ParseOptions::default()).unwrap();
    assert_eq!(separate.meshes.len(), 2);
    assert_eq!(separate.nodes[2].mesh_idx, Some(1));
}

#[test]
fn missing_uvs_give_zero_tangents() {
    let doc = document(vec![node(Some(0), vec![])], vec![SourceMesh { primitives: vec![triangle(0.0, None, false)] }]);
    let model = convert(&doc, ParseOptions::default()).unwrap();
    let mesh = &model.meshes[0];
    assert_eq!(mesh.packed_vertices.len(), 3);
    for v in &mesh.packed_vertices {
        assert_eq!(v.tangent.bits(), 0);
        assert_eq!(v.tangent_handiness, ONE);
        assert_eq!(v.tex_coord, [0, 0]);
    }
}

#[test]
fn model_bounds_union_of_meshes() {
    let doc = document(
        vec![node(None, vec![1, 2]), node(Some(0), vec![]), node(Some(1), vec![])],
        vec![
            SourceMesh { primitives: vec![triangle(0.0, None, true)] },
            SourceMesh { primitives: vec![triangle(5.0, None, true)] },
        ],
    );
    let model = convert(&doc, ParseOptions::default()).unwrap();
    assert_eq!(model.bounds_min, bits3([0.0, 0.0, 0.0]));
    assert_eq!(model.bounds_max, bits3([6.0, 1.0, 0.0]));
    let empty = convert(&document(vec![node(None, vec![])], vec![]), ParseOptions::default()).unwrap();
    assert_eq!(empty.bounds_min, bits3([f32::INFINITY; 3]));
}

#[test]
fn fatal_conditions_are_reported() {
    let mut bad = triangle(0.0, None, true);
    bad.is_triangles = false;
    let doc = document(vec![node(Some(0), vec![])], vec![SourceMesh { primitives: vec![bad] }]);
    assert_eq!(convert(&doc, ParseOptions::default()).err(), Some(ConvertError::NonTriangleTopology));

    let mut bad = triangle(0.0, None, true);
    bad.positions = None;
    let doc = document(vec![node(Some(0), vec![])], vec![SourceMesh { primitives: vec![bad] }]);
    assert_eq!(convert(&doc, ParseOptions::default()).err(), Some(ConvertError::MissingPositions));

    let mut bad = triangle(0.0, None, true);
    bad.indices = None;
    let doc = document(vec![node(Some(0), vec![])], vec![SourceMesh { primitives: vec![bad] }]);
    assert_eq!(convert(&doc, ParseOptions::default()).err(), Some(ConvertError::MissingIndices));

    let mut bad = triangle(0.0, None, true);
    bad.indices = Some(vec![0, 1, 3]);
    let doc = document(vec![node(Some(0), vec![])], vec![SourceMesh { primitives: vec![bad] }]);
    assert_eq!(convert(&doc, ParseOptions::default()).err(), Some(ConvertError::IndexOutOfRange));

    let doc = document(vec![node(None, vec![1]), node(None, vec![0])], vec![]);
    assert_eq!(convert(&doc, ParseOptions::default()).err(), Some(ConvertError::CyclicHierarchy));

    let mut bad = triangle(0.0, None, true);
    bad.indices = Some(vec![0, 1, 2, 0]);
    let doc = document(vec![node(Some(0), vec![])], vec![SourceMesh { primitives: vec![bad] }]);
    assert_eq!(convert(&doc, ParseOptions::default()).err(), Some(ConvertError::IncompleteTriangle));

    let mut opt = ParseOptions::default();
    opt.texture_compression = Some(TextureCompression::Astc);
    let doc = document(vec![node(None, vec![])], vec![]);
    assert_eq!(convert(&doc, opt).err(), Some(ConvertError::UnsupportedCompression));
}

fn textured_document(image: SourceImageData, normal: bool) -> SourceDocument {
    let mut doc = document(vec![node(Some(0), vec![])], vec![SourceMesh { primitives: vec![triangle(0.0, Some(0), true)] }]);
    let mut m = plain_material();
    let r = TextureRef { texture: 0, uv_offset: [0, 0], uv_scale: [ONE, ONE] };
    if normal {
        m.normal_texture = Some(r);
    } else {
        m.color_texture = Some(r);
        m.emission_texture = Some(r);
    }
    doc.materials = vec![m];
    doc.textures = vec![SourceTexture { name: Some("albedo".to_string()), image: 0 }];
    doc.images = vec![image];
    doc
}

#[test]
fn image_errors_are_reported() {
    let doc = textured_document(SourceImageData::Uri, false);
    assert_eq!(convert(&doc, ParseOptions::default()).err(), Some(ConvertError::ExternalImage));
    let doc = textured_document(SourceImageData::Embedded(image(2, 2, PixelLayout::R32G32B32Float, 12)), false);
    assert_eq!(convert(&doc, ParseOptions::default()).err(), Some(ConvertError::UnsupportedPixelLayout));
    let doc = textured_document(SourceImageData::Embedded(image(2, 2, PixelLayout::R8, 1)), true);
    assert_eq!(convert(&doc, ParseOptions::default()).err(), Some(ConvertError::NormalMapWithoutColor));
}

#[test]
fn one_texture_per_source_image() {
    let doc = textured_document(SourceImageData::Embedded(image(8, 8, PixelLayout::R8G8B8, 3)), false);
    let model = convert(&doc, ParseOptions::default()).unwrap();
    assert_eq!(model.textures.len(), 1);
    assert_eq!(model.materials[0].color_texture, Some(0));
    assert_eq!(model.materials[0].emission_texture, Some(0));
    assert_eq!(model.textures[0].name(), "albedo");
    assert_eq!(model.textures[0].data().len(), 4);
    let mut opt = ParseOptions::default();
    opt.texture_compression = Some(TextureCompression::Bc);
    opt.max_texture_resolution = Some(MaxTextureResolution::Res1024);
    let model = convert(&doc, opt).unwrap();
    assert_eq!(model.textures[0].format(), TextureFormat::Compressed(CompressedTextureFormat::Bc7RgbaUnorm));
}

#[test]
fn stored_parts_are_validated() {
    let t = Texture::new(desc(image(4, 2, PixelLayout::R8G8, 2), false), &no_filter).unwrap();
    let again = Texture::from_parts(
        t.name().to_string(),
        t.uuid(),
        t.width(),
        t.height(),
        t.format(),
        t.data().to_vec(),
        t.uv_offset(),
        t.uv_scale(),
    )
    .unwrap();
    assert_eq!(again.data(), t.data());
    let mut short = t.data().to_vec();
    short.pop();
    assert!(Texture::from_parts("x".to_string(), 1, 4, 2, t.format(), short, [0, 0], [ONE, ONE]).is_none());
    let wrong = vec![vec![0u8; 3]];
    let bc = TextureFormat::Compressed(CompressedTextureFormat::Bc4RUnorm);
    assert!(Texture::from_parts("x".to_string(), 1, 4, 4, bc, wrong, [0, 0], [ONE, ONE]).is_none());
    assert!(Texture::from_parts("x".to_string(), 1, 4, 4, bc, vec![vec![0u8; 8]], [0, 0], [ONE, ONE]).is_some());
}
