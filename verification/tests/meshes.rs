use chimy2::float::Float32;
use chimy2::material::{LoadedMaps, MaterialLibrary, MtlError};
use chimy2::math::{Vec2, Vec3, Vec4};
use chimy2::mesh::{Mesh, MeshVertex};
use chimy2::obj_asset::{library_names, LibraryFile, LibraryOutcome};
use chimy2::texture::Texture;

fn s(value: f32) -> Float32 {
    Float32 { bits: value.to_bits() }
}

fn n(value: Float32) -> f32 {
    f32::from_bits(value.bits)
}

fn v2(x: f32, y: f32) -> Vec2 {
    Vec2::new(s(x), s(y))
}

fn v3(x: f32, y: f32, z: f32) -> Vec3 {
    Vec3::new(s(x), s(y), s(z))
}

fn same2(value: Option<Vec2>, expected: [f32; 2]) -> bool {
    value.is_some_and(|value| [n(value.x), n(value.y)] == expected)
}

fn same3(value: Option<Vec3>, expected: [f32; 3]) -> bool {
    value.is_some_and(|value| [n(value.x), n(value.y), n(value.z)] == expected)
}

fn same4(value: Option<Vec4>, expected: [f32; 4]) -> bool {
    value.is_some_and(|value| [n(value.x), n(value.y), n(value.z), n(value.w)] == expected)
}

const QUAD: &str = "v 0 0 0\nv 1 0 0\nv 1 1 0\nv 0 1 0\n\
                    vt 0 0\nvt 1 0\nvt 1 1\nvt 0 1\n\
                    f 1/1 2/2 3/3 4/4\n";

#[test]
fn parses_all_face_forms_and_triangulates() {
    let mesh = Mesh::parse(
        "v 0 0 0\nv 1 0 0\nv 1 1 0\nv 0 1 0\nvt 0 0\nvt 1 0\nvt 1 1\nvt 0 1\nvn 0 0 1\nf 1/1/1 2/2/1 3/3/1 4/4/1\nf 1//1 2//1 3//1\nf 1/1 2/2 3/3\nf 1 2 3\n",
    )
    .unwrap();
    assert_eq!(mesh.indices().len(), 5);
    assert_eq!(mesh.vertex(0).unwrap().position(), v3(0.0, 0.0, 0.0));
    assert!(same2(mesh.vertex(0).unwrap().texcoord(), [0.0, 0.0]));
    assert!(same3(mesh.vertex(0).unwrap().normal(), [0.0, 0.0, 1.0]));
}

#[test]
fn supports_negative_indices() {
    let mesh = Mesh::parse("v 0 0 0\nv 1 0 0\nv 0 1 0\nf -3 -2 -1\n").unwrap();
    assert_eq!(mesh.indices(), &[[0, 1, 2]]);
}

#[test]
fn resolves_indices_at_the_face_line() {
    let mesh = Mesh::parse("v 0 0 0\nv 1 0 0\nv 0 1 0\nf -3 2 -1\nv 0 0 1\n").unwrap();
    assert_eq!(mesh.indices(), vec![[0, 1, 2]], "the face uses the first three positions");
    assert_eq!(
        mesh.vertices().iter().map(MeshVertex::position).collect::<Vec<_>>(),
        vec![v3(0.0, 0.0, 0.0), v3(1.0, 0.0, 0.0), v3(0.0, 1.0, 0.0)]
    );
}

#[test]
fn reports_malformed_input_with_line_context() {
    let error = Mesh::parse("v 0 0 0\nf 1 2 nope\n").unwrap_err();
    assert_eq!(error.line, 2);
    assert!(error.to_text().contains("line 2"));
    assert!(error.to_text().contains("position index"));
}

#[test]
fn rejects_corrupt_index() {
    let error = Mesh::parse("v 0 0 0\nv 1 0 0\nv 0 1 0\nf 1 2 4\n").unwrap_err();
    assert!(error.to_text().contains("position index 4"));
}

#[test]
fn rejects_zero_and_incomplete_attribute_indices() {
    assert!(Mesh::parse("v 0 0 0\nv 1 0 0\nv 0 1 0\nf 1/0 2/1 3/1\n").is_err());
    assert!(Mesh::parse("v 0 0 0\nv 1 0 0\nv 0 1 0\nf 1/ 2/1 3/1\n").is_err());
    assert!(Mesh::parse("v 0 0 0\nv 1 0 0\nv 0 1 0\nf 1// 2//1 3//1\n").is_err());
}

#[test]
fn records_contiguous_usemtl_triangle_ranges() {
    let mesh = Mesh::parse(
        "v 0 0 0\nv 1 0 0\nv 0 1 0\n\
         v 0 0 1\nv 1 0 1\nv 0 1 1\n\
         usemtl first\nf 1 2 3\n\
         usemtl second\nf 4 5 6\n",
    )
    .unwrap();
    assert_eq!(mesh.material_groups().len(), 2);
    assert_eq!(mesh.material_groups()[0].material_name(), "first");
    assert_eq!(mesh.material_groups()[0].triangle_range(), (0, 1));
    assert_eq!(mesh.material_groups()[1].material_name(), "second");
    assert_eq!(mesh.material_groups()[1].triangle_range(), (1, 2));
}

#[test]
fn index_mutation_clears_material_ranges() {
    let mut mesh = Mesh::parse("v 0 0 0\nv 1 0 0\nv 0 1 0\nusemtl first\nf 1 2 3\n").unwrap();
    assert_eq!(mesh.material_groups().len(), 1);
    mesh.set_indices(Vec::new());
    assert!(mesh.material_groups().is_empty());
}

#[test]
fn submesh_preserves_parent_global_normals_and_tangents() {
    let mesh = Mesh::parse(
        "v 0 0 0\nv 1 0 0\nv 0 1 0\nv 0 0 1\n\
         vt 0 0\nvt 1 0\nvt 0 1\nvt 1 1\n\
         f 1/1 2/2 3/3\nf 1/1 3/3 4/4\n",
    )
    .unwrap();
    let parent_normal = mesh.vertex(0).unwrap().normal().unwrap();
    assert!((n(parent_normal.x) - 0.70710677).abs() < 1e-5);
    assert!((n(parent_normal.z) - 0.70710677).abs() < 1e-5);
    let group = mesh.submesh(0, 1).unwrap();
    assert_eq!(group.vertex(0).unwrap().normal(), Some(parent_normal));
    assert_eq!(group.vertex(0).unwrap().tangent(), mesh.vertex(0).unwrap().tangent());
    assert!(mesh.submesh(1, 3).is_none());
}

#[test]
fn generates_area_weighted_normals_when_obj_has_none() {
    let mesh = Mesh::parse("v 0 0 0\nv 1 0 0\nv 0 1 0\nf 1 2 3\n").unwrap();
    assert!(mesh.vertices().iter().all(|vertex| vertex.normal().is_some()));
    assert!(mesh.vertices().iter().all(|vertex| same3(vertex.normal(), [0.0, 0.0, 1.0])));
}

#[test]
fn area_weighted_normals_keep_unequal_face_areas() {
    let mesh = Mesh::parse("v 0 0 0\nv 4 0 0\nv 0 1 0\nv 0 0 1\nf 1 2 3\nf 1 3 4\n").unwrap();
    let normal = mesh.vertex(0).unwrap().normal().expect("generated normal");
    let length = 17.0_f32.sqrt();
    assert!((n(normal.x) - 1.0 / length).abs() < 1e-5);
    assert!(n(normal.y).abs() < 1e-5);
    assert!((n(normal.z) - 4.0 / length).abs() < 1e-5);
}

#[test]
fn generates_known_quad_tangents_with_handedness() {
    let mesh = Mesh::parse(QUAD).unwrap();
    for vertex in mesh.vertices() {
        assert!(
            same4(vertex.tangent(), [1.0, 0.0, 0.0, 1.0]),
            "tangent should follow +u and reconstruct +bitangent"
        );
    }
}

#[test]
fn mesh_without_texcoords_has_no_tangents_for_normal_map_fallback() {
    let mesh = Mesh::parse("v 0 0 0\nv 1 0 0\nv 0 1 0\nf 1 2 3\n").unwrap();
    assert!(mesh.vertices().iter().all(|vertex| vertex.tangent().is_none()));
}

#[test]
fn tangent_mutators_rebuild_the_cached_frame_immediately() {
    let mut mesh = Mesh::parse(QUAD).unwrap();
    assert!(same4(mesh.vertex(0).unwrap().tangent(), [1.0, 0.0, 0.0, 1.0]));
    assert!(mesh.set_vertex_texcoord(1, Some(v2(0.0, 1.0))));
    assert!(same4(
        mesh.vertex(0).unwrap().tangent(),
        [1.0 / 2.0_f32.sqrt(), 1.0 / 2.0_f32.sqrt(), 0.0, 1.0]
    ));
    assert!(mesh.set_vertex_texcoord(3, Some(v2(1.0, 0.0))));
    assert!(same4(mesh.vertex(0).unwrap().tangent(), [0.0, 1.0, 0.0, -1.0]));

    let mut derived = Mesh::parse("v 0 0 0\nv 1 0 0\nv 0 1 0\nf 1 2 3\n").unwrap();
    assert!(derived.set_vertex_position(2, v3(0.0, 1.0, 1.0)));
    let expected_normal = v3(0.0, -1.0, 1.0).normalize();
    let normal = derived.vertex(0).unwrap().normal().unwrap();
    assert!((n(normal.y) - n(expected_normal.y)).abs() < 1e-6);
    assert!((n(normal.z) - n(expected_normal.z)).abs() < 1e-6);

    let mut normal_mesh = Mesh::parse(QUAD).unwrap();
    let changed_normal = v3(1.0, 0.0, 1.0).normalize();
    assert!(normal_mesh.set_vertex_normal(0, Some(changed_normal)));
    let changed_tangent = normal_mesh.vertex(0).unwrap().tangent().unwrap();
    let tangent = Vec3::new(changed_tangent.x, changed_tangent.y, changed_tangent.z);
    assert!(n(tangent.dot(changed_normal)).abs() < 1e-6);
    assert!(!normal_mesh.set_vertex_normal(9, None));
}

fn plain(x: f32, y: f32, z: f32) -> MeshVertex {
    MeshVertex::new(v3(x, y, z), None, None)
}

#[test]
fn position_and_index_mutators_rebuild_aabb_immediately() {
    let mut mesh = Mesh::new(
        vec![plain(-1.0, 0.0, 0.0), plain(1.0, 2.0, 3.0), plain(0.0, -2.0, -3.0)],
        vec![[0, 1, 2]],
    );
    assert_eq!(mesh.bounds().min(), v3(-1.0, -2.0, -3.0));
    assert_eq!(mesh.bounds().max(), v3(1.0, 2.0, 3.0));
    assert!(mesh.set_vertex_position(0, v3(4.0, 5.0, 6.0)));
    assert_eq!(mesh.bounds().min(), v3(0.0, -2.0, -3.0));
    assert_eq!(mesh.bounds().max(), v3(4.0, 5.0, 6.0));
    mesh.set_indices(vec![[0, 1, 1]]);
    assert_eq!(mesh.bounds().min(), v3(0.0, -2.0, -3.0));
    assert_eq!(mesh.bounds().max(), v3(4.0, 5.0, 6.0));
}

#[test]
fn set_indices_rebuilds_derived_frame_immediately() {
    let vertices = vec![
        MeshVertex::new(v3(0.0, 0.0, 0.0), Some(v2(0.0, 0.0)), None),
        MeshVertex::new(v3(1.0, 0.0, 0.0), Some(v2(1.0, 0.0)), None),
        MeshVertex::new(v3(0.0, 1.0, 0.0), Some(v2(0.0, 1.0)), None),
        MeshVertex::new(v3(0.0, 0.0, 1.0), Some(v2(1.0, 0.0)), None),
    ];
    let mut mesh = Mesh::new(vertices, vec![[0, 1, 2]]);
    assert!(same3(mesh.vertex(0).unwrap().normal(), [0.0, 0.0, 1.0]));
    assert!(same4(mesh.vertex(0).unwrap().tangent(), [1.0, 0.0, 0.0, 1.0]));

    mesh.set_indices(vec![[0, 2, 3]]);

    assert_eq!(mesh.indices(), &[[0, 2, 3]]);
    assert!(same3(mesh.vertex(0).unwrap().normal(), [1.0, 0.0, 0.0]));
    assert!(same4(mesh.vertex(0).unwrap().tangent(), [0.0, 0.0, 1.0, -1.0]));
}

#[test]
fn equal_area_faces_use_area_only_tangent_weights() {
    let up = Some(v3(0.0, 0.0, 1.0));
    let vertices = vec![
        MeshVertex::new(v3(0.0, 0.0, 0.0), Some(v2(0.0, 0.0)), up),
        MeshVertex::new(v3(1.0, 0.0, 0.0), Some(v2(1.0, 0.0)), up),
        MeshVertex::new(v3(3.0_f32.sqrt(), 1.0, 0.0), Some(v2(0.0, 1.0)), up),
        MeshVertex::new(v3(0.0, 1.0, 0.0), Some(v2(1.0, 0.0)), up),
        MeshVertex::new(v3(-1.0, 0.0, 0.0), Some(v2(0.0, 1.0)), up),
    ];
    let mesh = Mesh::new(vertices, vec![[0, 1, 2], [0, 3, 4]]);
    let tangent = mesh.vertex(0).unwrap().tangent().unwrap();
    let expected = 1.0 / 2.0_f32.sqrt();
    assert!((n(tangent.x) - expected).abs() < 1e-5);
    assert!((n(tangent.y) - expected).abs() < 1e-5);
    assert_eq!(n(tangent.w), 1.0);
}

#[test]
fn parses_every_supported_field_and_skips_unknown_records() {
    let library = MaterialLibrary::parse(
        "newmtl painted\nKa .1 .2 .3\nKd .4 .5 .6\nKs .7 .8 .9\nNs 32\nd .75\nmap_Kd tex.qoi\nmap_bump normal.qoi\nillum 2\n",
    )
    .unwrap();
    let material = library.get("painted").unwrap();
    assert_eq!(material.ambient, v3(0.1, 0.2, 0.3));
    assert_eq!(material.diffuse, v3(0.4, 0.5, 0.6));
    assert_eq!(material.specular, v3(0.7, 0.8, 0.9));
    assert_eq!(n(material.shininess), 32.0);
    assert_eq!(n(material.alpha), 0.75);
    assert_eq!(material.map_kd(), Some("tex.qoi"));
    assert_eq!(material.map_bump(), Some("normal.qoi"));
    assert_eq!(library.materials().len(), 1);
}

#[test]
fn parses_transparency_and_common_map_options() {
    let library =
        MaterialLibrary::parse("newmtl glass\nTr 0.25\nmap_Kd -s 1 1 1 textures/albedo.qoi\n")
            .unwrap();
    let material = library.get("glass").unwrap();
    assert_eq!(n(material.alpha), 0.75);
    assert_eq!(material.map_kd(), Some("textures/albedo.qoi"));
}

#[test]
fn malformed_records_return_line_context() {
    let error = MaterialLibrary::parse("newmtl x\nKd 1 nope\n").unwrap_err();
    assert_eq!(error.line, 2);
    assert!(error.to_text().contains("line 2"));
    assert!(MaterialLibrary::parse("garbage\n").is_err());
}

#[test]
fn duplicate_material_names_are_rejected_at_the_second_definition() {
    let error = MaterialLibrary::parse("newmtl same\nKd 1 0 0\nnewmtl same\n").unwrap_err();
    assert_eq!(error.line, 3);
    assert!(error.to_text().contains("duplicate material name same"));
}

#[test]
fn map_options_validate_arity_and_accept_negative_offsets() {
    let error = MaterialLibrary::parse("newmtl x\nmap_Kd -s checker.qoi\n").unwrap_err();
    assert_eq!(error.line, 2);
    let library = MaterialLibrary::parse(
        "newmtl x\nmap_Kd -o -1 -0.5 0 checker.qoi\nmap_bump -mm 0.1 2 normal.qoi\n",
    )
    .unwrap();
    let material = library.get("x").unwrap();
    assert_eq!(material.map_kd(), Some("checker.qoi"));
    assert_eq!(material.map_bump(), Some("normal.qoi"));
}

fn picture(red: u8) -> Texture {
    Texture::new(1, 1, vec![[red, 0, 0, 255]]).unwrap()
}

#[test]
fn map_mutators_update_paths_and_caches_as_one_state() {
    let mut library = MaterialLibrary::parse("newmtl checker\nmap_Kd a.qoi\n").unwrap();
    let loaded = LoadedMaps { albedo: Some(Ok(picture(1))), normal_map: None };
    library.load_maps(vec![loaded]).unwrap();
    let material = library.get_mut("checker").unwrap();
    assert!(material.albedo_texture().is_some());
    assert!(material.normal_map_texture().is_none());
    material.set_map_kd(None, None).unwrap();
    assert_eq!(material.map_kd(), None);
    assert_eq!(material.albedo_texture(), None);
    material.set_map_kd(Some("checker.qoi".to_string()), Some(Ok(picture(2)))).unwrap();
    assert_eq!(material.map_kd(), Some("checker.qoi"));
    assert_eq!(material.albedo_texture(), Some(&picture(2)));
    let failure = MtlError::new(0, "map_Kd missing.qoi: not found");
    let error = material.set_map_kd(Some("missing.qoi".to_string()), Some(Err(failure)));
    assert_eq!(error, Err(MtlError::new(0, "map_Kd missing.qoi: not found")));
    assert_eq!(material.map_kd(), Some("checker.qoi"));
    assert_eq!(material.albedo_texture(), Some(&picture(2)));
    material.set_map_bump(Some("n.qoi".to_string()), Some(Ok(picture(3)))).unwrap();
    assert_eq!(material.map_bump(), Some("n.qoi"));
    assert_eq!(material.normal_map_texture(), Some(&picture(3)));
    let failure = MtlError::new(0, "map_bump gone.qoi: not found");
    assert!(material.set_map_bump(Some("gone.qoi".to_string()), Some(Err(failure))).is_err());
    assert_eq!(material.map_bump(), Some("n.qoi"));
    assert_eq!(material.normal_map_texture(), Some(&picture(3)));
    assert_eq!(material.albedo_texture(), Some(&picture(2)));
    assert!(library.get_mut("missing").is_none());
    assert!(library.get("missing").is_none());
}

#[test]
fn maps_are_replaced_once_both_have_loaded() {
    let source = "newmtl a\nmap_Kd a.qoi\nmap_bump b.qoi\nnewmtl b\n";
    let mut library = MaterialLibrary::parse(source).unwrap();
    let none = || LoadedMaps { albedo: None, normal_map: None };
    let good = LoadedMaps { albedo: Some(Ok(picture(1))), normal_map: Some(Ok(picture(2))) };
    library.load_maps(vec![good, none()]).unwrap();
    let half = LoadedMaps {
        albedo: Some(Ok(picture(3))),
        normal_map: Some(Err(MtlError::new(3, "map_bump b.qoi: not found"))),
    };
    let error = library.load_maps(vec![half, none()]).unwrap_err();
    assert_eq!(error.line, 3);
    let material = library.get("a").unwrap();
    assert_eq!(material.albedo_texture(), Some(&picture(1)));
    assert_eq!(material.normal_map_texture(), Some(&picture(2)));
    let both = LoadedMaps {
        albedo: Some(Err(MtlError::new(2, "map_Kd a.qoi: not found"))),
        normal_map: Some(Err(MtlError::new(3, "map_bump b.qoi: not found"))),
    };
    assert_eq!(library.load_maps(vec![both, none()]).unwrap_err().line, 2);
}

fn library_file(name: &str, outcome: LibraryOutcome) -> LibraryFile {
    LibraryFile { name: name.to_string(), outcome }
}

const TWO_GROUPS: &str = "mtllib set.mtl\nv 0 0 0\nv 1 0 0\nv 0 1 0\n\
                          usemtl first\nf 1 2 3\nusemtl second\nf 1 3 2\n";

#[test]
fn loaded_groups_have_their_materials() {
    assert_eq!(library_names(TWO_GROUPS), vec!["set.mtl".to_string()]);
    let library = MaterialLibrary::parse("newmtl first\nnewmtl second\n").unwrap();
    let file = library_file("set.mtl", LibraryOutcome::Loaded(library));
    let asset = Mesh::load_with_materials(TWO_GROUPS, &[file]).unwrap();
    assert_eq!(asset.mesh.material_groups().len(), 2);
    for group in asset.mesh.material_groups() {
        assert!(asset.materials.get(group.material_name()).is_some());
    }
    let short = MaterialLibrary::parse("newmtl first\n").unwrap();
    let file = library_file("set.mtl", LibraryOutcome::Loaded(short));
    let error = Mesh::load_with_materials(TWO_GROUPS, &[file]).err().unwrap();
    assert!(error.to_text().contains("second"), "{}", error.to_text());
}

#[test]
fn obj_numbers_are_the_nearest_singles() {
    for text in ["0.1", "-3.25e-2", "16777217", "1e-46", "340282350000000000000000000000000000000"] {
        let mesh =
            Mesh::parse(&format!("v {text} 0 0\nv 1 0 0\nv 0 1 0\nf 1 2 3\n")).unwrap();
        let expected: f32 = text.parse().unwrap();
        assert_eq!(n(mesh.vertices()[0].position().x), expected);
    }
    assert!(Mesh::parse("v one 0 0\n").is_err());
}
