use chimy2::float::{Float32, Float64};
use chimy2::gltf::animation::{GltfAnimationSampler, Interpolation};
use chimy2::gltf::assets::FileContent;
use chimy2::gltf::document::GltfAsset;
use chimy2::gltf::material::{
    draw_lighting, plan_draw, plan_draws, DrawTextures, GltfAlphaMode, GltfMaterial,
};
use chimy2::gltf::model::MorphTarget;
use chimy2::gltf::node::GltfNode;
use chimy2::gltf::pose::{blend_morph_targets, normalize_weights};
use chimy2::gltf::sampling::{slerp, slerp_turn, NodeTransform, Sines, Turn};
use chimy2::json::{parse, Value};
use chimy2::math::{Quat, Vec3, Vec4};
use chimy2::mesh::{Mesh, MeshVertex};
use std::f32::consts::FRAC_PI_2;

const WEIGHT_TOLERANCE: f32 = 1.0e-5;

fn s(value: f32) -> Float32 {
    Float32 { bits: value.to_bits() }
}

fn n(value: Float32) -> f32 {
    f32::from_bits(value.bits)
}

fn v3(x: f32, y: f32, z: f32) -> Vec3 {
    Vec3::new(s(x), s(y), s(z))
}

fn v4(x: f32, y: f32, z: f32, w: f32) -> Vec4 {
    Vec4::new(s(x), s(y), s(z), s(w))
}

fn no_sines() -> Sines {
    Sines { whole: s(0.0), first: s(0.0), second: s(0.0) }
}

fn sines_of(turn: Turn) -> Sines {
    let angle = n(turn.cosine).acos();
    Sines {
        whole: s(angle.sin()),
        first: s(((1.0 - n(turn.factor)) * angle).sin()),
        second: s((n(turn.factor) * angle).sin()),
    }
}

fn all_sines(asset: &GltfAsset, animation: Option<usize>, time: f32) -> Vec<Sines> {
    asset
        .turns(animation, s(time))
        .into_iter()
        .map(|turn| turn.map_or_else(no_sines, sines_of))
        .collect()
}

fn quarter_slerp() -> Quat {
    let a = Quat::identity();
    let b = Quat::new(s(0.0), s(0.0), s((FRAC_PI_2 / 2.0).sin()), s((FRAC_PI_2 / 2.0).cos()));
    let turn = slerp_turn(a, b, s(0.25)).unwrap();
    slerp(a, b, s(0.25), sines_of(turn))
}

fn check_quarter(quarter: Quat) {
    let expected = (FRAC_PI_2 / 8.0).sin();
    assert!((n(quarter.z) - expected).abs() < 1.0e-5);
    assert!((n(quarter.w) - (FRAC_PI_2 / 8.0).cos()).abs() < 1.0e-5);
}

#[test]
fn gltf_slerp_uses_the_shortest_path() {
    check_quarter(quarter_slerp());
}

#[test]
fn tests_slerp_uses_the_shortest_path() {
    check_quarter(quarter_slerp());
    let a = Quat::identity();
    let far = Quat::new(s(0.0), s(0.0), s(-(FRAC_PI_2 / 2.0).sin()), s(-(FRAC_PI_2 / 2.0).cos()));
    let turn = slerp_turn(a, far, s(0.25)).unwrap();
    assert!(n(turn.cosine) > 0.0);
    check_quarter(slerp(a, far, s(0.25), sines_of(turn)));
    assert_eq!(slerp_turn(a, a, s(0.5)), None);
}

fn check_trs() {
    let transform = NodeTransform {
        translation: v3(2.0, 0.0, 0.0),
        rotation: [s(0.0), s(0.0), s((FRAC_PI_2 / 2.0).sin()), s((FRAC_PI_2 / 2.0).cos())],
        scale: v3(3.0, 3.0, 3.0),
    }
    .matrix();
    let result = transform * v4(1.0, 0.0, 0.0, 1.0);
    assert!((n(result.x) - 2.0).abs() < 1.0e-5);
    assert!((n(result.y) - 3.0).abs() < 1.0e-5);
    assert_eq!(n(result.z), 0.0);
    assert_eq!(n(result.w), 1.0);
}

#[test]
fn gltf_trs_is_translation_rotation_scale() {
    check_trs();
}

#[test]
fn tests_trs_is_translation_rotation_scale() {
    check_trs();
}

const OVERRUN: &str = r#"{"asset":{"version":"2.0"},"buffers":[{"uri":"data:application/octet-stream;base64,AAAAAAAAAAAAAAAA","byteLength":12}],"bufferViews":[{"buffer":0,"byteLength":12}],"accessors":[{"bufferView":0,"componentType":5126,"count":2,"type":"VEC3"}],"meshes":[{"primitives":[{"attributes":{"POSITION":0}}]}]}"#;

#[test]
fn gltf_rejects_accessor_overrun() {
    assert!(GltfAsset::from_str(OVERRUN, &[]).is_err());
}

#[test]
fn tests_rejects_accessor_overrun() {
    assert!(GltfAsset::from_str(OVERRUN, &[]).is_err());
}

#[test]
fn invalid_utf8_error_displays_the_byte_offset() {
    let error = GltfAsset::from_bytes(&[b'{', b'}', 0xff], &[]).unwrap_err();
    assert_eq!(error.offset, Some(2));
    assert!(error.to_text().contains("byte 2:"));
    let cut = GltfAsset::from_bytes(&[b'"', 0xe2, 0x98], &[]).unwrap_err();
    assert_eq!(cut.offset, Some(1));
    let surrogate = GltfAsset::from_bytes(&[0xc3, 0xa9, 0xed, 0xa0, 0x80], &[]).unwrap_err();
    assert_eq!(surrogate.offset, Some(2));
    assert_eq!(surrogate.message, "glTF source is not valid UTF-8");
}

#[test]
fn vertex_semantics_reject_wrong_component_types() {
    let source = r#"{"asset":{"version":"2.0"},"buffers":[{"uri":"data:application/octet-stream;base64,AAECAw==","byteLength":3}],"bufferViews":[{"buffer":0,"byteLength":3}],"accessors":[{"bufferView":0,"componentType":5121,"count":1,"type":"VEC3"}],"meshes":[{"primitives":[{"attributes":{"POSITION":0}}]}]}"#;
    let error = GltfAsset::from_str(source, &[]).unwrap_err();
    assert!(error.message.contains("POSITION accessor 0"));
}

#[test]
fn normalize_weights_accepts_the_exact_tolerance_boundary() {
    assert_eq!(
        normalize_weights([s(WEIGHT_TOLERANCE), s(0.0), s(0.0), s(0.0)]).map(n),
        [1.0, 0.0, 0.0, 0.0]
    );
}

fn asset_with_nodes(nodes: Vec<GltfNode>) -> GltfAsset {
    GltfAsset {
        meshes: Vec::new(),
        nodes,
        scenes: Vec::new(),
        skins: Vec::new(),
        animations: Vec::new(),
        materials: Vec::new(),
        images: Vec::new(),
        default_scene: 0,
    }
}

fn node(children: Vec<usize>, translation: Vec3) -> GltfNode {
    GltfNode {
        name: String::new(),
        children,
        mesh: None,
        skin: None,
        weights: None,
        matrix: None,
        translation,
        rotation: [s(0.0), s(0.0), s(0.0), s(1.0)],
        scale: v3(1.0, 1.0, 1.0),
    }
}

fn world_origin(asset: &GltfAsset, index: usize) -> [f32; 4] {
    let worlds = asset.node_world_transforms(None, s(0.0), &[]).unwrap();
    let place = worlds[index] * v4(0.0, 0.0, 0.0, 1.0);
    [n(place.x), n(place.y), n(place.z), n(place.w)]
}

#[test]
fn node_world_transforms_include_all_ancestors() {
    let asset = asset_with_nodes(vec![
        node(vec![1], v3(1.0, 0.0, 0.0)),
        node(vec![2], v3(0.0, 2.0, 0.0)),
        node(Vec::new(), v3(0.0, 0.0, 3.0)),
    ]);
    assert_eq!(world_origin(&asset, 2), [1.0, 2.0, 3.0, 1.0]);
}

#[test]
fn node_world_transforms_allow_child_before_parent() {
    let asset = asset_with_nodes(vec![
        node(Vec::new(), v3(0.0, 3.0, 0.0)),
        node(vec![0], v3(2.0, 0.0, 0.0)),
    ]);
    assert_eq!(world_origin(&asset, 0), [2.0, 3.0, 0.0, 1.0]);
}

fn material(color: Vec4, metallic: f32, roughness: f32, alpha_mode: GltfAlphaMode) -> GltfMaterial {
    GltfMaterial {
        name: String::new(),
        base_color_factor: color,
        metallic_factor: s(metallic),
        roughness_factor: s(roughness),
        albedo_texture: None,
        normal_map_texture: None,
        alpha_mode,
        alpha_cutoff: s(0.5),
    }
}

#[test]
fn factors_reach_the_shader_as_they_are() {
    let gray = material(v4(0.5, 0.5, 0.5, 0.25), 0.0, 1.0, GltfAlphaMode::Opaque);
    let parameters = gray.render_parameters();
    assert_eq!(parameters.base_color, v3(0.5, 0.5, 0.5));
    assert_eq!((n(parameters.metallic), n(parameters.roughness)), (0.0, 1.0));
    assert_eq!(n(parameters.alpha), 1.0);
    let glass = material(v4(0.5, 0.5, 0.5, 0.25), 0.0, 1.0, GltfAlphaMode::Blend);
    assert_eq!(n(glass.render_parameters().alpha), 0.25);
    let metal = material(v4(0.5, 0.25, 1.0, 1.0), 1.0, 0.0, GltfAlphaMode::Opaque);
    let shiny = metal.blinn_phong_parameters();
    assert_eq!([n(shiny.diffuse.x), n(shiny.diffuse.y), n(shiny.diffuse.z)], [0.0; 3]);
    assert_eq!(n(shiny.specular.x), 0.04 + 0.96);
    assert_eq!(n(shiny.shininess), 129.0);
    assert_eq!(n(gray.blinn_phong_parameters().shininess), 1.0);
    assert_eq!(n(gray.blinn_phong_parameters().specular.y), 0.04);
}

#[test]
fn draws_are_planned_from_their_materials() {
    let mut first = material(v4(1.0, 1.0, 1.0, 1.0), 1.0, 1.0, GltfAlphaMode::Opaque);
    first.albedo_texture = Some(2);
    let mut second = material(v4(1.0, 1.0, 1.0, 0.5), 1.0, 1.0, GltfAlphaMode::Blend);
    second.normal_map_texture = Some(1);
    let materials = [first, second];
    let plans = plan_draws(&[None, Some(0), Some(1)], &materials).unwrap();
    assert_eq!(plans[0].textures, DrawTextures::Plain);
    assert_eq!(plans[1].textures, DrawTextures::Textured { albedo: 2 });
    assert_eq!(plans[2].textures, DrawTextures::Plain);
    assert_eq!(plans[1].is_opaque(), Some(true));
    assert_eq!(plans[2].is_opaque(), Some(false));
    assert_eq!(plans[1].finish_pixel(0x1234_5678), 0xff34_5678);
    assert_eq!(plans[2].finish_pixel(0x1234_5678), 0x1234_5678);
    let error = plan_draws(&[None, Some(7)], &materials).unwrap_err();
    assert_eq!(error.to_text(), "draw material index is out of range");
    assert_eq!(plan_draw(None, &materials).unwrap(), plans[0]);
}

#[test]
fn alpha_modes_are_parsed_and_mask_is_rejected() {
    let source = r#"{"asset":{"version":"2.0"},"buffers":[],"bufferViews":[],"accessors":[],"materials":[{"pbrMetallicRoughness":{"baseColorFactor":[1,1,1,0]}},{"alphaMode":"BLEND","pbrMetallicRoughness":{"baseColorFactor":[1,1,1,0.5]}}]}"#;
    let asset = GltfAsset::from_str(source, &[]).unwrap();
    assert_eq!(asset.materials[0].alpha_mode, GltfAlphaMode::Opaque);
    assert_eq!(asset.materials[1].alpha_mode, GltfAlphaMode::Blend);
    let mask = r#"{"asset":{"version":"2.0"},"buffers":[],"bufferViews":[],"accessors":[],"materials":[{"alphaMode":"MASK"}]}"#;
    assert!(GltfAsset::from_str(mask, &[]).unwrap_err().message.contains("MASK unsupported"));
}

#[test]
fn deep_node_hierarchy_is_iterative() {
    let mut nodes = Vec::with_capacity(10_000);
    for index in 0..10_000 {
        let children = if index + 1 < 10_000 { vec![index + 1] } else { Vec::new() };
        nodes.push(node(children, v3(1.0, 0.0, 0.0)));
    }
    let asset = asset_with_nodes(nodes);
    assert_eq!(world_origin(&asset, 9_999), [10_000.0, 0.0, 0.0, 1.0]);
}

#[test]
fn node_hierarchy_cycles_are_rejected() {
    let asset = asset_with_nodes(vec![
        node(vec![1], v3(0.0, 0.0, 0.0)),
        node(vec![0], v3(0.0, 0.0, 0.0)),
    ]);
    assert!(asset.node_world_transforms(None, s(0.0), &[]).is_err());
}

fn check_skin_weights() {
    assert_eq!(
        normalize_weights([2.0, 1.0, 0.0, 0.0].map(s)).map(n),
        [2.0 / 3.0, 1.0 / 3.0, 0.0, 0.0]
    );
    assert_eq!(normalize_weights([s(0.0); 4]).map(n), [0.0; 4]);
}

#[test]
fn gltf_skin_weights_are_normalized_with_zero_weight_fallback() {
    check_skin_weights();
}

#[test]
fn tests_skin_weights_are_normalized_with_zero_weight_fallback() {
    check_skin_weights();
}

fn sampler(interpolation: Interpolation) -> GltfAnimationSampler {
    GltfAnimationSampler {
        input: vec![s(0.0), s(1.0)],
        output: vec![[0.0, 0.0, 0.0, 0.0].map(s), [2.0, 4.0, 6.0, 0.0].map(s)],
        output_components: 3,
        interpolation,
    }
}

fn check_sampling() {
    let linear = sampler(Interpolation::Linear);
    let at = |time: f32| linear.sample(s(time), no_sines()).unwrap().map(n);
    assert_eq!(at(0.0), [0.0, 0.0, 0.0, 0.0]);
    assert_eq!(at(1.0), [2.0, 4.0, 6.0, 0.0]);
    assert_eq!(at(0.5), [1.0, 2.0, 3.0, 0.0]);
    let step = sampler(Interpolation::Step);
    assert_eq!(step.sample(s(0.5), no_sines()).unwrap().map(n), [0.0, 0.0, 0.0, 0.0]);
}

#[test]
fn gltf_animation_sampling_covers_exact_between_and_step_times() {
    check_sampling();
}

#[test]
fn tests_animation_sampling_covers_exact_between_and_step_times() {
    check_sampling();
}

#[test]
fn morph_blend_math_uses_production_position_and_normal_path() {
    let base = Mesh::new(
        vec![MeshVertex::new(v3(1.0, 2.0, 3.0), None, Some(v3(0.0, 0.0, 1.0)))],
        Vec::new(),
    );
    let targets = vec![
        MorphTarget::new(vec![v3(1.0, 0.0, 0.0)], Some(vec![v3(1.0, 0.0, 0.0)])).unwrap(),
        MorphTarget::new(vec![v3(0.0, 2.0, 0.0)], Some(vec![v3(0.0, 1.0, 0.0)])).unwrap(),
    ];
    let blended = blend_morph_targets(&base, &targets, &[s(0.3), s(0.7)]).unwrap();
    assert_eq!(blended.vertex(0).unwrap().position(), v3(1.3, 3.4, 3.0));
    let expected_length = (0.3_f32 * 0.3 + 0.7 * 0.7 + 1.0).sqrt();
    let normal = blended.vertex(0).unwrap().normal().unwrap();
    assert!((n(normal.x) - 0.3 / expected_length).abs() < 1.0e-6);
    assert!((n(normal.y) - 0.7 / expected_length).abs() < 1.0e-6);
    assert!((n(normal.z) - 1.0 / expected_length).abs() < 1.0e-6);
}

#[test]
fn morph_zero_and_one_weights_are_exact_identities() {
    let base = Mesh::new(vec![MeshVertex::new(v3(1.0, 2.0, 3.0), None, None)], Vec::new());
    let target = [MorphTarget::new(vec![v3(4.0, 5.0, 6.0)], None).unwrap()];
    let zero = blend_morph_targets(&base, &target, &[s(0.0)]).unwrap();
    let one = blend_morph_targets(&base, &target, &[s(1.0)]).unwrap();
    assert_eq!(zero, base);
    assert_eq!(one.vertex(0).unwrap().position(), v3(5.0, 7.0, 9.0));
}

fn base64(bytes: &[u8]) -> String {
    const ALPHABET: &[u8; 64] = b"ABCDEFGHIJKLMNOPQRSTUVWXYZabcdefghijklmnopqrstuvwxyz0123456789+/";
    let mut output = String::new();
    for chunk in bytes.chunks(3) {
        let first = chunk[0];
        let second = chunk.get(1).copied().unwrap_or(0);
        let third = chunk.get(2).copied().unwrap_or(0);
        output.push(ALPHABET[(first >> 2) as usize] as char);
        output.push(ALPHABET[((first & 3) << 4 | second >> 4) as usize] as char);
        output.push(if chunk.len() > 1 {
            ALPHABET[((second & 15) << 2 | third >> 6) as usize] as char
        } else {
            '='
        });
        output.push(if chunk.len() > 2 { ALPHABET[(third & 63) as usize] as char } else { '=' });
    }
    output
}

fn morph_animation_json() -> String {
    let mut bytes = Vec::new();
    let rows: [[f32; 3]; 12] = [
        [0.0, 0.0, 0.0],
        [1.0, 0.0, 0.0],
        [0.0, 1.0, 0.0],
        [1.0, 0.0, 0.0],
        [1.0, 0.0, 0.0],
        [1.0, 0.0, 0.0],
        [0.0, 1.0, 0.0],
        [0.0, 1.0, 0.0],
        [0.0, 1.0, 0.0],
        [0.0, 0.0, 1.0],
        [0.0, 0.0, 1.0],
        [0.0, 0.0, 1.0],
    ];
    for value in rows.into_iter().flatten() {
        bytes.extend_from_slice(&value.to_le_bytes());
    }
    for value in [0.0_f32, 1.0] {
        bytes.extend_from_slice(&value.to_le_bytes());
    }
    for value in [0.0_f32, 0.0, 0.0, 1.0, 1.0, 1.0] {
        bytes.extend_from_slice(&value.to_le_bytes());
    }
    format!(
        r#"{{"asset":{{"version":"2.0"}},"buffers":[{{"uri":"data:application/octet-stream;base64,{}","byteLength":{}}}],"bufferViews":[{{"buffer":0,"byteLength":{}}}],"accessors":[{{"bufferView":0,"componentType":5126,"count":3,"type":"VEC3"}},{{"bufferView":0,"byteOffset":36,"componentType":5126,"count":3,"type":"VEC3"}},{{"bufferView":0,"byteOffset":72,"componentType":5126,"count":3,"type":"VEC3"}},{{"bufferView":0,"byteOffset":108,"componentType":5126,"count":3,"type":"VEC3"}},{{"bufferView":0,"byteOffset":144,"componentType":5126,"count":2,"type":"SCALAR"}},{{"bufferView":0,"byteOffset":152,"componentType":5126,"count":6,"type":"SCALAR"}}],"meshes":[{{"weights":[0.2,0.4,0.1],"primitives":[{{"attributes":{{"POSITION":0}},"targets":[{{"POSITION":1}},{{"POSITION":2}},{{"POSITION":3}}]}}]}}],"nodes":[{{"mesh":0}}],"scenes":[{{"nodes":[0]}}],"scene":0,"animations":[{{"samplers":[{{"input":4,"output":5}}],"channels":[{{"sampler":0,"target":{{"node":0,"path":"weights"}}}}]}}]}}"#,
        base64(&bytes),
        bytes.len(),
        bytes.len(),
    )
}

fn first_position(mesh: &Mesh) -> [f32; 3] {
    let position = mesh.vertex(0).unwrap().position();
    [n(position.x), n(position.y), n(position.z)]
}

#[test]
fn gltf_morph_targets_and_weight_animation_follow_spec_layout() {
    let asset = GltfAsset::from_str(&morph_animation_json(), &[]).unwrap();
    let primitive = &asset.meshes[0].primitives[0];
    assert_eq!(primitive.morph_targets.len(), 3);
    assert_eq!(primitive.morph_targets[0].position_deltas[0], v3(1.0, 0.0, 0.0));
    assert_eq!(primitive.morph_targets[1].position_deltas[0], v3(0.0, 1.0, 0.0));
    assert_eq!(primitive.morph_targets[2].position_deltas[0], v3(0.0, 0.0, 1.0));
    assert_eq!(primitive.morph_weights(), &[0.2, 0.4, 0.1].map(s));
    let weights = |time: f32| -> Vec<f32> {
        let sampled = asset.sample_morph_weights(Some(0), s(time), 0, 0, 0).unwrap();
        sampled.into_iter().map(n).collect()
    };
    assert_eq!(weights(0.0), [0.0, 0.0, 0.0]);
    assert_eq!(weights(0.5), [0.5, 0.5, 0.5]);
    assert_eq!(weights(1.0), [1.0, 1.0, 1.0]);
    let sines = all_sines(&asset, Some(0), 0.5);
    let posed = asset
        .pose_mesh_with_weights(0, 0, 0, Some(0), s(0.5), &sines, &[0.3, 0.7, 0.2].map(s))
        .unwrap();
    assert_eq!(first_position(&posed), [0.3, 0.7, 0.2]);
    let draws = asset.scene_draws(0, Some(0), s(0.5), &sines).unwrap();
    assert_eq!(first_position(&draws[0].mesh), [0.5, 0.5, 0.5]);
}

#[test]
fn morph_setters_sanitize_immediately() {
    let mut asset = GltfAsset::from_str(&morph_animation_json(), &[]).unwrap();
    let primitive = &mut asset.meshes[0].primitives[0];
    primitive.set_morph_weights(&[s(f32::NAN), s(f32::INFINITY), s(2.0)]).unwrap();
    assert_eq!(primitive.morph_weights(), &[0.0, 0.0, 1.0].map(s));
    primitive.set_morph_weight(1, s(2.0)).unwrap();
    assert_eq!(primitive.morph_weights(), &[0.0, 1.0, 1.0].map(s));
    assert!(primitive.set_morph_weights(&[s(0.0)]).is_err());
    assert!(primitive.set_morph_weight(3, s(0.0)).is_err());
}

#[test]
fn node_weights_override_mesh_defaults_until_animation_is_active() {
    let source = morph_animation_json().replace(
        "\"nodes\":[{\"mesh\":0}]",
        "\"nodes\":[{\"mesh\":0,\"weights\":[0.9,0.1,0.0]}]",
    );
    let asset = GltfAsset::from_str(&source, &[]).unwrap();
    let draws = asset.scene_draws(0, None, s(0.0), &[]).unwrap();
    assert_eq!(first_position(&draws[0].mesh), [0.9, 0.1, 0.0]);
    let sines = all_sines(&asset, Some(0), 0.5);
    let animated = asset.scene_draws(0, Some(0), s(0.5), &sines).unwrap();
    assert_eq!(first_position(&animated[0].mesh), [0.5, 0.5, 0.5]);
}

#[test]
fn malformed_morph_inputs_return_errors_without_panicking() {
    let missing_accessor = morph_animation_json().replace("\"POSITION\":2", "\"POSITION\":99");
    assert!(GltfAsset::from_str(&missing_accessor, &[]).is_err());
    let wrong_target_count =
        morph_animation_json().replace("\"weights\":[0.2,0.4,0.1]", "\"weights\":[0.2]");
    assert!(GltfAsset::from_str(&wrong_target_count, &[]).is_err());
    let wrong_node_weights = morph_animation_json().replace(
        "\"nodes\":[{\"mesh\":0}]",
        "\"nodes\":[{\"mesh\":0,\"weights\":[0.9,0.1]}]",
    );
    assert!(GltfAsset::from_str(&wrong_node_weights, &[]).is_err());
    let wrong_delta_count = morph_animation_json().replace(
        "\"byteOffset\":36,\"componentType\":5126,\"count\":3",
        "\"byteOffset\":36,\"componentType\":5126,\"count\":2",
    );
    assert!(GltfAsset::from_str(&wrong_delta_count, &[]).is_err());
}

/// An arm of two bones: the second turns by a quarter around its elbow within a second.
fn arm_json() -> String {
    let mut bytes = Vec::new();
    let mut push = |values: &[f32]| {
        for value in values {
            bytes.extend_from_slice(&value.to_le_bytes());
        }
    };
    push(&[0.0, 0.0, 0.0, 0.0, 1.0, 0.0, 1.0, 1.0, 0.0]);
    push(&[1.0, 0.0, 0.0, 0.0, 1.0, 0.0, 0.0, 0.0, 1.0, 0.0, 0.0, 0.0]);
    let identity = [
        1.0, 0.0, 0.0, 0.0, 0.0, 1.0, 0.0, 0.0, 0.0, 0.0, 1.0, 0.0, 0.0, 0.0, 0.0, 1.0,
    ];
    push(&identity);
    let mut bind = identity;
    bind[13] = -1.0;
    push(&bind);
    push(&[0.0, 1.0]);
    let half = FRAC_PI_2 / 2.0;
    push(&[0.0, 0.0, 0.0, 1.0, 0.0, 0.0, half.sin(), half.cos()]);
    bytes.extend_from_slice(&[0, 0, 0, 0, 0, 0, 0, 0, 1, 0, 0, 0]);
    format!(
        r#"{{"asset":{{"version":"2.0"}},"buffers":[{{"uri":"data:application/octet-stream;base64,{}","byteLength":{}}}],"bufferViews":[{{"buffer":0,"byteLength":{}}}],"accessors":[{{"bufferView":0,"componentType":5126,"count":3,"type":"VEC3"}},{{"bufferView":0,"byteOffset":36,"componentType":5126,"count":3,"type":"VEC4"}},{{"bufferView":0,"byteOffset":84,"componentType":5126,"count":2,"type":"MAT4"}},{{"bufferView":0,"byteOffset":212,"componentType":5126,"count":2,"type":"SCALAR"}},{{"bufferView":0,"byteOffset":220,"componentType":5126,"count":2,"type":"VEC4"}},{{"bufferView":0,"byteOffset":252,"componentType":5121,"count":3,"type":"VEC4"}}],"meshes":[{{"primitives":[{{"attributes":{{"POSITION":0,"WEIGHTS_0":1,"JOINTS_0":5}}}}]}}],"nodes":[{{"mesh":0,"skin":0}},{{"children":[2]}},{{"translation":[0,1,0]}}],"skins":[{{"joints":[1,2],"inverseBindMatrices":2}}],"scenes":[{{"nodes":[0,1]}}],"animations":[{{"samplers":[{{"input":3,"output":4}}],"channels":[{{"sampler":0,"target":{{"node":2,"path":"rotation"}}}}]}}]}}"#,
        base64(&bytes),
        bytes.len(),
        bytes.len(),
    )
}

#[test]
fn skinned_vertices_follow_their_joints() {
    let asset = GltfAsset::from_str(&arm_json(), &[]).unwrap();
    let hand = |time: f32| {
        let sines = all_sines(&asset, Some(0), time);
        let posed = asset.pose_mesh(0, 0, 0, Some(0), s(time), &sines).unwrap();
        let position = posed.vertex(2).unwrap().position();
        [n(position.x), n(position.y), n(position.z)]
    };
    assert_eq!(hand(0.0), [1.0, 1.0, 0.0]);
    let turned = hand(1.0);
    assert!(turned[0].abs() < 1e-5 && (turned[1] - 2.0).abs() < 1e-5, "{turned:?}");
    let between = hand(0.5);
    let eighth = (FRAC_PI_2 / 2.0).cos();
    assert!((between[0] - eighth).abs() < 1e-5 && (between[1] - 1.0 - eighth).abs() < 1e-5);
}

#[test]
fn parses_values_and_escapes() {
    let number = |value: f64| Value::Number(Float64 { bits: value.to_bits() });
    assert_eq!(
        parse(r#"{"a":[true,null,-1.25e2],"s":"a\n\u263a"}"#).unwrap(),
        Value::Object(vec![
            ("a".into(), Value::Array(vec![Value::Bool(true), Value::Null, number(-125.0)])),
            ("s".into(), Value::String("a\n☺".into())),
        ])
    );
    assert_eq!(parse(r#""\uD83D\uDE00""#).unwrap(), Value::String("😀".into()));
}

#[test]
fn json_errors_name_their_offset() {
    let error = parse("{\"a\":tru}").unwrap_err();
    assert!(error.to_text().contains(&error.offset.to_string()));
    assert!(parse("\"\\ud800\"").is_err());
    assert_eq!(parse(" \"é\" ").unwrap(), Value::String("é".into()));
    for text in ["0.1", "-2.5e-7", "1e308", "123456789012345678", "4.9e-324"] {
        let expected: f64 = text.parse().unwrap();
        assert_eq!(parse(text).unwrap(), Value::Number(Float64 { bits: expected.to_bits() }));
    }
}

#[test]
fn unsupported_documents_say_why() {
    let version = r#"{"asset":{"version":"1.0"}}"#;
    let error = GltfAsset::from_str(version, &[]).unwrap_err();
    assert_eq!(error.to_text(), "unsupported glTF version 1.0");
    let broken = GltfAsset::from_str("[}", &[]).unwrap_err();
    assert_eq!(broken.offset, Some(1));
    assert!(GltfAsset::from_str("[]", &[]).is_err());
}

#[test]
fn white_space_around_a_value_changes_nothing() {
    for source in ["null", "-12.5", "\"a b\"", "[1,2]", "{\"k\":[]}"] {
        let spaced = format!(" \t\r\n{source}\n ");
        assert_eq!(parse(&spaced).unwrap(), parse(source).unwrap());
    }
}

#[test]
fn lists_and_objects_hold_what_they_are_made_of() {
    let (first, second) = ("[true]", "{\"a\":null}");
    let list = parse(&format!("[{first},{second}]")).unwrap();
    assert_eq!(list, Value::Array(vec![parse(first).unwrap(), parse(second).unwrap()]));
    assert!(parse(&format!("[{first},]")).is_err());
    assert!(parse(&format!("[{first},{second},]")).is_err());
    assert_eq!(parse("[]").unwrap(), Value::Array(Vec::new()));
    let object = parse(&format!("{{ \"k\\u0065y\" :{second},\"é\":{first}}}")).unwrap();
    let members =
        vec![("key".into(), parse(second).unwrap()), ("é".into(), parse(first).unwrap())];
    assert_eq!(object, Value::Object(members));
}

#[test]
fn nodes_without_a_skin_are_posed_at_any_time() {
    let mut asset = GltfAsset::from_str(&arm_json(), &[]).unwrap();
    asset.nodes[0].skin = None;
    let still = asset.pose_mesh(0, 0, 0, None, s(0.0), &[]).unwrap();
    let posed = asset.pose_mesh(0, 0, 0, Some(0), s(f32::NAN), &[]).unwrap();
    assert_eq!(first_position(&posed), first_position(&still));
    let weighted =
        asset.pose_mesh_with_weights(0, 0, 0, Some(0), s(f32::NAN), &[], &[]).unwrap();
    assert_eq!(first_position(&weighted), first_position(&still));
    assert!(asset.can_be_animated(Some(0), s(0.5)));
    assert!(asset.can_be_weighed(Some(0), s(f32::NAN), 0, 0, 0));
}

#[test]
fn every_draw_has_the_same_light() {
    let clear = material(v4(1.0, 1.0, 1.0, 0.25), 0.0, 0.5, GltfAlphaMode::Blend);
    let lighting = draw_lighting(clear.render_parameters());
    let length = (0.4f32 * 0.4 + 0.8 * 0.8 + 0.6 * 0.6).sqrt();
    assert_eq!(lighting.direction, v3(-0.4 / length, -0.8 / length, -0.6 / length));
    assert_eq!(lighting.color, v3(1.0, 0.95, 0.9));
    assert_eq!(lighting.ambient, v3(0.1, 0.1, 0.1));
    assert_eq!(lighting.point_color, v3(0.0, 0.0, 0.0));
    assert_eq!(lighting.attenuation, v3(1.0, 0.0, 0.0));
    assert_eq!(lighting.alpha, s(0.25));
}

#[test]
fn unreadable_buffers_name_their_path_and_images_do_not() {
    let file = |uri: &str| FileContent {
        uri: uri.to_string(),
        path: format!("/root/{uri}"),
        located: Ok(uri.rsplit('.').next().unwrap().to_string()),
        data: Err("is gone".to_string()),
    };
    let buffer = r#"{"asset":{"version":"2.0"},"buffers":[{"uri":"a.bin","byteLength":1}],"bufferViews":[],"accessors":[]}"#;
    let error = GltfAsset::from_str(buffer, &[file("a.bin")]).unwrap_err();
    assert_eq!(error.to_text(), "buffer /root/a.bin: is gone");
    let image = r#"{"asset":{"version":"2.0"},"buffers":[],"bufferViews":[],"accessors":[],"images":[{"uri":"a.qoi"}]}"#;
    let error = GltfAsset::from_str(image, &[file("a.qoi")]).unwrap_err();
    assert_eq!(error.to_text(), "is gone");
}
