use chimy2::collapse::{QuadricRule, SimplifyOptions, SphereProjection};
use chimy2::culling::Aabb;
use chimy2::float::Float32;
use chimy2::gltf::document::GltfAsset;
use chimy2::gltf::sampling::Sines;
use chimy2::lod::{
    projected_screen_extent, projection_row_norms, simplify_qem, simplify_qem_with_options,
    LodMesh, LodSelection,
};
use chimy2::math::{Mat4, Vec3};
use chimy2::mesh::{Mesh, MeshVertex};
use chimy2::qem::{consistent_orientation_center, find_reach, Quadric};
use chimy2::topology::unique_edges;
use std::collections::BTreeMap;

fn s(value: f32) -> Float32 {
    Float32 { bits: value.to_bits() }
}

fn n(value: Float32) -> f32 {
    f32::from_bits(value.bits)
}

fn v3(x: f32, y: f32, z: f32) -> Vec3 {
    Vec3::new(s(x), s(y), s(z))
}

fn subdivided_octahedron(levels: usize) -> Mesh {
    let mut vertices = vec![
        v3(0.0, 1.0, 0.0),
        v3(1.0, 0.0, 0.0),
        v3(0.0, 0.0, 1.0),
        v3(-1.0, 0.0, 0.0),
        v3(0.0, 0.0, -1.0),
        v3(0.0, -1.0, 0.0),
    ];
    let mut triangles = vec![
        [0, 2, 1],
        [0, 3, 2],
        [0, 4, 3],
        [0, 1, 4],
        [5, 1, 2],
        [5, 2, 3],
        [5, 3, 4],
        [5, 4, 1],
    ];
    for _ in 0..levels {
        let mut midpoint_cache = BTreeMap::new();
        let mut next = Vec::with_capacity(triangles.len() * 4);
        for [a, b, c] in triangles {
            let midpoint = |left: usize,
                            right: usize,
                            vertices: &mut Vec<Vec3>,
                            cache: &mut BTreeMap<(usize, usize), usize>| {
                let edge = if left < right {
                    (left, right)
                } else {
                    (right, left)
                };
                if let Some(&index) = cache.get(&edge) {
                    return index;
                }
                let index = vertices.len();
                vertices.push((vertices[left] + vertices[right]).normalize());
                cache.insert(edge, index);
                index
            };
            let ab = midpoint(a, b, &mut vertices, &mut midpoint_cache);
            let bc = midpoint(b, c, &mut vertices, &mut midpoint_cache);
            let ca = midpoint(c, a, &mut vertices, &mut midpoint_cache);
            next.extend_from_slice(&[[a, ab, ca], [ab, b, bc], [ca, bc, c], [ab, bc, ca]]);
        }
        triangles = next;
    }
    Mesh::new(
        vertices
            .into_iter()
            .map(|position| MeshVertex::new(position, None, None))
            .collect(),
        triangles,
    )
}

fn cube_mesh() -> Mesh {
    let positions = [
        (-1.0, -1.0, -1.0),
        (1.0, -1.0, -1.0),
        (1.0, 1.0, -1.0),
        (-1.0, 1.0, -1.0),
        (-1.0, -1.0, 1.0),
        (1.0, -1.0, 1.0),
        (1.0, 1.0, 1.0),
        (-1.0, 1.0, 1.0),
    ]
    .map(|(x, y, z)| MeshVertex::new(v3(x, y, z), None, None))
    .to_vec();
    Mesh::new(
        positions,
        vec![
            [0, 2, 1],
            [0, 3, 2],
            [4, 5, 6],
            [4, 6, 7],
            [0, 4, 7],
            [0, 7, 3],
            [1, 2, 6],
            [1, 6, 5],
            [0, 1, 5],
            [0, 5, 4],
            [3, 7, 6],
            [3, 6, 2],
        ],
    )
}

fn cylinder_mesh(sides: usize) -> Mesh {
    let mut vertices = Vec::with_capacity(sides * 2 + 2);
    for z in [-1.0, 1.0] {
        for side in 0..sides {
            let angle = side as f32 * std::f32::consts::TAU / sides as f32;
            vertices.push(MeshVertex::new(v3(angle.cos(), angle.sin(), z), None, None));
        }
    }
    let bottom_center = vertices.len();
    vertices.push(MeshVertex::new(v3(0.0, 0.0, -1.0), None, None));
    let top_center = vertices.len();
    vertices.push(MeshVertex::new(v3(0.0, 0.0, 1.0), None, None));
    let mut triangles = Vec::with_capacity(sides * 4);
    for side in 0..sides {
        let next = (side + 1) % sides;
        let bottom = side;
        let bottom_next = next;
        let top = sides + side;
        let top_next = sides + next;
        triangles.extend_from_slice(&[
            [bottom, bottom_next, top_next],
            [bottom, top_next, top],
            [bottom_center, bottom_next, bottom],
            [top_center, top, top_next],
        ]);
    }
    Mesh::new(vertices, triangles)
}

fn corners(mesh: &Mesh, triangle: [usize; 3]) -> [Vec3; 3] {
    triangle.map(|index| mesh.vertex(index).unwrap().position())
}

fn assert_simplified_shape(source: Mesh, target: usize, closed: bool) {
    let center = consistent_orientation_center(&source);
    let simplified = simplify_qem(&source, target);
    assert_eq!(simplified.indices().len(), target);
    for &triangle in simplified.indices() {
        let [pa, pb, pc] = corners(&simplified, triangle);
        let normal = (pb - pa).cross(pc - pa);
        assert!(n(normal.length()) > 0.0);
        if closed {
            let (center, outward_sign) = center.unwrap();
            assert_eq!(
                n(normal.dot((pa + pb + pc) / s(3.0) - center)).is_sign_positive(),
                outward_sign
            );
        }
    }
}

#[test]
fn qem_evaluation_matches_plane_equations() {
    let axis_aligned = Quadric::from_plane(v3(1.0, 0.0, 0.0), s(-1.0));
    assert_eq!(n(axis_aligned.evaluate(v3(1.0, 7.0, -3.0))), 0.0);
    assert_eq!(n(axis_aligned.evaluate(v3(0.0, 7.0, -3.0))), 1.0);

    let oblique = Quadric::from_plane(v3(1.0, 2.0, 3.0), s(-4.0));
    assert_eq!(n(oblique.evaluate(v3(4.0, 0.0, 0.0))), 0.0);
    assert_eq!(n(oblique.evaluate(v3(0.0, 0.0, 0.0))), 16.0);
    let combined = axis_aligned + oblique;
    assert_eq!(n(combined.evaluate(v3(1.0, 1.0, 1.0))), 4.0);
}

#[test]
fn projected_extent_uses_render_projection_and_pixel_radius() {
    let bounds = Aabb::new(v3(-0.5, 0.0, 0.0), v3(0.5, 0.0, 0.0));
    let projection = Mat4::perspective(s(2.0), s(1.0), s(0.1), s(100.0));
    let extent = projected_screen_extent(
        bounds,
        Mat4::identity(),
        projection,
        Mat4::translate(v3(0.0, 0.0, -10.0)),
        100,
        100,
    );
    assert_eq!(extent, s(10.0));
    assert_eq!(projection_row_norms(projection), (s(2.0), s(2.0)));
    let behind = projected_screen_extent(
        bounds,
        Mat4::identity(),
        projection,
        Mat4::translate(v3(0.0, 0.0, 10.0)),
        100,
        100,
    );
    assert_eq!(behind, s(f32::INFINITY));
}

fn base64(bytes: &[u8]) -> String {
    let alphabet = b"ABCDEFGHIJKLMNOPQRSTUVWXYZabcdefghijklmnopqrstuvwxyz0123456789+/";
    let mut output = String::new();
    for chunk in bytes.chunks(3) {
        let byte = |index: usize| u32::from(chunk.get(index).copied().unwrap_or(0));
        let group = byte(0) << 16 | byte(1) << 8 | byte(2);
        for place in 0..4 {
            if place <= chunk.len() {
                output.push(alphabet[(group >> (18 - 6 * place) & 63) as usize] as char);
            } else {
                output.push('=');
            }
        }
    }
    output
}

/// A quad with a pointed end on two joints, whose end an animation turns.
fn posed_arm() -> Mesh {
    let mut bytes = Vec::new();
    let mut push = |values: &[f32]| {
        for value in values {
            bytes.extend_from_slice(&value.to_le_bytes());
        }
    };
    push(&[-0.25, 0.0, 0.0, 0.25, 0.0, 0.0, -0.25, 1.0, 0.0, 0.25, 1.0, 0.0, -0.25, 2.0, 0.0]);
    for weights in [[1.0, 0.0], [1.0, 0.0], [0.5, 0.5], [0.5, 0.5], [0.0, 1.0]] {
        push(&[weights[0], weights[1], 0.0, 0.0]);
    }
    let identity =
        [1.0, 0.0, 0.0, 0.0, 0.0, 1.0, 0.0, 0.0, 0.0, 0.0, 1.0, 0.0, 0.0, 0.0, 0.0, 1.0];
    push(&identity);
    let mut bind = identity;
    bind[13] = -1.0;
    push(&bind);
    push(&[0.0, 1.0]);
    let half = std::f32::consts::FRAC_PI_4 / 2.0;
    push(&[0.0, 0.0, 0.0, 1.0, half.sin(), 0.0, 0.0, half.cos()]);
    for _ in 0..5 {
        bytes.extend_from_slice(&[0, 1, 0, 0]);
    }
    bytes.extend_from_slice(&[0, 1, 2, 1, 3, 2, 2, 3, 4]);
    let source = format!(
        r#"{{"asset":{{"version":"2.0"}},"buffers":[{{"uri":"data:application/octet-stream;base64,{}","byteLength":{}}}],"bufferViews":[{{"buffer":0,"byteLength":{}}}],"accessors":[{{"bufferView":0,"componentType":5126,"count":5,"type":"VEC3"}},{{"bufferView":0,"byteOffset":60,"componentType":5126,"count":5,"type":"VEC4"}},{{"bufferView":0,"byteOffset":140,"componentType":5126,"count":2,"type":"MAT4"}},{{"bufferView":0,"byteOffset":268,"componentType":5126,"count":2,"type":"SCALAR"}},{{"bufferView":0,"byteOffset":276,"componentType":5126,"count":2,"type":"VEC4"}},{{"bufferView":0,"byteOffset":308,"componentType":5121,"count":5,"type":"VEC4"}},{{"bufferView":0,"byteOffset":328,"componentType":5121,"count":9,"type":"SCALAR"}}],"meshes":[{{"primitives":[{{"attributes":{{"POSITION":0,"WEIGHTS_0":1,"JOINTS_0":5}},"indices":6}}]}}],"nodes":[{{"mesh":0,"skin":0}},{{"children":[2]}},{{"translation":[0,1,0]}}],"skins":[{{"joints":[1,2],"inverseBindMatrices":2}}],"scenes":[{{"nodes":[0,1]}}],"animations":[{{"samplers":[{{"input":3,"output":4}}],"channels":[{{"sampler":0,"target":{{"node":2,"path":"rotation"}}}}]}}]}}"#,
        base64(&bytes),
        bytes.len(),
        bytes.len(),
    );
    let asset = GltfAsset::from_str(&source, &[]).unwrap();
    let sines = [Sines { whole: s(0.0), first: s(0.0), second: s(0.0) }];
    assert!(asset.turns(Some(0), s(1.0)).iter().all(|turn| turn.is_none()));
    asset.pose_mesh(0, 0, 0, Some(0), s(1.0), &sines).unwrap()
}

#[test]
fn qem_simplifies_sphere_cube_cylinder_and_skinned_inputs() {
    assert_simplified_shape(subdivided_octahedron(2), 32, true);
    assert_simplified_shape(cube_mesh(), 6, true);
    assert_simplified_shape(cylinder_mesh(12), 24, true);
    assert_simplified_shape(posed_arm(), 2, false);
}

#[test]
fn qem_relative_scale_does_not_protect_tiny_spheres() {
    let source = subdivided_octahedron(2);
    let tiny = Mesh::new(
        source
            .vertices()
            .iter()
            .map(|vertex| MeshVertex::new(vertex.position() * s(1.0e-5), None, None))
            .collect(),
        source.indices().to_vec(),
    );
    assert_eq!(simplify_qem(&tiny, 32).indices().len(), 32);
}

#[test]
fn lod_qem_builds_identical_levels_and_hits_targets() {
    let source = subdivided_octahedron(3);
    assert_eq!(
        consistent_orientation_center(&source).map(|(_, sign)| sign),
        Some(true)
    );
    let first = LodMesh::new(source);
    let second = LodMesh::new(subdivided_octahedron(3));
    assert_eq!(first.levels(), second.levels());
    let counts = first
        .levels()
        .iter()
        .map(|mesh| mesh.indices().len())
        .collect::<Vec<_>>();
    assert_eq!(counts[0], 512);
    assert!(counts.windows(2).all(|window| window[0] > window[1]));
    assert!((counts[1] as f32 / counts[0] as f32 - 0.5).abs() <= 0.1);
    assert!((counts[2] as f32 / counts[0] as f32 - 0.25).abs() <= 0.1);
    assert!((counts[3] as f32 / counts[0] as f32 - 0.125).abs() <= 0.1);
    for (level, mesh) in first.levels().iter().enumerate() {
        for &triangle in mesh.indices() {
            let [pa, pb, pc] = corners(mesh, triangle);
            let normal = (pb - pa).cross(pc - pa);
            assert!(
                n(normal.length()) > 0.0,
                "degenerate triangle at level {level}"
            );
            assert!(
                n(normal.dot((pa + pb + pc) / s(3.0))) > 0.0,
                "inward triangle at level {level}: {pa:?} {pb:?} {pc:?} normal {normal:?}"
            );
        }
    }
}

#[test]
fn lod_qem_preserves_sphere_orientation_and_attributes() {
    let source = subdivided_octahedron(2);
    let simplified = simplify_qem(&source, 32);
    for vertex in simplified.vertices() {
        let radius = n(vertex.position().length());
        assert!((radius - 1.0).abs() < 0.2, "radius {radius}");
        assert!(vertex.normal().is_some());
    }
    for (triangle_index, &triangle) in simplified.indices().iter().enumerate() {
        let [pa, pb, pc] = corners(&simplified, triangle);
        let normal = (pb - pa).cross(pc - pa);
        assert!(n(normal.length()) > 0.0);
        assert!(
            n(normal.dot((pa + pb + pc) / s(3.0))) > 0.0,
            "triangle {triangle_index}: {pa:?} {pb:?} {pc:?} normal {normal:?}"
        );
    }
}

#[test]
fn lod_lod_threshold_setter_sanitizes_and_updates_selection() {
    let mut lod = LodMesh::new(subdivided_octahedron(1));
    lod.set_thresholds([f32::NAN, 300.0, -1.0, 100.0].map(s).to_vec());
    assert_eq!(lod.thresholds(), &[s(300.0), s(100.0), s(50.0)]);
    assert_eq!(lod.select_level_for_extent(s(400.0)), 0);
    assert_eq!(lod.select_level_for_extent(s(20.0)), 3);
}

#[test]
fn lod_collapse_rejects_a_face_orientation_flip_without_surface_center() {
    let vertices = vec![
        MeshVertex::new(v3(0.0, 0.0, 0.0), None, None),
        MeshVertex::new(v3(1.0, 0.0, 0.0), None, None),
        MeshVertex::new(v3(0.0, 1.0, 0.0), None, None),
        MeshVertex::new(v3(0.0, 0.0, 1.0), None, None),
    ];
    let triangles = vec![[0, 2, 3]];
    let rule = QuadricRule {
        options: SimplifyOptions::default(),
        orientation: None,
        keep_closed: false,
    };
    let longest = find_reach(&vertices);
    assert!(!rule.judge(&vertices, &triangles, (0, 1), v3(0.0, 2.0, 0.0), longest));
    assert!(rule.judge(&vertices, &triangles, (0, 1), v3(0.5, 0.0, 0.0), longest));
}

#[test]
fn a_sphere_projection_moves_merged_vertices_to_the_sphere() {
    let source = subdivided_octahedron(2);
    let vertices = source.vertices().to_vec();
    let triangles = source.indices().to_vec();
    let (edges, indices) = unique_edges(&triangles);
    assert_eq!(indices, (0..edges.len()).collect::<Vec<_>>());
    let mut rule = QuadricRule {
        options: SimplifyOptions::default(),
        orientation: consistent_orientation_center(&source),
        keep_closed: true,
    };
    let plain = rule.weigh(&vertices, &triangles, &edges);
    assert!(plain.iter().all(|(_, position)| n(position.length()) < 0.99));
    rule.options.sphere_projection =
        Some(SphereProjection::new(v3(0.0, 0.0, 0.0), s(1.0), s(0.001)));
    let projected = rule.weigh(&vertices, &triangles, &edges);
    assert!(projected
        .iter()
        .all(|(_, position)| (n(position.length()) - 1.0).abs() < 1.0e-5));
    rule.options.sphere_projection =
        Some(SphereProjection::new(v3(0.0, 0.0, 0.0), s(-1.0), s(0.001)));
    assert_eq!(rule.weigh(&vertices, &triangles, &edges), plain);
    let unusable = SimplifyOptions {
        sphere_projection: Some(SphereProjection::new(v3(0.0, 0.0, 0.0), s(1.0), s(f32::NAN))),
    };
    assert!(simplify_qem_with_options(&cube_mesh(), 6, unusable).indices().len() <= 12);
}

#[test]
fn small_meshes_stay_as_they_are() {
    let cube = cube_mesh();
    let same = simplify_qem(&cube, 12);
    assert_eq!(same, cube);
}

#[test]
fn extents_select_levels() {
    let lod = LodMesh::new(cube_mesh());
    assert_eq!(lod.level_count(), 4);
    assert_eq!(lod.thresholds(), &[s(256.0), s(128.0), s(64.0)]);
    assert_eq!(lod.original().indices().len(), 12);
    let projection = Mat4::perspective(s(1.0), s(1.0), s(0.1), s(100.0));
    let near = lod.select(
        Mat4::identity(),
        projection,
        Mat4::translate(v3(0.0, 0.0, -2.0)),
        400,
        400,
    );
    let far = lod.select(
        Mat4::identity(),
        projection,
        Mat4::translate(v3(0.0, 0.0, -50.0)),
        400,
        400,
    );
    assert!(near.level() <= far.level());
    assert_eq!(near.level(), 0);
    assert_eq!(far.level(), 3);
    assert!(n(far.screen_extent()) < n(near.screen_extent()));
    assert_eq!(lod.mesh_for(far), lod.level(3).unwrap());
    assert_eq!(lod.mesh_at_level(9), lod.original());
    assert_eq!(lod.mesh_for(LodSelection::at_level(1)), lod.level(1).unwrap());
    assert_eq!(
        lod.select_level(
            Mat4::identity(),
            projection,
            Mat4::translate(v3(0.0, 0.0, -50.0)),
            400,
            400
        ),
        3
    );
    assert!(LodMesh::from_levels(Vec::new(), Vec::new()).is_none());
}

#[test]
fn lod_qem_priority_breaks_equal_errors_by_stable_edge_index() {
    // Every collapse on a flat square costs nothing, so the first edge that may be is chosen.
    let mut vertices = Vec::new();
    for y in 0..3 {
        for x in 0..3 {
            vertices.push(MeshVertex::new(v3(x as f32, y as f32, 0.0), None, None));
        }
    }
    let mut triangles = Vec::new();
    for y in 0..2 {
        for x in 0..2 {
            let corner = y * 3 + x;
            triangles.push([corner, corner + 1, corner + 4]);
            triangles.push([corner, corner + 4, corner + 3]);
        }
    }
    let source = Mesh::new(vertices.clone(), triangles.clone());
    let (edges, _) = unique_edges(&triangles);
    let rule = QuadricRule {
        options: SimplifyOptions::default(),
        orientation: None,
        keep_closed: false,
    };
    let weighed = rule.weigh(&vertices, &triangles, &edges);
    assert!(weighed.iter().all(|(error, _)| n(*error) == 0.0));
    let longest = find_reach(&vertices);
    let first = (0..edges.len())
        .find(|&edge| rule.judge(&vertices, &triangles, edges[edge], weighed[edge].1, longest))
        .unwrap();
    let simplified = simplify_qem(&source, 7);
    let expected = weighed[first].1;
    assert!(simplified
        .vertices()
        .iter()
        .any(|vertex| vertex.position() == expected));
}
