use chimy2::float::Float32;
use chimy2::lod::LodMesh;
use chimy2::math::Vec3;
use chimy2::mesh::{Mesh, MeshVertex};
use chimy2::qem::orientation_center;
use chimy2::round::{simplify_qem, RoundRule};
use chimy2::topology::{is_closed_manifold, unique_edges};
use std::collections::BTreeMap;

fn s(value: f32) -> Float32 {
    Float32 { bits: value.to_bits() }
}

fn n(value: Float32) -> f32 {
    f32::from_bits(value.bits)
}

fn v3(x: f32, y: f32, z: f32) -> Vec3 {
    Vec3::new(s(x), s(y), s(z))
}

fn subdivided_octahedron(levels: usize) -> Mesh {
    let mut vertices = vec![
        v3(0.0, 1.0, 0.0),
        v3(1.0, 0.0, 0.0),
        v3(0.0, 0.0, 1.0),
        v3(-1.0, 0.0, 0.0),
        v3(0.0, 0.0, -1.0),
        v3(0.0, -1.0, 0.0),
    ];
    let mut triangles = vec![
        [0, 2, 1],
        [0, 3, 2],
        [0, 4, 3],
        [0, 1, 4],
        [5, 1, 2],
        [5, 2, 3],
        [5, 3, 4],
        [5, 4, 1],
    ];
    for _ in 0..levels {
        let mut midpoint_cache = BTreeMap::new();
        let mut next = Vec::with_capacity(triangles.len() * 4);
        for [a, b, c] in triangles {
            let midpoint = |left: usize,
                            right: usize,
                            vertices: &mut Vec<Vec3>,
                            cache: &mut BTreeMap<(usize, usize), usize>| {
                let edge = if left < right {
                    (left, right)
                } else {
                    (right, left)
                };
                if let Some(&index) = cache.get(&edge) {
                    return index;
                }
                let index = vertices.len();
                vertices.push((vertices[left] + vertices[right]).normalize());
                cache.insert(edge, index);
                index
            };
            let ab = midpoint(a, b, &mut vertices, &mut midpoint_cache);
            let bc = midpoint(b, c, &mut vertices, &mut midpoint_cache);
            let ca = midpoint(c, a, &mut vertices, &mut midpoint_cache);
            next.extend_from_slice(&[[a, ab, ca], [ab, b, bc], [ca, bc, c], [ab, bc, ca]]);
        }
        triangles = next;
    }
    Mesh::new(
        vertices
            .into_iter()
            .map(|position| MeshVertex::new(position, None, None))
            .collect(),
        triangles,
    )
}

fn corners(mesh: &Mesh, triangle: [usize; 3]) -> [Vec3; 3] {
    triangle.map(|index| mesh.vertex(index).unwrap().position())
}

#[test]
fn mesh_qem_builds_identical_levels_and_hits_targets() {
    let source = subdivided_octahedron(3);
    assert_eq!(
        orientation_center(&source, s(f32::EPSILON)).map(|(_, sign)| sign),
        Some(true)
    );
    let first = LodMesh::round(source);
    let second = LodMesh::round(subdivided_octahedron(3));
    assert_eq!(first.levels(), second.levels());
    let counts = first
        .levels()
        .iter()
        .map(|mesh| mesh.indices().len())
        .collect::<Vec<_>>();
    assert_eq!(counts[0], 512);
    assert!(counts.windows(2).all(|window| window[0] > window[1]));
    assert!((counts[1] as f32 / counts[0] as f32 - 0.5).abs() <= 0.1);
    assert!((counts[2] as f32 / counts[0] as f32 - 0.25).abs() <= 0.1);
    assert!((counts[3] as f32 / counts[0] as f32 - 0.125).abs() <= 0.1);
    for (level, mesh) in first.levels().iter().enumerate() {
        for &triangle in mesh.indices() {
            let [pa, pb, pc] = corners(mesh, triangle);
            let normal = (pb - pa).cross(pc - pa);
            assert!(
                n(normal.length()) > 0.0,
                "degenerate triangle at level {level}"
            );
            assert!(
                n(normal.dot((pa + pb + pc) / s(3.0))) > 0.0,
                "inward triangle at level {level}: {pa:?} {pb:?} {pc:?} normal {normal:?}"
            );
        }
        assert!(is_closed_manifold(mesh.indices()));
    }
}

#[test]
fn mesh_qem_preserves_sphere_orientation_and_attributes() {
    let source = subdivided_octahedron(2);
    let simplified = simplify_qem(&source, 32);
    for vertex in simplified.vertices() {
        let radius = n(vertex.position().length());
        assert!((radius - 1.0).abs() < 0.08, "radius {radius}");
        assert!(vertex.normal().is_some());
    }
    for (triangle_index, &triangle) in simplified.indices().iter().enumerate() {
        let [pa, pb, pc] = corners(&simplified, triangle);
        let normal = (pb - pa).cross(pc - pa);
        assert!(n(normal.length()) > 0.0);
        assert!(
            n(normal.dot((pa + pb + pc) / s(3.0))) > 0.0,
            "triangle {triangle_index}: {pa:?} {pb:?} {pc:?} normal {normal:?}"
        );
    }
}

#[test]
fn mesh_lod_threshold_setter_sanitizes_and_updates_selection() {
    let mut lod = LodMesh::round(subdivided_octahedron(1));
    lod.set_thresholds([f32::NAN, 300.0, -1.0, 100.0].map(s).to_vec());
    assert_eq!(lod.thresholds(), &[s(300.0), s(100.0), s(50.0)]);
    assert_eq!(lod.select_level_for_extent(s(400.0)), 0);
    assert_eq!(lod.select_level_for_extent(s(20.0)), 3);
}

#[test]
fn mesh_qem_priority_breaks_equal_errors_by_stable_edge_index() {
    // Every collapse on a flat square costs nothing, so the first edge that may be is chosen.
    let mut vertices = Vec::new();
    for y in 0..3 {
        for x in 0..3 {
            vertices.push(MeshVertex::new(v3(x as f32, y as f32, 0.0), None, None));
        }
    }
    let mut triangles = Vec::new();
    for y in 0..2 {
        for x in 0..2 {
            let corner = y * 3 + x;
            triangles.push([corner, corner + 1, corner + 4]);
            triangles.push([corner, corner + 4, corner + 3]);
        }
    }
    let source = Mesh::new(vertices.clone(), triangles.clone());
    let (edges, _) = unique_edges(&triangles);
    let rule = RoundRule::of(&source);
    assert_eq!(rule.radius, None);
    let weighed = rule.weigh(&vertices, &triangles, &edges);
    assert!(weighed.iter().all(|(error, _)| n(*error) == 0.0));
    let first = (0..edges.len())
        .find(|&edge| rule.judge(&vertices, &triangles, edges[edge], weighed[edge].1))
        .unwrap();
    assert_eq!(weighed[first].1, vertices[edges[first].0].position());
    let dropped = vertices[edges[first].1].position();
    let simplified = simplify_qem(&source, 7);
    assert!(simplified.indices().len() < triangles.len());
    assert!(simplified.vertices().iter().all(|vertex| vertex.position() != dropped));
}

#[test]
fn mesh_collapse_rejects_a_face_orientation_flip_without_surface_center() {
    let vertices = vec![
        MeshVertex::new(v3(0.0, 0.0, 0.0), None, None),
        MeshVertex::new(v3(1.0, 0.0, 0.0), None, None),
        MeshVertex::new(v3(0.0, 1.0, 0.0), None, None),
        MeshVertex::new(v3(0.0, 0.0, 1.0), None, None),
    ];
    let triangles = vec![[0, 2, 3]];
    let rule = RoundRule { radius: None, orientation: None, keep_closed: false, kept: Vec::new() };
    assert!(!rule.judge(&vertices, &triangles, (0, 1), v3(0.0, 2.0, 0.0)));
    assert!(rule.judge(&vertices, &triangles, (0, 1), v3(0.5, 0.0, 0.0)));
}

#[test]
fn poles_of_a_sphere_stay_where_they_are() {
    let source = subdivided_octahedron(2);
    let rule = RoundRule::of(&source);
    assert_eq!(rule.radius, Some(s(1.0)));
    assert_eq!(rule.kept.iter().filter(|kept| **kept).count(), 6);
    let simplified = simplify_qem(&source, 40);
    for pole in [v3(0.0, 1.0, 0.0), v3(1.0, 0.0, 0.0), v3(0.0, 0.0, -1.0)] {
        assert!(simplified.vertices().iter().any(|vertex| vertex.position() == pole));
    }
}
