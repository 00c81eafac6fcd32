use chimy2::clip::{
    clip_triangle, clip_triangle_near, cull_backface, inside_near, is_front_facing, ndc_signed_area,
    ClipPoint, ClippedTriangles, EdgeShare,
};
use chimy2::float::Float32;
use chimy2::math::Vec4;

fn s(value: f32) -> Float32 {
    Float32 { bits: value.to_bits() }
}

fn n(value: Float32) -> f32 {
    f32::from_bits(value.bits)
}

fn v4(x: f32, y: f32, z: f32, w: f32) -> Vec4 {
    Vec4::new(s(x), s(y), s(z), s(w))
}

fn vertex(x: f32, y: f32, z: f32) -> Vec4 {
    v4(x, y, z, 1.0)
}

/// What a vertex carries, mixed as the clipped triangles say.
fn varying(clipped: &ClippedTriangles, values: [f32; 3], point: ClipPoint) -> f32 {
    match point {
        ClipPoint::Corner(index) => values[index],
        ClipPoint::Crossing(index) => {
            let (start, end) = (values[index], values[(index + 1) % 3]);
            match clipped.source.shares[index] {
                EdgeShare::Start => start,
                EdgeShare::End => end,
                EdgeShare::Between(share) => start * (1.0 - n(share)) + end * n(share),
            }
        }
    }
}

fn all_positions(clipped: &ClippedTriangles) -> Vec<Vec4> {
    (0..clipped.len()).flat_map(|index| clipped.positions(index)).collect()
}

#[test]
fn near_plane_keeps_triangle_inside() {
    let result = clip_triangle_near([
        vertex(-1.0, -1.0, 0.0),
        vertex(1.0, -1.0, 0.0),
        vertex(0.0, 1.0, 0.0),
    ]);
    assert_eq!(result.len(), 1);
    assert!(!result.is_empty());
    assert_eq!(
        result.triangles[0]
            .iter()
            .map(|&point| varying(&result, [1.0, 2.0, 3.0], point))
            .collect::<Vec<_>>(),
        vec![2.0, 3.0, 1.0]
    );
}

#[test]
fn near_plane_turns_one_outside_vertex_into_two_triangles() {
    let result = clip_triangle_near([
        v4(-1.0, -1.0, -2.0, 1.0),
        vertex(1.0, -1.0, 0.0),
        vertex(0.0, 1.0, 0.0),
    ]);
    assert_eq!(result.len(), 2);
    assert!(all_positions(&result).into_iter().all(inside_near));
    assert!(all_positions(&result)
        .into_iter()
        .any(|position| (n(position.z) + n(position.w)).abs() < 1e-5));
}

#[test]
fn near_plane_discards_triangle_outside() {
    let result = clip_triangle_near([
        vertex(-1.0, -1.0, -2.0),
        vertex(1.0, -1.0, -2.0),
        vertex(0.0, 1.0, -2.0),
    ]);
    assert_eq!(result.len(), 0);
    assert!(result.is_empty());
}

#[test]
fn near_plane_on_plane_vertex_emits_one_triangle() {
    let result = clip_triangle([
        vertex(-1.0, -1.0, -1.0),
        vertex(1.0, -1.0, 0.0),
        vertex(0.0, 1.0, 0.0),
    ]);
    assert_eq!(result.len(), 1);
}

#[test]
fn near_plane_one_inside_vertex_emits_one_triangle() {
    let result = clip_triangle([
        vertex(-1.0, -1.0, 0.0),
        vertex(1.0, -1.0, -2.0),
        vertex(0.0, 1.0, -2.0),
    ]);
    assert_eq!(result.len(), 1);
}

#[test]
fn clip_intersection_uses_homogeneous_coordinates() {
    let result = clip_triangle([
        v4(-3.0, -1.0, -2.0, 1.0),
        v4(3.0, 2.0, 0.0, 2.0),
        v4(0.0, 4.0, 0.0, 3.0),
    ]);
    assert_eq!(result.len(), 2);
    assert_close_vec4(result.positions(0)[0], [-1.0, 0.0, -4.0 / 3.0, 4.0 / 3.0]);
    assert_close_vec4(result.positions(1)[2], [-2.25, 0.25, -1.5, 1.5]);
    let values = [10.0, 20.0, 30.0];
    assert!((varying(&result, values, result.triangles[0][0]) - 40.0 / 3.0).abs() < 1e-5);
    assert!((varying(&result, values, result.triangles[1][2]) - 15.0).abs() < 1e-5);
    assert_eq!(result.position(result.triangles[0][0]), result.positions(0)[0]);
}

fn assert_close_vec4(actual: Vec4, expected: [f32; 4]) {
    assert!((n(actual.x) - expected[0]).abs() < 1e-5);
    assert!((n(actual.y) - expected[1]).abs() < 1e-5);
    assert!((n(actual.z) - expected[2]).abs() < 1e-5);
    assert!((n(actual.w) - expected[3]).abs() < 1e-5);
}

#[test]
fn positive_ndc_area_is_front_facing() {
    let triangle = [
        vertex(-1.0, -1.0, 0.0),
        vertex(1.0, -1.0, 0.0),
        vertex(0.0, 1.0, 0.0),
    ];
    assert!(is_front_facing(triangle));
    let reversed = [triangle[0], triangle[2], triangle[1]];
    assert!(cull_backface(reversed));
}

#[test]
fn area_is_twice_that_of_the_triangle_and_none_without_a_place() {
    let triangle = [
        v4(0.0, 0.0, 0.0, 2.0),
        v4(4.0, 0.0, 0.0, 2.0),
        v4(0.0, 6.0, 0.0, 2.0),
    ];
    assert_eq!(ndc_signed_area(triangle), Some(s(6.0)));
    let mut pointless = triangle;
    pointless[1] = v4(1.0, 1.0, 1.0, 0.0);
    assert_eq!(ndc_signed_area(pointless), None);
    assert!(!is_front_facing(pointless));
    assert!(cull_backface(pointless));
}

#[test]
fn corners_on_the_plane_keep_their_position() {
    let result = clip_triangle([
        vertex(-1.0, -1.0, -1.0),
        vertex(1.0, -1.0, -3.0),
        vertex(0.0, 1.0, 0.0),
    ]);
    assert_eq!(result.source.shares[0], EdgeShare::Start);
    assert_eq!(result.source.shares[2], EdgeShare::End);
    assert_eq!(result.source.crossings[0], vertex(-1.0, -1.0, -1.0));
    assert_eq!(result.source.shares[1], EdgeShare::Between(s(2.0 / 3.0)));
}
