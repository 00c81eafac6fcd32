use chimy2::culling::{Aabb, Frustum, Plane};
use chimy2::float::Float32;
use chimy2::math::{Mat4, Vec3};

fn s(value: f32) -> Float32 {
    Float32 { bits: value.to_bits() }
}

fn n(value: Float32) -> f32 {
    f32::from_bits(value.bits)
}

fn v3(x: f32, y: f32, z: f32) -> Vec3 {
    Vec3::new(s(x), s(y), s(z))
}

fn orthographic(left: f32, right: f32, bottom: f32, top: f32, near: f32, far: f32) -> Mat4 {
    Mat4::orthographic(s(left), s(right), s(bottom), s(top), s(near), s(far))
}

fn same(left: Vec3, right: Vec3) -> bool {
    n(left.x) == n(right.x) && n(left.y) == n(right.y) && n(left.z) == n(right.z)
}

#[test]
fn extracts_known_orthographic_planes_from_matrix_rows() {
    let matrix = orthographic(-2.0, 4.0, -3.0, 5.0, 1.0, 9.0);
    let planes = Frustum::from_view_projection(matrix).planes();
    let expected = [
        (v3(1.0, 0.0, 0.0), 2.0),
        (v3(-1.0, 0.0, 0.0), 4.0),
        (v3(0.0, 1.0, 0.0), 3.0),
        (v3(0.0, -1.0, 0.0), 5.0),
        (v3(0.0, 0.0, -1.0), -1.0),
        (v3(0.0, 0.0, 1.0), 9.0),
    ];
    for (plane, (normal, distance)) in planes.into_iter().zip(expected) {
        assert!(same(plane.normal(), normal));
        assert!((n(plane.distance()) - distance).abs() < 1.0e-5);
    }
}

#[test]
fn culling_keeps_straddling_and_culls_fully_outside_bounds() {
    let frustum = Frustum::from_view_projection(orthographic(-1.0, 1.0, -1.0, 1.0, 1.0, 5.0));
    let straddling = Aabb::new(v3(-1.2, -0.25, -2.0), v3(0.25, 0.25, -1.5));
    assert!(frustum.intersects_aabb(straddling, Mat4::identity()));
    let outside = Aabb::new(v3(1.1, -0.1, -2.0), v3(1.5, 0.1, -1.5));
    assert!(!frustum.intersects_aabb(outside, Mat4::identity()));
}

#[test]
fn boxes_hold_and_touch_their_points() {
    let bounds = Aabb::from_positions(&[v3(1.0, -2.0, 3.0), v3(-4.0, 5.0, 0.5), v3(0.0, 0.0, 9.0)]);
    assert_eq!(bounds.min(), v3(-4.0, -2.0, 0.5));
    assert_eq!(bounds.max(), v3(1.0, 5.0, 9.0));
    assert_eq!(Aabb::from_positions(&[]), Aabb::empty());
    assert_eq!(bounds.corners()[0], bounds.min());
    assert_eq!(bounds.corners()[7], bounds.max());
    assert_eq!(bounds.corners()[1], v3(1.0, -2.0, 0.5));
    assert_eq!(bounds.corners()[4], v3(-4.0, -2.0, 9.0));
}

#[test]
fn boxes_without_a_place_are_kept() {
    let frustum = Frustum::from_view_projection(orthographic(-1.0, 1.0, -1.0, 1.0, 1.0, 5.0));
    let far_away = Aabb::new(v3(50.0, 50.0, 50.0), v3(51.0, 51.0, 51.0));
    assert!(!frustum.intersects_aabb(far_away, Mat4::identity()));
    let mut flat = Mat4::identity();
    flat.data[15] = s(0.0);
    assert!(frustum.intersects_aabb(far_away, flat));
}

#[test]
fn signed_distance_adds_the_offset_of_the_plane() {
    let plane = Plane::new(v3(0.0, 2.0, 0.0), s(-3.0));
    assert_eq!(plane.signed_distance(v3(7.0, 4.0, 1.0)), s(5.0));
}

#[test]
fn included_bounds_move_the_planes_outward() {
    let matrix = orthographic(-1.0, 1.0, -1.0, 1.0, 1.0, 5.0);
    let outside = Aabb::new(v3(1.5, -0.5, -2.0), v3(3.0, 0.5, -1.5));
    let plain = Frustum::from_view_projection(matrix);
    assert!(!plain.intersects_aabb(outside, Mat4::identity()));
    let widened =
        Frustum::from_view_projection_including_bounds(matrix, &[(outside, Mat4::identity())]);
    assert!(widened.intersects_aabb(outside, Mat4::identity()));
    assert_eq!(n(widened.planes()[1].distance()), 3.0);
    assert_eq!(widened.planes()[0], plain.planes()[0]);
    let moved = Mat4::translate(v3(2.0, 0.0, 0.0));
    let farther = Frustum::from_view_projection_including_bounds(matrix, &[(outside, moved)]);
    assert_eq!(n(farther.planes()[1].distance()), 5.0);
}
