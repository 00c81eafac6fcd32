use chimy2::float::{Float32, Float64};
use chimy2::math::{Mat3, Mat4, Quat, Vec2, Vec3, Vec4};
use std::f32::consts::{FRAC_PI_2, PI};

fn s(value: f32) -> Float32 {
    Float32 { bits: value.to_bits() }
}

fn n(value: Float32) -> f32 {
    f32::from_bits(value.bits)
}

fn v2(x: f32, y: f32) -> Vec2 {
    Vec2::new(s(x), s(y))
}

fn v3(x: f32, y: f32, z: f32) -> Vec3 {
    Vec3::new(s(x), s(y), s(z))
}

fn v4(x: f32, y: f32, z: f32, w: f32) -> Vec4 {
    Vec4::new(s(x), s(y), s(z), s(w))
}

fn from_axis_angle(axis: Vec3, angle: f32) -> Quat {
    let half = angle * 0.5;
    Quat::from_axis_angle(axis, s(half.sin()), s(half.cos()))
}

fn rotate(axis: Vec3, angle: f32) -> Mat4 {
    from_axis_angle(axis, angle).to_mat4()
}

fn perspective(fov_y: f32, aspect: f32, near: f32, far: f32) -> Mat4 {
    Mat4::perspective(s(1.0 / (fov_y * 0.5).tan()), s(aspect), s(near), s(far))
}

fn assert_same(actual: Vec4, expected: Vec4) {
    for (actual, expected) in [
        (actual.x, expected.x),
        (actual.y, expected.y),
        (actual.z, expected.z),
        (actual.w, expected.w),
    ] {
        assert_eq!(n(actual), n(expected));
    }
}

fn assert_vec(actual: [f32; 4], expected: [f32; 4]) {
    for (actual, expected) in actual.into_iter().zip(expected) {
        assert!((actual - expected).abs() < 1e-5, "{actual} != {expected}");
    }
}

#[test]
fn vec2_operations() {
    let a = v2(3.0, 4.0);
    let b = v2(2.0, -1.0);
    assert_eq!(a + b, v2(5.0, 3.0));
    assert_eq!(a - b, v2(1.0, 5.0));
    assert_eq!(-b, v2(-2.0, 1.0));
    assert_eq!(a * s(2.0), v2(6.0, 8.0));
    assert_eq!(s(2.0) * a, v2(6.0, 8.0));
    assert_eq!(a * b, v2(6.0, -4.0));
    assert_eq!(a / b, v2(1.5, -4.0));
    assert_eq!(a.dot(b), s(2.0));
    assert_eq!(a.length(), s(5.0));
    assert_eq!(a.normalize(), v2(0.6, 0.8));
}

#[test]
fn vec3_operations() {
    let a = v3(1.0, 2.0, 3.0);
    let b = v3(4.0, -2.0, 1.0);
    assert_eq!(a + b, v3(5.0, 0.0, 4.0));
    assert_eq!(a - b, v3(-3.0, 4.0, 2.0));
    assert_eq!(-a, v3(-1.0, -2.0, -3.0));
    assert_eq!(a * s(2.0), v3(2.0, 4.0, 6.0));
    assert_eq!(a * b, v3(4.0, -4.0, 3.0));
    assert_eq!(a / b, v3(0.25, -1.0, 3.0));
    assert_eq!(a.dot(b), s(3.0));
    assert_eq!(a.cross(b), v3(8.0, 11.0, -10.0));
    assert!((n(a.length()) - 14.0_f32.sqrt()).abs() < 1e-5);
    assert_vec(
        [n(a.normalize().x), n(a.normalize().y), n(a.normalize().z), 0.0],
        [
            1.0 / 14.0_f32.sqrt(),
            2.0 / 14.0_f32.sqrt(),
            3.0 / 14.0_f32.sqrt(),
            0.0,
        ],
    );
    assert_eq!(v3(0.0, 0.0, 0.0).normalize(), v3(0.0, 0.0, 0.0));
}

#[test]
fn vec4_operations() {
    let a = v4(1.0, 2.0, 3.0, 4.0);
    let b = v4(2.0, 1.0, -1.0, 2.0);
    assert_eq!(a + b, v4(3.0, 3.0, 2.0, 6.0));
    assert_eq!(a - b, v4(-1.0, 1.0, 4.0, 2.0));
    assert_eq!(-a, v4(-1.0, -2.0, -3.0, -4.0));
    assert_eq!(a * s(2.0), v4(2.0, 4.0, 6.0, 8.0));
    assert_eq!(a * b, v4(2.0, 2.0, -3.0, 8.0));
    assert_eq!(a / b, v4(0.5, 2.0, -3.0, 2.0));
    assert_eq!(a.dot(b), s(9.0));
    assert!((n(a.length()) - 30.0_f32.sqrt()).abs() < 1e-5);
    assert_vec(
        [
            n(a.normalize().x),
            n(a.normalize().y),
            n(a.normalize().z),
            n(a.normalize().w),
        ],
        [
            1.0 / 30.0_f32.sqrt(),
            2.0 / 30.0_f32.sqrt(),
            3.0 / 30.0_f32.sqrt(),
            4.0 / 30.0_f32.sqrt(),
        ],
    );
}

#[test]
fn mat4_constructors_and_products() {
    let translate = Mat4::translate(v3(2.0, 3.0, 4.0));
    assert_eq!(translate * v4(1.0, 1.0, 1.0, 1.0), v4(3.0, 4.0, 5.0, 1.0));
    assert_eq!(
        Mat4::scale(v3(2.0, 3.0, 4.0)) * v4(1.0, 1.0, 1.0, 1.0),
        v4(2.0, 3.0, 4.0, 1.0)
    );
    assert_eq!(Mat4::identity() * translate, translate);
    let combined = translate * Mat4::scale(v3(2.0, 2.0, 2.0));
    assert_eq!(combined * v4(1.0, 1.0, 1.0, 1.0), v4(4.0, 5.0, 6.0, 1.0));
    let rotated = rotate(v3(0.0, 0.0, 1.0), FRAC_PI_2) * v4(1.0, 0.0, 0.0, 1.0);
    assert_vec(
        [n(rotated.x), n(rotated.y), n(rotated.z), n(rotated.w)],
        [0.0, 1.0, 0.0, 1.0],
    );
    let projection = perspective(FRAC_PI_2, 2.0, 1.0, 11.0);
    assert_vec(
        [
            n(projection.get(0, 0)),
            n(projection.get(1, 1)),
            n(projection.get(2, 2)),
            n(projection.get(3, 2)),
        ],
        [0.5, 1.0, -1.2, -1.0],
    );
    let near_clip = projection * v4(0.0, 0.0, -1.0, 1.0);
    assert_vec(
        [n(near_clip.x), n(near_clip.y), n(near_clip.z), n(near_clip.w)],
        [0.0, 0.0, -1.0, 1.0],
    );
    let far_clip = projection * v4(0.0, 0.0, -11.0, 1.0);
    assert_vec(
        [n(far_clip.x), n(far_clip.y), n(far_clip.z), n(far_clip.w)],
        [0.0, 0.0, 11.0, 11.0],
    );

    let orthographic = Mat4::orthographic(s(-2.0), s(6.0), s(-3.0), s(5.0), s(1.0), s(11.0));
    assert_vec(
        [
            n(orthographic.get(0, 0)),
            n(orthographic.get(1, 1)),
            n(orthographic.get(2, 2)),
            n(orthographic.get(3, 3)),
        ],
        [0.25, 0.25, -0.2, 1.0],
    );
    assert_same(orthographic * v4(-2.0, -3.0, -1.0, 1.0), v4(-1.0, -1.0, -1.0, 1.0));
    assert_same(orthographic * v4(6.0, 5.0, -11.0, 1.0), v4(1.0, 1.0, 1.0, 1.0));
}

#[test]
fn look_at_constructor() {
    let view = Mat4::look_at(v3(0.0, 0.0, 5.0), v3(0.0, 0.0, 0.0), v3(0.0, 1.0, 0.0));
    assert_same(view * v4(0.0, 0.0, 0.0, 1.0), v4(0.0, 0.0, -5.0, 1.0));

    let diagonal = Mat4::look_at(v3(0.0, 0.0, 0.0), v3(1.0, 2.0, 2.0), v3(0.0, 1.0, 0.0));
    let sqrt_5 = 5.0_f32.sqrt();
    assert_vec(
        [
            n(diagonal.get(0, 0)),
            n(diagonal.get(0, 1)),
            n(diagonal.get(0, 2)),
            0.0,
        ],
        [-2.0 / sqrt_5, 0.0, 1.0 / sqrt_5, 0.0],
    );
    assert_vec(
        [
            n(diagonal.get(1, 0)),
            n(diagonal.get(1, 1)),
            n(diagonal.get(1, 2)),
            0.0,
        ],
        [
            -2.0 / (3.0 * sqrt_5),
            5.0 / (3.0 * sqrt_5),
            -4.0 / (3.0 * sqrt_5),
            0.0,
        ],
    );
    assert_vec(
        [
            n(diagonal.get(2, 0)),
            n(diagonal.get(2, 1)),
            n(diagonal.get(2, 2)),
            0.0,
        ],
        [-1.0 / 3.0, -2.0 / 3.0, -2.0 / 3.0, 0.0],
    );
}

#[test]
fn mat4_general_product() {
    let left = Mat4::new(
        [
            1.0, 5.0, 9.0, 13.0, 2.0, 6.0, 10.0, 14.0, 3.0, 7.0, 11.0, 15.0, 4.0, 8.0, 12.0, 16.0,
        ]
        .map(s),
    );
    let right = Mat4::new(
        [
            2.0, 1.0, 0.0, 1.0, 0.0, 2.0, 1.0, 0.0, 1.0, 0.0, 2.0, 1.0, 3.0, 4.0, 5.0, 2.0,
        ]
        .map(s),
    );
    assert_eq!(
        left * right,
        Mat4::new(
            [
                8.0, 24.0, 40.0, 56.0, 7.0, 19.0, 31.0, 43.0, 11.0, 27.0, 43.0, 59.0, 34.0, 90.0,
                146.0, 202.0,
            ]
            .map(s)
        )
    );
}

#[test]
fn normal_matrix_uses_inverse_transpose_for_non_uniform_scale() {
    let model = Mat4::scale(v3(2.0, 3.0, 4.0));
    let normal_matrix = model.normal_matrix().expect("scale is invertible");
    let transformed = normal_matrix * v3(1.0, 1.0, 1.0);
    assert_vec(
        [n(transformed.x), n(transformed.y), n(transformed.z), 0.0],
        [0.5, 1.0 / 3.0, 0.25, 0.0],
    );
}

#[test]
fn singular_mat3_has_no_inverse() {
    let matrix = Mat3::new([1.0, 2.0, 3.0, 2.0, 4.0, 6.0, 0.0, 1.0, 0.0].map(s));
    assert!(matrix.inverse().is_none());
}

#[test]
fn quaternion_operations() {
    let quarter_turn = from_axis_angle(v3(0.0, 0.0, 1.0), FRAC_PI_2);
    assert_vec(
        [
            n(quarter_turn.x),
            n(quarter_turn.y),
            n(quarter_turn.z),
            n(quarter_turn.w),
        ],
        [0.0, 0.0, 2.0_f32.sqrt() / 2.0, 2.0_f32.sqrt() / 2.0],
    );
    assert_eq!(quarter_turn * Quat::identity(), quarter_turn);
    let rotated = quarter_turn.to_mat4() * v4(1.0, 0.0, 0.0, 1.0);
    assert_vec(
        [n(rotated.x), n(rotated.y), n(rotated.z), n(rotated.w)],
        [0.0, 1.0, 0.0, 1.0],
    );
    let full_turn = quarter_turn * quarter_turn * quarter_turn * quarter_turn;
    assert_vec(
        [n(full_turn.x), n(full_turn.y), n(full_turn.z), n(full_turn.w)],
        [0.0, 0.0, 0.0, -1.0],
    );
    assert_eq!(
        rotate(v3(1.0, 0.0, 0.0), PI),
        from_axis_angle(v3(1.0, 0.0, 0.0), PI).to_mat4()
    );

    let x_turn = from_axis_angle(v3(1.0, 0.0, 0.0), FRAC_PI_2);
    let y_turn = from_axis_angle(v3(0.0, 1.0, 0.0), FRAC_PI_2);
    let xy = x_turn * y_turn;
    let yx = y_turn * x_turn;
    assert_vec([n(xy.x), n(xy.y), n(xy.z), n(xy.w)], [0.5, 0.5, 0.5, 0.5]);
    assert_vec([n(yx.x), n(yx.y), n(yx.z), n(yx.w)], [0.5, 0.5, -0.5, 0.5]);
    assert_same(
        xy.to_mat4() * v4(1.0, 2.0, 3.0, 1.0),
        v4(3.0, 1.0, 2.0, 1.0),
    );
    assert_same(
        yx.to_mat4() * v4(1.0, 2.0, 3.0, 1.0),
        v4(2.0, -3.0, -1.0, 1.0),
    );
}

#[test]
fn quaternion_vector_rotation_is_scale_invariant() {
    let rotation = from_axis_angle(v3(0.0, 0.0, 1.0), FRAC_PI_2);
    let vector = v3(1.0, 0.0, 0.0);
    let rotated = rotation.rotate_vec3(vector);
    let scaled_rotated = (rotation * s(2.0)).rotate_vec3(vector);

    assert_vec([n(rotated.x), n(rotated.y), n(rotated.z), 0.0], [0.0, 1.0, 0.0, 0.0]);
    assert_vec(
        [
            n(scaled_rotated.x),
            n(scaled_rotated.y),
            n(scaled_rotated.z),
            0.0,
        ],
        [0.0, 1.0, 0.0, 0.0],
    );
    assert_eq!(rotated, scaled_rotated);
}

#[test]
fn inverses_undo_their_matrices() {
    let matrix = Mat4::translate(v3(2.0, 3.0, 4.0)) * Mat4::scale(v3(2.0, 4.0, 8.0));
    let inverse = matrix.inverse().expect("the matrix has an inverse");
    assert_same(inverse * v4(4.0, 7.0, 12.0, 1.0), v4(1.0, 1.0, 1.0, 1.0));
    assert!(Mat4::scale(v3(1.0, 0.0, 1.0)).inverse().is_none());
    assert!(Mat4::scale(v3(1.0, f32::NAN, 1.0)).inverse().is_none());
    let rows = Mat3::new([1.0, 2.0, 3.0, 4.0, 5.0, 6.0, 7.0, 8.0, 9.0].map(s));
    assert_eq!(rows.transpose().get(0, 1), s(2.0));
    assert_eq!(rows.transpose().transpose(), rows);
    let rotation = Quat::new(s(0.5), s(-0.5), s(0.25), s(1.0));
    assert_eq!(rotation.conjugate().conjugate(), rotation);
    assert_eq!(Mat3::default(), Mat3::identity());
    assert_eq!(Mat4::default(), Mat4::identity());
}

#[test]
fn equality_compares_values() {
    assert_eq!(s(0.0), s(-0.0));
    assert_ne!(s(f32::NAN), s(f32::NAN));
    assert_ne!(s(1.0), s(-1.0));
    assert_eq!(s(f32::INFINITY), s(f32::INFINITY));
    let double = |value: f64| Float64 { bits: value.to_bits() };
    assert_eq!(double(0.0), double(-0.0));
    assert_ne!(double(f64::NAN), double(f64::NAN));
    assert_eq!(double(-2.5), double(-2.5));
    assert_ne!(double(2.5), double(-2.5));
    assert_eq!(v3(0.0, 1.0, 2.0), v3(-0.0, 1.0, 2.0));
    assert_ne!(v3(0.0, 1.0, f32::NAN), v3(0.0, 1.0, f32::NAN));
    assert_eq!(v2(-0.0, 1.0), v2(0.0, 1.0));
    assert_ne!(v4(0.0, 1.0, 2.0, 3.0), v4(0.0, 1.0, 2.0, 4.0));
    assert_eq!(Mat4::scale(v3(-0.0, 1.0, 1.0)), Mat4::scale(v3(0.0, 1.0, 1.0)));
    assert_ne!(Mat4::scale(v3(f32::NAN, 1.0, 1.0)), Mat4::scale(v3(f32::NAN, 1.0, 1.0)));
    assert_eq!(Quat::new(s(0.0), s(0.0), s(-0.0), s(1.0)), Quat::identity());
}
