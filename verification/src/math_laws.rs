//! What rotations, views and projections do to points.

use crate::arith::{law_multiplying_by_one_changes_nothing, law_products_with_zero_vanish};
use crate::cascade_fit::projected_depth;
use crate::float::{Float32, ONE, TWO};
use crate::math::{
    matrix_of, perspective_elements, rotation_elements, view_elements, view_forward, view_right,
    Quat, Vec3, Vec4,
};
use crate::qem_laws::{lemma_product_of_difference, reaches};
use crate::reals::{
    alike, close, law_arithmetic_keeps_likeness, law_quotients_keep_likeness, law_small_constants,
    law_zeros_add_nothing, lemma_close_opposite, lemma_close_product, lemma_close_start,
    lemma_close_sum, lemma_close_wider, lemma_product_regroups, lemma_product_signs, size,
};
use vstd::arithmetic::power2::pow2;
use vstd::prelude::*;

verus! {

/// The product of two coordinates of a unit quaternion.
proof fn lemma_close_pair(a: Float32, b: Float32)
    requires
        a.finite() && b.finite(),
        size(a.value()) <= 5real / 4real,
        size(b.value()) <= 5real / 4real,
    ensures
        close(a * b, a.value() * b.value(), 2real, 2),
{
    let q = 5real / 4real;
    lemma_close_start(a, q);
    lemma_close_start(b, q);
    lemma_close_product(a, a.value(), q, 0, b, b.value(), q, 0);
    lemma_close_wider(a * b, a.value() * b.value(), q * q, 2, 2real, 2);
}

/// Twice the sum, and twice the difference, of two products.
proof fn lemma_close_twice_pair(f: Float32, x: real, g: Float32, y: real)
    requires
        close(f, x, 2real, 2),
        close(g, y, 2real, 2),
    ensures
        ({
            let two = Float32 { bits: TWO };
            &&& close(two * (f + g), 2real * (x + y), 8real, 6)
            &&& close(two * (f - g), 2real * (x - y), 8real, 6)
        }),
{
    let two = Float32 { bits: TWO };
    law_small_constants();
    lemma_close_start(two, 2real);
    lemma_close_sum(f, x, 2real, 2, g, y, 2real, 2, 2);
    lemma_close_product(two, 2real, 2real, 0, f + g, x + y, 4real, 4);
    lemma_close_opposite(g, y, 2real, 2);
    assert(f - g == f + g.opposite()) by {
        reveal(Float32::minus);
    }
    lemma_close_sum(f, x, 2real, 2, g.opposite(), -y, 2real, 2, 2);
    lemma_close_product(two, 2real, 2real, 0, f - g, x - y, 4real, 4);
}

/// One less a value.
proof fn lemma_close_rest(f: Float32, x: real)
    requires
        close(f, x, 8real, 6),
    ensures
        close((Float32 { bits: ONE }) - f, 1real - x, 9real, 8),
{
    let one = Float32 { bits: ONE };
    law_small_constants();
    lemma_close_start(one, 1real);
    lemma_close_opposite(f, x, 8real, 6);
    assert(one - f == one + f.opposite()) by {
        reveal(Float32::minus);
    }
    lemma_close_sum(one, 1real, 1real, 0, f.opposite(), -x, 8real, 6, 6);
}

/// A row of a rotation at a vector.
proof fn lemma_close_turn(
    e: (Float32, real),
    f: (Float32, real),
    g: (Float32, real),
    v: Vec3,
    r: real,
)
    requires
        close(e.0, e.1, 9real, 8),
        close(f.0, f.1, 9real, 8),
        close(g.0, g.1, 9real, 8),
        reaches(v, r),
        1real <= r <= 33554432real,
    ensures
        close(
            e.0 * v.x + f.0 * v.y + g.0 * v.z,
            e.1 * v.x.value() + f.1 * v.y.value() + g.1 * v.z.value(),
            27real * r,
            14,
        ),
{
    let (x, y, z) = (v.x.value(), v.y.value(), v.z.value());
    lemma_close_start(v.x, r);
    lemma_close_start(v.y, r);
    lemma_close_start(v.z, r);
    lemma_close_product(e.0, e.1, 9real, 8, v.x, x, r, 0);
    lemma_close_product(f.0, f.1, 9real, 8, v.y, y, r, 0);
    lemma_close_product(g.0, g.1, 9real, 8, v.z, z, r, 0);
    let (a, b, c) = (e.0 * v.x, f.0 * v.y, g.0 * v.z);
    let m = 9real * r;
    lemma_close_sum(a, e.1 * x, m, 10, b, f.1 * y, m, 10, 10);
    lemma_close_sum(a + b, e.1 * x + f.1 * y, 18real * r, 12, c, g.1 * z, m, 10, 12);
}

proof fn lemma_product_in_any_order(p: real, q: real, b: real)
    by (nonlinear_arith)
    ensures
        p * (q * b) == (p * q) * b,
        q * (p * b) == (p * q) * b,
        (2real * q) * (p * b) == 2real * ((p * q) * b),
{
}

proof fn lemma_twice_a_sum(p: real, q: real, b: real)
    by (nonlinear_arith)
    ensures
        2real * (p + q) * b == 2real * (p * b) + 2real * (q * b),
        2real * (p - q) * b == 2real * (p * b) - 2real * (q * b),
        (1real - 2real * (p + q)) * b == b - 2real * (p * b) - 2real * (q * b),
{
}

proof fn lemma_turn_identity(x: real, y: real, z: real, w: real, a: real, b: real, c: real)
    ensures
        (1real - 2real * (y * y + z * z)) * a + 2real * (x * y - z * w) * b + 2real * (x * z + y * w)
            * c == a + 2real * w * (y * c - z * b) + 2real * (y * (x * b - y * a) - z * (z * a - x
            * c)),
{
    lemma_twice_a_sum(y * y, z * z, a);
    lemma_twice_a_sum(x * y, z * w, b);
    lemma_twice_a_sum(x * z, y * w, c);
    lemma_product_of_difference(2real * w, y * c, z * b);
    lemma_product_in_any_order(y, w, c);
    lemma_product_in_any_order(z, w, b);
    lemma_product_of_difference(y, x * b, y * a);
    lemma_product_in_any_order(x, y, b);
    lemma_product_in_any_order(y, y, a);
    lemma_product_of_difference(z, z * a, x * c);
    lemma_product_in_any_order(z, z, a);
    lemma_product_in_any_order(x, z, c);
}

/// The vector product of two vectors of real numbers.
pub open spec fn outer(a: (real, real, real), b: (real, real, real)) -> (real, real, real) {
    (a.1 * b.2 - a.2 * b.1, a.2 * b.0 - a.0 * b.2, a.0 * b.1 - a.1 * b.0)
}

/// A rotation turns about its axis: the image of a vector is the vector, twice its outer product
/// with the axis times the cosine part, and twice the outer product of the axis with that outer
/// product, up to rounding.
pub proof fn law_rotations_turn_about_their_axis(turn: Quat, v: Vec3, r: real)
    requires
        turn.x.finite() && size(turn.x.value()) <= 5real / 4real,
        turn.y.finite() && size(turn.y.value()) <= 5real / 4real,
        turn.z.finite() && size(turn.z.value()) <= 5real / 4real,
        turn.w.finite() && size(turn.w.value()) <= 5real / 4real,
        reaches(v, r),
        1real <= r <= 33554432real,
    ensures
        ({
            let image = matrix_of(rotation_elements(turn)).linear().applied(v);
            let axis = (turn.x.value(), turn.y.value(), turn.z.value());
            let w = turn.w.value();
            let across = outer(axis, (v.x.value(), v.y.value(), v.z.value()));
            let inward = outer(axis, across);
            &&& close(
                image.x,
                v.x.value() + 2real * w * across.0 + 2real * inward.0,
                27real * r,
                14,
            )
            &&& close(
                image.y,
                v.y.value() + 2real * w * across.1 + 2real * inward.1,
                27real * r,
                14,
            )
            &&& close(
                image.z,
                v.z.value() + 2real * w * across.2 + 2real * inward.2,
                27real * r,
                14,
            )
        }),
{
    let (x, y, z, w) = (turn.x.value(), turn.y.value(), turn.z.value(), turn.w.value());
    let (a, b, c) = (v.x.value(), v.y.value(), v.z.value());
    let q = turn;
    let two = Float32 { bits: TWO };
    lemma_close_pair(q.x, q.x);
    lemma_close_pair(q.y, q.y);
    lemma_close_pair(q.z, q.z);
    lemma_close_pair(q.x, q.y);
    lemma_close_pair(q.x, q.z);
    lemma_close_pair(q.y, q.z);
    lemma_close_pair(q.x, q.w);
    lemma_close_pair(q.y, q.w);
    lemma_close_pair(q.z, q.w);
    lemma_close_twice_pair(q.y * q.y, y * y, q.z * q.z, z * z);
    lemma_close_twice_pair(q.x * q.x, x * x, q.z * q.z, z * z);
    lemma_close_twice_pair(q.x * q.x, x * x, q.y * q.y, y * y);
    lemma_close_twice_pair(q.x * q.y, x * y, q.z * q.w, z * w);
    lemma_close_twice_pair(q.x * q.z, x * z, q.y * q.w, y * w);
    lemma_close_twice_pair(q.y * q.z, y * z, q.x * q.w, x * w);
    let m = rotation_elements(turn);
    let (d, e, f) = (
        1real - 2real * (y * y + z * z),
        1real - 2real * (x * x + z * z),
        1real - 2real * (x * x + y * y),
    );
    lemma_close_rest(two * (q.y * q.y + q.z * q.z), 2real * (y * y + z * z));
    lemma_close_rest(two * (q.x * q.x + q.z * q.z), 2real * (x * x + z * z));
    lemma_close_rest(two * (q.x * q.x + q.y * q.y), 2real * (x * x + y * y));
    lemma_close_wider(m[1], 2real * (x * y + z * w), 8real, 6, 9real, 8);
    lemma_close_wider(m[4], 2real * (x * y - z * w), 8real, 6, 9real, 8);
    lemma_close_wider(m[2], 2real * (x * z - y * w), 8real, 6, 9real, 8);
    lemma_close_wider(m[8], 2real * (x * z + y * w), 8real, 6, 9real, 8);
    lemma_close_wider(m[6], 2real * (y * z + x * w), 8real, 6, 9real, 8);
    lemma_close_wider(m[9], 2real * (y * z - x * w), 8real, 6, 9real, 8);
    lemma_close_turn(
        (m[0], d),
        (m[4], 2real * (x * y - z * w)),
        (m[8], 2real * (x * z + y * w)),
        v,
        r,
    );
    lemma_close_turn(
        (m[1], 2real * (x * y + z * w)),
        (m[5], e),
        (m[9], 2real * (y * z - x * w)),
        v,
        r,
    );
    lemma_close_turn(
        (m[2], 2real * (x * z - y * w)),
        (m[6], 2real * (y * z + x * w)),
        (m[10], f),
        v,
        r,
    );
    lemma_turn_identity(x, y, z, w, a, b, c);
    lemma_turn_identity(y, z, x, w, b, c, a);
    lemma_turn_identity(z, x, y, w, c, a, b);
    lemma_product_regroups(x, y, 1real);
    lemma_product_regroups(x, z, 1real);
    lemma_product_regroups(y, z, 1real);
}

/// A row of a view at a point: how far the point lies from the eye along a direction.
proof fn lemma_close_view_row(
    n: Vec3,
    row: Vec3,
    last: Float32,
    sign: real,
    point: Vec3,
    eye: Vec3,
    r: real,
)
    requires
        reaches(n, 5real / 4real),
        reaches(point, r),
        reaches(eye, r),
        1real <= r <= 33554432real,
        ({
            ||| row == n && last == n.dot_product(eye).opposite() && sign == 1real
            ||| row == (Vec3 { x: n.x.opposite(), y: n.y.opposite(), z: n.z.opposite() }) && last
                == n.dot_product(eye) && sign == -1real
        }),
    ensures
        close(
            row.x * point.x + row.y * point.y + row.z * point.z + last * (Float32 { bits: ONE }),
            sign * (n.x.value() * (point.x.value() - eye.x.value()) + n.y.value() * (
            point.y.value() - eye.y.value()) + n.z.value() * (point.z.value() - eye.z.value())),
            8real * r,
            10,
        ),
{
    let q = 5real / 4real;
    let one = Float32 { bits: ONE };
    law_small_constants();
    crate::reals::law_opposites_are_exact(n.x);
    crate::reals::law_opposites_are_exact(n.y);
    crate::reals::law_opposites_are_exact(n.z);
    lemma_close_dot(row, point, r);
    lemma_close_dot(n, eye, r);
    let (x, y, z) = (n.x.value(), n.y.value(), n.z.value());
    let (a, b, c) = (point.x.value(), point.y.value(), point.z.value());
    let (d, e, f) = (eye.x.value(), eye.y.value(), eye.z.value());
    let along = row.x.value() * a + row.y.value() * b + row.z.value() * c;
    let back = x * d + y * e + z * f;
    let m = 15real / 4real * r;
    lemma_close_opposite(n.dot_product(eye), back, m, 6);
    lemma_close_start(one, 1real);
    let far = if sign == 1real {
        -back
    } else {
        back
    };
    lemma_close_product(last, far, m, 6, one, 1real, 1real, 0);
    lemma_close_sum(row.dot_product(point), along, m, 6, last * one, far, m, 8, 8);
    lemma_view_identity(x, y, z, a, b, c, d, e, f);
    let sum = row.dot_product(point) + last * one;
    lemma_close_wider(sum, along + far, m + m, 10, 8real * r, 10);
}

proof fn lemma_view_identity(
    x: real,
    y: real,
    z: real,
    a: real,
    b: real,
    c: real,
    d: real,
    e: real,
    f: real,
)
    ensures
        x * a + y * b + z * c + -(x * d + y * e + z * f) == 1real * (x * (a - d) + y * (b - e) + z * (c
            - f)),
        (-x) * a + (-y) * b + (-z) * c + (x * d + y * e + z * f) == (-1real) * (x * (a - d) + y * (b
            - e) + z * (c - f)),
{
    lemma_product_of_difference(x, a, d);
    lemma_product_of_difference(y, b, e);
    lemma_product_of_difference(z, c, f);
    lemma_product_signs(x, a);
    lemma_product_signs(y, b);
    lemma_product_signs(z, c);
}

/// A scalar product with a direction.
proof fn lemma_close_dot(n: Vec3, point: Vec3, r: real)
    requires
        reaches(n, 5real / 4real),
        reaches(point, r),
        1real <= r <= 33554432real,
    ensures
        close(
            n.dot_product(point),
            n.x.value() * point.x.value() + n.y.value() * point.y.value() + n.z.value()
                * point.z.value(),
            15real / 4real * r,
            6,
        ),
{
    let q = 5real / 4real;
    lemma_close_start(n.x, q);
    lemma_close_start(n.y, q);
    lemma_close_start(n.z, q);
    lemma_close_start(point.x, r);
    lemma_close_start(point.y, r);
    lemma_close_start(point.z, r);
    let (x, y, z) = (n.x.value(), n.y.value(), n.z.value());
    let (a, b, c) = (point.x.value(), point.y.value(), point.z.value());
    lemma_close_product(n.x, x, q, 0, point.x, a, r, 0);
    lemma_close_product(n.y, y, q, 0, point.y, b, r, 0);
    lemma_close_product(n.z, z, q, 0, point.z, c, r, 0);
    let (f, g, h) = (n.x * point.x, n.y * point.y, n.z * point.z);
    lemma_close_sum(f, x * a, q * r, 2, g, y * b, q * r, 2, 2);
    lemma_close_sum(f + g, x * a + y * b, 2real * (q * r), 4, h, z * c, q * r, 2, 4);
}

/// How far a point lies from an eye along a direction.
pub open spec fn distance_along(direction: Vec3, eye: Vec3, point: Vec3) -> real {
    direction.x.value() * (point.x.value() - eye.x.value()) + direction.y.value() * (
    point.y.value() - eye.y.value()) + direction.z.value() * (point.z.value() - eye.z.value())
}

/// A view measures points from its eye: to the right, up, and backwards from where it looks, up to
/// rounding.
pub proof fn law_views_measure_from_their_eye(
    eye: Vec3,
    target: Vec3,
    up: Vec3,
    point: Vec3,
    r: real,
)
    requires
        reaches(eye, r),
        reaches(point, r),
        1real <= r <= 33554432real,
        reaches((target - eye).unit(), 5real / 4real),
        reaches((target - eye).unit().cross_product(up).unit(), 5real / 4real),
        reaches(
            (target - eye).unit().cross_product(up).unit().cross_product((target - eye).unit()),
            5real / 4real,
        ),
    ensures
        ({
            let forward = (target - eye).unit();
            let right = forward.cross_product(up).unit();
            let upright = right.cross_product(forward);
            let image = matrix_of(view_elements(eye, target, up)).applied(
                Vec4 { x: point.x, y: point.y, z: point.z, w: Float32 { bits: ONE } },
            );
            &&& close(image.x, distance_along(right, eye, point), 8real * r, 10)
            &&& close(image.y, distance_along(upright, eye, point), 8real * r, 10)
            &&& close(image.z, -distance_along(forward, eye, point), 8real * r, 10)
        }),
{
    let forward = view_forward(eye, target);
    let right = view_right(eye, target, up);
    let upright = right.cross_product(forward);
    let back = Vec3 {
        x: forward.x.opposite(),
        y: forward.y.opposite(),
        z: forward.z.opposite(),
    };
    let last = right.dot_product(eye).opposite();
    lemma_close_view_row(right, right, last, 1real, point, eye, r);
    let last = upright.dot_product(eye).opposite();
    lemma_close_view_row(upright, upright, last, 1real, point, eye, r);
    lemma_close_view_row(forward, back, forward.dot_product(eye), -1real, point, eye, r);
}

/// The depth that a distance before the camera is projected to is the one that the perspective
/// projection gives a point at that distance.
pub proof fn law_depths_are_projected_like_points(
    focal: Float32,
    aspect: Float32,
    near: Float32,
    far: Float32,
    distance: Float32,
)
    requires
        distance.finite(),
        distance.magnitude() > 0,
        ((far + near) / (near - far)).finite(),
        (((Float32 { bits: TWO }) * far * near) / (near - far)).finite(),
        ((far + near) / (near - far) * distance).finite(),
    ensures
        ({
            let zero = Float32 { bits: 0 };
            let image = matrix_of(perspective_elements(focal, aspect, near, far)).applied(
                Vec4 { x: zero, y: zero, z: distance.opposite(), w: Float32 { bits: ONE } },
            );
            &&& alike(image.w, distance)
            &&& alike(image.z / image.w, projected_depth(distance, near, far))
        }),
{
    let zero = Float32 { bits: 0 };
    let one = Float32 { bits: ONE };
    let a = (far + near) / (near - far);
    let b = ((Float32 { bits: TWO }) * far * near) / (near - far);
    let z = distance.opposite();
    law_products_with_zero_vanish(zero, zero);
    law_multiplying_by_one_changes_nothing(b);
    law_multiplying_by_one_changes_nothing(distance);
    law_multiplying_by_one_changes_nothing(one);
    law_products_with_zero_vanish(one, zero);
    lemma_signs(a, distance);
    lemma_signs(one, distance);
    let nought = zero * zero;
    let start = nought + nought;
    law_zeros_add_nothing(nought, nought);
    crate::arith::law_adding_a_signed_zero_keeps_the_value(nought, nought);
    let depth = a * z;
    law_zeros_add_nothing(depth, start);
    law_arithmetic_keeps_likeness(start + depth, b * one, depth, b);
    law_zeros_add_nothing(distance, start);
    law_zeros_add_nothing(distance, zero * one);
    let w = start + one.opposite() * z;
    law_arithmetic_keeps_likeness(w, zero * one, distance, zero * one);
    law_quotients_keep_likeness(start + depth + b * one, depth + b, distance);
}

/// Signs move through products.
proof fn lemma_signs(a: Float32, b: Float32)
    requires
        a.finite(),
        b.finite(),
        (a * b).finite(),
    ensures
        a * b.opposite() == a.opposite() * b,
        a.opposite() * b.opposite() == a * b,
        (a * b.opposite()).finite(),
{
    reveal(Float32::times);
    let format = crate::rounding::Format::Binary32;
    let product = format.scaled_value(a.magnitude()) * format.scaled_value(b.magnitude());
    crate::rounding::lemma_nearest_exists(format, product, pow2(298));
}

} // verus!
