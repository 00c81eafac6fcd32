//! How the size of an object on screen follows its size and its place in the world.

use crate::arith::{
    law_differences_of_equal_values_vanish, law_multiplying_by_one_changes_nothing,
    law_products_commute, law_products_with_zero_vanish,
};
use crate::culling::Aabb;
use crate::float::{law_integers_round_to_finite_values, Float32, HALF, INFINITY, ONE};
use crate::lod::{row_norm, screen_extent_of};
use crate::math::{identity_elements, matrix_of, Mat4, Vec3, Vec4};
use crate::reals::{
    alike, alike_vectors, law_arithmetic_keeps_likeness, law_lengths_keep_likeness,
    law_zeros_add_nothing,
};
use vstd::prelude::*;

verus! {

/// The matrix that scales along the axes and then moves.
pub open spec fn scaled_and_moved(factors: Vec3, motion: Vec3) -> Mat4 {
    matrix_of(
        identity_elements().update(0, factors.x).update(5, factors.y).update(10, factors.z).update(
            12,
            motion.x,
        ).update(13, motion.y).update(14, motion.z),
    )
}

/// Half of the size of a box.
pub open spec fn half_size(bounds: Aabb) -> Vec3 {
    (bounds.max - bounds.min) * (Float32 { bits: HALF })
}

/// The middle of a box.
pub open spec fn middle(bounds: Aabb) -> Vec3 {
    (bounds.min + bounds.max) * (Float32 { bits: HALF })
}

/// A vector whose coordinates are multiplied by those of another.
pub open spec fn stretched(vector: Vec3, factors: Vec3) -> Vec3 {
    Vec3 { x: factors.x * vector.x, y: factors.y * vector.y, z: factors.z * vector.z }
}

/// Whether the coordinates of a vector are finite.
pub open spec fn is_finite_vector(vector: Vec3) -> bool {
    vector.x.finite() && vector.y.finite() && vector.z.finite()
}

/// A row of a matrix that scales: one product, and zeros beside it.
proof fn lemma_row(value: Float32, factor: Float32, b: Float32, c: Float32)
    requires
        (factor * value).finite(),
        b.finite(),
        c.finite(),
    ensures
        ({
            let zero = Float32 { bits: 0 };
            &&& alike(factor * value + zero * b + zero * c, factor * value)
            &&& alike(zero * b + factor * value + zero * c, factor * value)
            &&& alike(zero * b + zero * c + factor * value, factor * value)
        }),
{
    let zero = Float32 { bits: 0 };
    let x = factor * value;
    law_products_with_zero_vanish(b, zero);
    law_products_with_zero_vanish(c, zero);
    let (p, q) = (zero * b, zero * c);
    law_zeros_add_nothing(x, p);
    law_zeros_add_nothing(x, q);
    law_arithmetic_keeps_likeness(x + p, q, x, q);
    law_arithmetic_keeps_likeness(p + x, q, x, q);
    law_zeros_add_nothing(zero, q);
    law_zeros_add_nothing(p, q);
    assert((p + q).magnitude() == 0) by {
        crate::arith::law_adding_a_signed_zero_keeps_the_value(p, q);
    }
    law_zeros_add_nothing(x, p + q);
}

/// The image of a vector under the linear part of a matrix that scales and moves.
proof fn lemma_stretched(vector: Vec3, factors: Vec3, motion: Vec3)
    requires
        is_finite_vector(vector),
        is_finite_vector(stretched(vector, factors)),
    ensures
        alike_vectors(
            scaled_and_moved(factors, motion).linear().applied(vector),
            stretched(vector, factors),
        ),
{
    lemma_row(vector.x, factors.x, vector.y, vector.z);
    lemma_row(vector.y, factors.y, vector.x, vector.z);
    lemma_row(vector.z, factors.z, vector.x, vector.y);
}

/// The image of a point under a matrix that scales and moves.
pub open spec fn moved_point(point: Vec3, motion: Vec3) -> Vec4 {
    Vec4 {
        x: point.x + motion.x,
        y: point.y + motion.y,
        z: point.z + motion.z,
        w: Float32 { bits: ONE },
    }
}

/// Whether two points have the same coordinates, but for the signs of zeros.
pub open spec fn alike_points(first: Vec4, second: Vec4) -> bool {
    alike(first.x, second.x) && alike(first.y, second.y) && alike(first.z, second.z) && alike(
        first.w,
        second.w,
    )
}

proof fn lemma_moved(point: Vec3, factors: Vec3, motion: Vec3)
    requires
        is_finite_vector(point),
        is_finite_vector(stretched(point, factors)),
        is_finite_vector(motion),
    ensures
        alike_points(
            scaled_and_moved(factors, motion).applied(
                Vec4 { x: point.x, y: point.y, z: point.z, w: Float32 { bits: ONE } },
            ),
            moved_point(stretched(point, factors), motion),
        ),
{
    let one = Float32 { bits: ONE };
    let zero = Float32 { bits: 0 };
    lemma_row(point.x, factors.x, point.y, point.z);
    lemma_row(point.y, factors.y, point.x, point.z);
    lemma_row(point.z, factors.z, point.x, point.y);
    law_multiplying_by_one_changes_nothing(motion.x);
    law_multiplying_by_one_changes_nothing(motion.y);
    law_multiplying_by_one_changes_nothing(motion.z);
    law_multiplying_by_one_changes_nothing(one);
    let image = stretched(point, factors);
    law_arithmetic_keeps_likeness(
        factors.x * point.x + zero * point.y + zero * point.z,
        motion.x,
        image.x,
        motion.x,
    );
    law_arithmetic_keeps_likeness(
        zero * point.x + factors.y * point.y + zero * point.z,
        motion.y,
        image.y,
        motion.y,
    );
    law_arithmetic_keeps_likeness(
        zero * point.x + zero * point.y + factors.z * point.z,
        motion.z,
        image.z,
        motion.z,
    );
    law_products_with_zero_vanish(point.x, zero);
    law_products_with_zero_vanish(point.y, zero);
    law_products_with_zero_vanish(point.z, zero);
    let (p, q, r) = (zero * point.x, zero * point.y, zero * point.z);
    crate::arith::law_adding_a_signed_zero_keeps_the_value(p, q);
    crate::arith::law_adding_a_signed_zero_keeps_the_value(p + q, r);
    law_zeros_add_nothing(one, p + q + r);
}

/// The depth of a point in a view.
proof fn lemma_depths_alike(view: Mat4, first: Vec4, second: Vec4)
    requires
        alike_points(first, second),
    ensures
        alike(view.applied(first).z, view.applied(second).z),
{
    let m = view@;
    law_arithmetic_keeps_likeness(m[2], first.x, m[2], second.x);
    law_arithmetic_keeps_likeness(m[6], first.y, m[6], second.y);
    law_arithmetic_keeps_likeness(m[10], first.z, m[10], second.z);
    law_arithmetic_keeps_likeness(m[14], first.w, m[14], second.w);
    law_arithmetic_keeps_likeness(
        m[2] * first.x,
        m[6] * first.y,
        m[2] * second.x,
        m[6] * second.y,
    );
    law_arithmetic_keeps_likeness(
        m[2] * first.x + m[6] * first.y,
        m[10] * first.z,
        m[2] * second.x + m[6] * second.y,
        m[10] * second.z,
    );
    law_arithmetic_keeps_likeness(
        m[2] * first.x + m[6] * first.y + m[10] * first.z,
        m[14] * first.w,
        m[2] * second.x + m[6] * second.y + m[10] * second.z,
        m[14] * second.w,
    );
}

/// Extents from radii and depths that are alike.
proof fn lemma_extents_alike(
    radius: Float32,
    other: Float32,
    depth: Float32,
    across: Float32,
    width: Float32,
)
    requires
        alike(radius, other),
        depth.finite(),
        depth.magnitude() > 0,
    ensures
        alike(radius / depth * across * width, other / depth * across * width),
{
    assert(alike(radius / depth, other / depth)) by {
        if radius != other {
            reveal(Float32::over);
            crate::float::lemma_scaled_is_positive(depth.magnitude());
            crate::arith::lemma_zero_is_nearest(
                crate::rounding::Format::Binary32.scaled_value(depth.magnitude()),
            );
        }
    }
    law_arithmetic_keeps_likeness(radius / depth, across, other / depth, across);
    law_arithmetic_keeps_likeness(
        radius / depth * across,
        width,
        other / depth * across,
        width,
    );
}

/// The extent on screen follows the size of the object in the world: a box that is drawn through a
/// model that scales it and moves it has the extent of the scaled box that is only moved.
pub proof fn law_scaled_objects_measure_like_scaled_boxes(
    bounds: Aabb,
    scaled_bounds: Aabb,
    factors: Vec3,
    motion: Vec3,
    view: Mat4,
    projection: Mat4,
    width: usize,
    height: usize,
)
    requires
        is_finite_vector(half_size(bounds)),
        is_finite_vector(middle(bounds)),
        is_finite_vector(motion),
        is_finite_vector(half_size(scaled_bounds)),
        is_finite_vector(middle(scaled_bounds)),
        alike_vectors(half_size(scaled_bounds), stretched(half_size(bounds), factors)),
        alike_vectors(middle(scaled_bounds), stretched(middle(bounds), factors)),
    ensures
        ({
            let one = Float32 { bits: ONE };
            let ones = Vec3 { x: one, y: one, z: one };
            alike(
                screen_extent_of(
                    bounds,
                    view,
                    projection,
                    scaled_and_moved(factors, motion),
                    width,
                    height,
                ),
                screen_extent_of(
                    scaled_bounds,
                    view,
                    projection,
                    scaled_and_moved(ones, motion),
                    width,
                    height,
                ),
            )
        }),
{
    let one = Float32 { bits: ONE };
    let ones = Vec3 { x: one, y: one, z: one };
    let first = scaled_and_moved(factors, motion);
    let second = scaled_and_moved(ones, motion);
    let (h, c) = (half_size(bounds), middle(bounds));
    let (k, d) = (half_size(scaled_bounds), middle(scaled_bounds));
    lemma_ones(k);
    lemma_ones(d);
    lemma_stretched(h, factors, motion);
    lemma_stretched(k, ones, motion);
    lemma_moved(c, factors, motion);
    lemma_moved(d, ones, motion);
    let r = first.linear().applied(h);
    let s = second.linear().applied(k);
    assert(alike_vectors(r, s));
    law_lengths_keep_likeness(r, s);
    let from = first.applied(Vec4 { x: c.x, y: c.y, z: c.z, w: one });
    let to = second.applied(Vec4 { x: d.x, y: d.y, z: d.z, w: one });
    let image = stretched(c, factors);
    law_arithmetic_keeps_likeness(image.x, motion.x, d.x, motion.x);
    law_arithmetic_keeps_likeness(image.y, motion.y, d.y, motion.y);
    law_arithmetic_keeps_likeness(image.z, motion.z, d.z, motion.z);
    assert(alike_points(from, to));
    lemma_depths_alike(view, from, to);
    let depth = view.applied(from).z.opposite();
    let other = view.applied(to).z.opposite();
    let (across, up) = (row_norm(projection, 0), row_norm(projection, 1));
    let (wide, high) = (
        Float32::of_integer(false, width as nat),
        Float32::of_integer(false, height as nat),
    );
    if depth.finite() && depth.magnitude() > 0 {
        assert(depth == other);
        lemma_extents_alike(r.norm(), s.norm(), depth, across, wide);
        lemma_extents_alike(r.norm(), s.norm(), depth, up, high);
    }
}

proof fn lemma_ones(vector: Vec3)
    requires
        is_finite_vector(vector),
    ensures
        stretched(vector, Vec3 {
            x: Float32 { bits: ONE },
            y: Float32 { bits: ONE },
            z: Float32 { bits: ONE },
        }) == vector,
{
    law_multiplying_by_one_changes_nothing(vector.x);
    law_multiplying_by_one_changes_nothing(vector.y);
    law_multiplying_by_one_changes_nothing(vector.z);
}

/// The extent on screen does not depend on which way is across: with the first two rows of the
/// projection exchanged, and the width and the height with them, it is the same.
pub proof fn law_extents_treat_both_axes_alike(
    bounds: Aabb,
    view: Mat4,
    projection: Mat4,
    other: Mat4,
    model: Mat4,
    width: usize,
    height: usize,
)
    requires
        row_norm(other, 0) == row_norm(projection, 1),
        row_norm(other, 1) == row_norm(projection, 0),
    ensures
        alike(
            screen_extent_of(bounds, view, other, model, height, width),
            screen_extent_of(bounds, view, projection, model, width, height),
        ),
{
    let c = middle(bounds);
    let center = model.applied(Vec4 { x: c.x, y: c.y, z: c.z, w: Float32 { bits: ONE } });
    let depth = view.applied(center).z.opposite();
    let share = model.linear().applied(half_size(bounds)).norm() / depth;
    let across = share * row_norm(projection, 0);
    let up = share * row_norm(projection, 1);
    lemma_one_product_is_no_number(across, Float32::of_integer(false, width as nat));
    lemma_one_product_is_no_number(up, Float32::of_integer(false, height as nat));
}

/// All products that are not numbers are the same.
proof fn lemma_one_product_is_no_number(first: Float32, second: Float32)
    ensures
        (first * second).not_a_number() ==> first * second == (Float32 {
            bits: crate::arith::NOT_A_NUMBER,
        }),
{
    reveal(Float32::times);
    let format = crate::rounding::Format::Binary32;
    let product = format.scaled_value(first.magnitude()) * format.scaled_value(second.magnitude());
    crate::rounding::lemma_nearest_exists(format, product, vstd::arithmetic::power2::pow2(298));
}

/// A box without a size has no extent on screen, wherever it lies before the camera.
pub proof fn law_points_have_no_extent(
    bounds: Aabb,
    view: Mat4,
    projection: Mat4,
    factors: Vec3,
    motion: Vec3,
    width: usize,
    height: usize,
)
    requires
        bounds.min == bounds.max,
        is_finite_vector(bounds.min),
        is_finite_vector(factors),
        screen_extent_of(bounds, view, projection, scaled_and_moved(factors, motion), width, height)
            != (Float32 { bits: INFINITY }),
    ensures
        screen_extent_of(
            bounds,
            view,
            projection,
            scaled_and_moved(factors, motion),
            width,
            height,
        ).magnitude() == 0,
{
    let zero = Float32 { bits: 0 };
    let nowhere = Vec3 { x: zero, y: zero, z: zero };
    law_differences_of_equal_values_vanish(bounds.min.x);
    law_differences_of_equal_values_vanish(bounds.min.y);
    law_differences_of_equal_values_vanish(bounds.min.z);
    crate::reals::law_small_sums();
    let h = half_size(bounds);
    assert(h == nowhere);
    law_products_with_zero_vanish(factors.x, zero);
    law_products_with_zero_vanish(factors.y, zero);
    law_products_with_zero_vanish(factors.z, zero);
    law_products_commute(factors.x, zero);
    law_products_commute(factors.y, zero);
    law_products_commute(factors.z, zero);
    let model = scaled_and_moved(factors, motion);
    lemma_stretched(h, factors, motion);
    let r = model.linear().applied(h);
    law_lengths_keep_likeness(r, nowhere);
    law_products_with_zero_vanish(zero, zero);
    assert(nowhere.norm().magnitude() == 0) by {
        reveal(Float32::root);
        let p = zero * zero;
        crate::arith::law_adding_a_signed_zero_keeps_the_value(p, p);
        crate::arith::law_adding_a_signed_zero_keeps_the_value(p + p, p);
    }
    law_integers_round_to_finite_values(width as u64);
    law_integers_round_to_finite_values(height as u64);
    let radius = r.norm();
    let c = middle(bounds);
    let center = model.applied(Vec4 { x: c.x, y: c.y, z: c.z, w: Float32 { bits: ONE } });
    let depth = view.applied(center).z.opposite();
    lemma_no_extent(
        radius,
        depth,
        row_norm(projection, 0),
        Float32::of_integer(false, width as nat),
    );
    lemma_no_extent(
        radius,
        depth,
        row_norm(projection, 1),
        Float32::of_integer(false, height as nat),
    );
}

proof fn lemma_no_extent(radius: Float32, depth: Float32, across: Float32, width: Float32)
    requires
        radius.magnitude() == 0,
    ensures
        depth.finite() && depth.magnitude() > 0 && across.finite() && width.finite() ==> (radius
            / depth * across * width).magnitude() == 0,
{
    if depth.finite() && depth.magnitude() > 0 && across.finite() && width.finite() {
        let zero = Float32 { bits: 0 };
        lemma_extents_alike(radius, zero, depth, across, width);
        reveal(Float32::over);
        crate::float::lemma_scaled_is_positive(depth.magnitude());
        crate::arith::lemma_zero_is_nearest(
            crate::rounding::Format::Binary32.scaled_value(depth.magnitude()),
        );
        let share = zero / depth;
        law_products_with_zero_vanish(across, share);
        law_products_commute(across, share);
        law_products_with_zero_vanish(width, share * across);
        law_products_commute(width, share * across);
    }
}

} // verus!
