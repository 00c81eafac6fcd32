//! What the transform of a node does to space: it scales along the axes, then turns, then moves.

use crate::arith::{
    law_multiplying_by_one_changes_nothing, law_products_commute, law_products_with_zero_vanish,
};
use crate::float::{Float32, ONE};
use crate::gltf::key_laws::coordinate;
use crate::gltf::sampling::{is_unturned, quat_of, transform_matrix, NodeTransform};
use crate::gltf::skin_laws::lemma_sum_of_one;
use crate::lod_laws::is_finite_vector;
use crate::math::{product_element, Mat4, Vec3};
use crate::reals::{alike, law_arithmetic_keeps_likeness};
use vstd::prelude::*;

verus! {

/// A product with zero.
proof fn lemma_vanishes(zero: Float32, value: Float32)
    requires
        zero.magnitude() == 0,
        value.finite(),
    ensures
        (zero * value).magnitude() == 0,
        (value * zero).magnitude() == 0,
{
    law_products_with_zero_vanish(value, zero);
    law_products_commute(value, zero);
}

/// An element of a matrix that moves by an offset times another matrix without one.
proof fn lemma_moved_element(offset: Vec3, m: Seq<Float32>, row: int, column: int)
    requires
        is_finite_vector(offset),
        m.len() == 16,
        forall|i: int| 0 <= i < 16 ==> (#[trigger] m[i]).finite(),
        forall|c: int| 0 <= c < 3 ==> (#[trigger] m[4 * c + 3]).magnitude() == 0,
        m[12].magnitude() == 0 && m[13].magnitude() == 0 && m[14].magnitude() == 0,
        m[15] == (Float32 { bits: ONE }),
        0 <= row < 3,
        0 <= column < 4,
    ensures
        alike(
            product_element(Mat4::translation(offset)@, m, row, column),
            if column < 3 {
                m[4 * column + row]
            } else {
                coordinate(offset, row)
            },
        ),
{
    reveal(product_element);
    let t = Mat4::translation(offset)@;
    let zero = Float32 { bits: 0 };
    let one = Float32 { bits: ONE };
    let (e, f, g, h) = (
        m[column * 4],
        m[column * 4 + 1],
        m[column * 4 + 2],
        m[column * 4 + 3],
    );
    assert(e.finite() && f.finite() && g.finite() && h.finite());
    if column < 3 {
        assert(m[4 * column + 3].magnitude() == 0);
    }
    lemma_vanishes(zero, e);
    lemma_vanishes(zero, f);
    lemma_vanishes(zero, g);
    law_multiplying_by_one_changes_nothing(e);
    law_multiplying_by_one_changes_nothing(f);
    law_multiplying_by_one_changes_nothing(g);
    law_multiplying_by_one_changes_nothing(coordinate(offset, row));
    if column < 3 {
        lemma_vanishes(h, coordinate(offset, row));
    } else {
        assert(e == m[12] && f == m[13] && g == m[14] && h == m[15]);
    }
    let value = if column < 3 {
        m[4 * column + row]
    } else {
        coordinate(offset, row)
    };
    lemma_sum_of_one(
        t[row] * e,
        t[4 + row] * f,
        t[8 + row] * g,
        t[12 + row] * h,
        value,
    );
}

/// An element of a matrix times a matrix that scales.
proof fn lemma_scaled_element(m: Seq<Float32>, factors: Vec3, row: int, column: int)
    requires
        is_finite_vector(factors),
        m.len() == 16,
        forall|i: int| 0 <= i < 16 ==> (#[trigger] m[i]).finite(),
        0 <= row < 3,
        0 <= column < 4,
        column < 3 ==> (m[4 * column + row] * coordinate(factors, column)).finite(),
    ensures
        alike(
            product_element(m, Mat4::scaling(factors)@, row, column),
            if column < 3 {
                m[4 * column + row] * coordinate(factors, column)
            } else {
                m[12 + row]
            },
        ),
{
    reveal(product_element);
    let s = Mat4::scaling(factors)@;
    let zero = Float32 { bits: 0 };
    lemma_vanishes(zero, m[row]);
    lemma_vanishes(zero, m[4 + row]);
    lemma_vanishes(zero, m[8 + row]);
    lemma_vanishes(zero, m[12 + row]);
    law_multiplying_by_one_changes_nothing(m[12 + row]);
    let value = if column < 3 {
        m[4 * column + row] * coordinate(factors, column)
    } else {
        m[12 + row]
    };
    lemma_sum_of_one(
        m[row] * s[column * 4],
        m[4 + row] * s[column * 4 + 1],
        m[8 + row] * s[column * 4 + 2],
        m[12 + row] * s[column * 4 + 3],
        value,
    );
}

/// The transform of a node without a turn scales along the axes and then moves: the first three
/// columns of its matrix are the axes, as long as the scale says, and the last is the translation.
pub proof fn law_unturned_transforms_scale_and_move(transform: NodeTransform)
    requires
        is_unturned(transform.rotation),
        is_finite_vector(transform.translation),
        is_finite_vector(transform.scale),
    ensures
        forall|row: int, column: int|
            0 <= row < 3 && 0 <= column < 3 ==> alike(
                #[trigger] transform_matrix(transform)@[4 * column + row],
                if row == column {
                    coordinate(transform.scale, row)
                } else {
                    Float32 { bits: 0 }
                },
            ),
        forall|row: int|
            0 <= row < 3 ==> alike(
                #[trigger] transform_matrix(transform)@[12 + row],
                coordinate(transform.translation, row),
            ),
{
    let s = Mat4::scaling(transform.scale)@;
    let result = transform_matrix(transform)@;
    assert forall|row: int, column: int| 0 <= row < 3 && 0 <= column < 3 implies alike(
        #[trigger] result[4 * column + row],
        if row == column {
            coordinate(transform.scale, row)
        } else {
            Float32 { bits: 0 }
        },
    ) by {
        lemma_moved_element(transform.translation, s, row, column);
        lemma_place(row, column);
    }
    assert forall|row: int| 0 <= row < 3 implies alike(
        #[trigger] result[12 + row],
        coordinate(transform.translation, row),
    ) by {
        lemma_moved_element(transform.translation, s, row, 3);
        lemma_place(row, 3);
    }
}

proof fn lemma_place(row: int, column: int)
    requires
        0 <= row < 4,
        0 <= column < 4,
    ensures
        (4 * column + row) % 4 == row,
        (4 * column + row) / 4 == column,
{
}

/// The transform of a node scales along the axes, then turns, then moves: the first three columns
/// of its matrix are the turned axes, each as long as the scale of its axis says, and the last is
/// the translation.
pub proof fn law_transforms_scale_turn_and_move(transform: NodeTransform)
    requires
        !is_unturned(transform.rotation),
        is_finite_vector(transform.translation),
        is_finite_vector(transform.scale),
        forall|i: int|
            0 <= i < 16 ==> (#[trigger] quat_of(transform.rotation).rotation()@[i]).finite(),
        forall|row: int, column: int|
            0 <= row < 3 && 0 <= column < 3 ==> (#[trigger] quat_of(
                transform.rotation,
            ).rotation()@[4 * column + row] * coordinate(transform.scale, column)).finite(),
    ensures
        forall|row: int, column: int|
            0 <= row < 3 && 0 <= column < 3 ==> alike(
                #[trigger] transform_matrix(transform)@[4 * column + row],
                quat_of(transform.rotation).rotation()@[4 * column + row] * coordinate(
                    transform.scale,
                    column,
                ),
            ),
        forall|row: int|
            0 <= row < 3 ==> alike(
                #[trigger] transform_matrix(transform)@[12 + row],
                coordinate(transform.translation, row),
            ),
{
    let turn = quat_of(transform.rotation).rotation()@;
    let moved = (Mat4::translation(transform.translation) * quat_of(
        transform.rotation,
    ).rotation())@;
    assert forall|row: int, column: int| 0 <= row < 3 && 0 <= column < 4 implies alike(
        #[trigger] moved[4 * column + row],
        if column < 3 {
            turn[4 * column + row]
        } else {
            coordinate(transform.translation, row)
        },
    ) by {
        lemma_moved_element(transform.translation, turn, row, column);
        lemma_place(row, column);
    }
    assert forall|column: int| 0 <= column < 4 implies (#[trigger] moved[4 * column + 3]).finite() by {
        lemma_lowest_row(transform.translation, turn, column);
        lemma_place(3, column);
    }
    assert forall|i: int| 0 <= i < 16 implies (#[trigger] moved[i]).finite() by {
        let (row, column) = (i % 4, i / 4);
        assert(i == 4 * column + row);
        if row < 3 {
            assert(alike(
                moved[4 * column + row],
                if column < 3 {
                    turn[4 * column + row]
                } else {
                    coordinate(transform.translation, row)
                },
            ));
            assert(turn[i].finite());
        } else {
            assert(moved[4 * column + 3].finite());
        }
    }
    let result = transform_matrix(transform)@;
    assert forall|row: int, column: int| 0 <= row < 3 && 0 <= column < 3 implies alike(
        #[trigger] result[4 * column + row],
        turn[4 * column + row] * coordinate(transform.scale, column),
    ) by {
        let place = 4 * column + row;
        assert(alike(moved[place], turn[place]));
        let factor = coordinate(transform.scale, column);
        law_arithmetic_keeps_likeness(moved[place], factor, turn[place], factor);
        assert((turn[4 * column + row] * factor).finite());
        lemma_scaled_element(moved, transform.scale, row, column);
        lemma_place(row, column);
    }
    assert forall|row: int| 0 <= row < 3 implies alike(
        #[trigger] result[12 + row],
        coordinate(transform.translation, row),
    ) by {
        lemma_scaled_element(moved, transform.scale, row, 3);
        lemma_place(row, 3);
        assert(alike(moved[4 * 3 + row], coordinate(transform.translation, row)));
    }
}

/// The lowest row of a matrix that moves times a rotation.
proof fn lemma_lowest_row(offset: Vec3, m: Seq<Float32>, column: int)
    requires
        m.len() == 16,
        forall|i: int| 0 <= i < 16 ==> (#[trigger] m[i]).finite(),
        0 <= column < 4,
    ensures
        product_element(Mat4::translation(offset)@, m, 3, column).finite(),
{
    reveal(product_element);
    let t = Mat4::translation(offset)@;
    let zero = Float32 { bits: 0 };
    let (e, f, g, h) = (
        m[column * 4],
        m[column * 4 + 1],
        m[column * 4 + 2],
        m[column * 4 + 3],
    );
    lemma_vanishes(zero, e);
    lemma_vanishes(zero, f);
    lemma_vanishes(zero, g);
    law_multiplying_by_one_changes_nothing(h);
    lemma_sum_of_one(t[3] * e, t[7] * f, t[11] * g, t[15] * h, h);
}

} // verus!
