//! How animations pass through their keyframes.

use crate::arith::law_differences_of_equal_values_vanish;
use crate::float::{Float32, ONE};
use crate::gltf::animation::{Interpolation, SamplerModel};
use crate::gltf::sampling::{factor_at, interval_from, value_at, Sines};
use crate::reals::{
    alike, close, grain, law_quotients_are_close, law_small_constants, law_sums_are_close,
    law_values_keep_order, law_zeros_add_nothing, lemma_close_opposite, lemma_close_product,
    lemma_close_start, lemma_close_sum, lemma_grain, lemma_nearest_keeps_order,
    lemma_product_grows, lemma_product_is_bounded, size,
};
use crate::rounding::{law_representable_values_are_kept, Format};
use vstd::arithmetic::power2::{lemma2_to64, lemma_pow2_pos, pow2};
use vstd::prelude::*;

verus! {

/// Whether the times of keyframes are finite and rise.
pub open spec fn ascends(times: Seq<Float32>) -> bool {
    &&& forall|i: int| 0 <= i < times.len() ==> (#[trigger] times[i]).finite()
    &&& forall|i: int, j: int|
        0 <= i < j < times.len() ==> (#[trigger] times[i]).less(#[trigger] times[j])
}

/// The interval that a time is in starts with the last keyframe up to the time.
proof fn lemma_keyframe_starts_its_interval(
    times: Seq<Float32>,
    time: Float32,
    key: int,
    index: int,
)
    requires
        ascends(times),
        0 <= index <= key < times.len() - 1,
        times[key].at_most(time),
        time.less(times[key + 1]),
    ensures
        interval_from(times, time, index) == key,
    decreases key - index,
{
    if index < key {
        assert(!time.less(times[index + 1])) by {
            if index + 1 < key {
                assert(times[index + 1].less(times[key]));
            }
        }
        lemma_keyframe_starts_its_interval(times, time, key, index + 1);
    }
}

/// No part of an interval has passed at its start.
proof fn lemma_nothing_has_passed(start: Float32, end: Float32)
    requires
        start.finite(),
        end.finite(),
        start.less(end),
    ensures
        ((start - start) / (end - start)).clamped_to_unit().magnitude() == 0,
{
    law_differences_of_equal_values_vanish(start);
    reveal(Float32::minus);
    reveal(Float32::plus);
    reveal(Float32::over);
    let format = Format::Binary32;
    let unit = pow2(149);
    lemma_pow2_pos(149);
    let exact = end.scaled() - start.scaled();
    assert(exact > 0) by {
        law_values_keep_order(start, end);
        let (a, b, p) = (start.scaled() as real, end.scaled() as real, unit as real);
        if exact <= 0 {
            assert(b / p <= a / p) by (nonlinear_arith)
                requires
                    b <= a,
                    p > 0real,
            ;
        }
    }
    assert(start.opposite().scaled() == -start.scaled());
    let n = exact as nat;
    lemma2_to64();
    crate::float::lemma_powers();
    assert(format.scaled_value(1) == 1) by {
        assert(1nat / 0x80_0000nat == 0 && 1nat % 0x80_0000nat == 1);
        let one = pow2(0);
        assert(1 * one == 1);
    }
    law_representable_values_are_kept(format, 1, unit, 1);
    assert(1 * unit <= n * unit) by (nonlinear_arith)
        requires
            n >= 1,
    ;
    lemma_nearest_keeps_order(1, unit, n, unit);
    crate::rounding::lemma_nearest_exists(format, n, unit);
    let width = end - start;
    assert(width.magnitude() > 0);
    if width.finite() {
        crate::float::lemma_scaled_is_positive(width.magnitude());
        crate::arith::lemma_zero_is_nearest(format.scaled_value(width.magnitude()));
    }
}

/// An animation passes through its keyframes: at the time of a keyframe its value is the one that
/// the keyframe has, whichever way it moves between keyframes.
pub proof fn law_animations_pass_through_their_keyframes(
    sampler: SamplerModel,
    key: int,
    sines: Sines,
)
    requires
        ascends(sampler.input),
        0 <= key < sampler.input.len() <= usize::MAX,
        sampler.output.len() >= sampler.input.len(),
        forall|c: int| 0 <= c < 4 ==> (#[trigger] sampler.output[key][c]).finite(),
        key + 1 < sampler.input.len() ==> forall|c: int|
            0 <= c < 4 ==> (#[trigger] sampler.output[key + 1][c] - sampler.output[key][c]).finite(),
    ensures
        value_at(sampler, sampler.input[key], false, sines) matches Ok(value) && forall|c: int|
            0 <= c < 4 ==> alike(#[trigger] value[c], sampler.output[key][c]),
{
    let times = sampler.input;
    let time = times[key];
    if 0 < key < times.len() - 1 {
        assert(times[0].less(time) && time.less(times.last()));
        assert(time.less(times[key + 1]));
        lemma_keyframe_starts_its_interval(times, time, key, 0);
        if sampler.interpolation == Interpolation::Linear {
            lemma_nothing_has_passed(time, times[key + 1]);
            let factor = factor_at(times, time, key);
            let (a, b) = (sampler.output[key], sampler.output[key + 1]);
            assert forall|c: int| 0 <= c < 4 implies alike(
                (#[trigger] a[c]) + (b[c] - a[c]) * factor,
                a[c],
            ) by {
                assert((b[c] - a[c]).finite());
                crate::arith::law_products_with_zero_vanish(b[c] - a[c], factor);
                crate::arith::law_products_commute(b[c] - a[c], factor);
                law_zeros_add_nothing(a[c], (b[c] - a[c]) * factor);
            }
            let value = value_at(sampler, time, false, sines)->Ok_0;
            assert(value[0] == a[0] + (b[0] - a[0]) * factor);
            assert(value[1] == a[1] + (b[1] - a[1]) * factor);
            assert(value[2] == a[2] + (b[2] - a[2]) * factor);
            assert(value[3] == a[3] + (b[3] - a[3]) * factor);
        }
    } else if key > 0 {
        assert(times[0].less(time));
    }
}

/// The quotient of two rounded lengths is close to that of the lengths.
proof fn lemma_close_ratio(x: real, y: real, num: real, den: real, small: real)
    requires
        0real <= x <= y,
        y >= 1real / 1048576real,
        0real <= small <= 1real / 1267650600228229401496703205376real,
        size(num - x) <= x / 8388608real + small,
        size(den - y) <= y / 8388608real + small,
    ensures
        den > 0real,
        0real <= x / y <= 1real,
        8388608real * size(num / den - x / y) <= 3real,
{
    let (p, q) = (x / y, num / den);
    assert(0real <= p <= 1real && p * y == x) by (nonlinear_arith)
        requires
            0real <= x <= y,
            y > 0real,
            p == x / y,
    ;
    assert(q * den == num) by (nonlinear_arith)
        requires
            den > 0real,
            q == num / den,
    ;
    let d = den - y;
    let bound = y / 8388608real + small;
    lemma_product_is_bounded(p, d, 1real, bound);
    assert(p * den == p * y + p * d) by (nonlinear_arith)
        requires
            d == den - y,
    ;
    let e = q - p;
    assert(e * den == q * den - p * den) by (nonlinear_arith)
        requires
            e == q - p,
    ;
    assert(size(e * den) <= 2real * bound);
    let least = 3real / 8388608real;
    if e > least {
        lemma_product_grows(least, e, den);
        assert(false);
    }
    if e < -least {
        lemma_product_grows(e, -least, den);
        assert(false);
    }
}

/// The difference of two times.
proof fn lemma_close_length(end: Float32, start: Float32)
    requires
        start.finite() && end.finite(),
        size(start.value()) <= 33554432real,
        size(end.value()) <= 33554432real,
    ensures
        (end - start).finite(),
        size((end - start).value() - (end.value() - start.value())) <= size(
            end.value() - start.value(),
        ) / 8388608real + grain(),
{
    crate::reals::law_opposites_are_exact(start);
    assert(end - start == end + start.opposite()) by {
        reveal(Float32::minus);
    }
    law_sums_are_close(end, start.opposite());
}

/// The share of an interval that has passed is close to the exact one.
proof fn lemma_close_share(start: Float32, time: Float32, end: Float32)
    requires
        start.finite() && time.finite() && end.finite(),
        size(start.value()) <= 33554432real,
        size(end.value()) <= 33554432real,
        start.value() <= time.value() <= end.value(),
        end.value() - start.value() >= 1real / 1048576real,
    ensures
        close(
            ((time - start) / (end - start)).clamped_to_unit(),
            (time.value() - start.value()) / (end.value() - start.value()),
            1real,
            5,
        ),
{
    let (x, y) = (time.value() - start.value(), end.value() - start.value());
    lemma_close_length(time, start);
    lemma_close_length(end, start);
    lemma_grain();
    let (num, den) = (time - start, end - start);
    lemma_close_ratio(x, y, num.value(), den.value(), grain());
    if den.magnitude() == 0 {
        crate::arith::lemma_zero_is_nearest(1);
        law_small_constants();
        assert(den.scaled() == 0);
        lemma_pow2_pos(149);
        assert(den.value() == 0real) by {
            let p = pow2(149) as real;
            assert(0real / p == 0real) by (nonlinear_arith)
                requires
                    p > 0real,
            ;
        }
    }
    law_quotients_are_close(num, den);
    let quotient = num / den;
    let (zero, one) = (Float32 { bits: 0 }, Float32 { bits: ONE });
    law_small_constants();
    law_values_keep_order(quotient, zero);
    law_values_keep_order(one, quotient);
}

/// A coordinate on the line between two values.
proof fn lemma_close_mixture(a: Float32, b: Float32, f: Float32, share: real, r: real)
    requires
        a.finite() && b.finite(),
        size(a.value()) <= r,
        size(b.value()) <= r,
        1real <= r <= 33554432real,
        close(f, share, 1real, 5),
    ensures
        (a + (b - a) * f).finite(),
        8388608real * size(
            (a + (b - a) * f).value() - (a.value() + (b.value() - a.value()) * share),
        ) <= 33real * r,
{
    lemma_close_start(a, r);
    lemma_close_start(b, r);
    lemma_close_opposite(a, a.value(), r, 0);
    assert(b - a == b + a.opposite()) by {
        reveal(Float32::minus);
    }
    lemma_close_sum(b, b.value(), r, 0, a.opposite(), -a.value(), r, 0, 0);
    let d = b.value() - a.value();
    lemma_close_product(b - a, d, 2real * r, 2, f, share, 1real, 5);
    lemma_close_sum(a, a.value(), r, 0, (b - a) * f, d * share, 2real * r, 9, 9);
    let steps: int = 11;
    let (t, w) = (steps as real, 3real * r);
    assert(t * w == 33real * r) by (nonlinear_arith)
        requires
            t == 11real,
            w == 3real * r,
    ;
}

/// Between two keyframes an animation that moves straight is on the line from the value of the one
/// to the value of the other, as far along as the time is between theirs, up to rounding.
pub proof fn law_straight_animations_follow_lines(
    sampler: SamplerModel,
    key: int,
    time: Float32,
    sines: Sines,
    r: real,
)
    requires
        ascends(sampler.input),
        sampler.interpolation == Interpolation::Linear,
        0 <= key < sampler.input.len() - 1,
        sampler.input.len() <= usize::MAX,
        sampler.output.len() >= sampler.input.len(),
        time.finite(),
        sampler.input[key].at_most(time),
        time.less(sampler.input[key + 1]),
        size(sampler.input[key].value()) <= 33554432real,
        size(sampler.input[key + 1].value()) <= 33554432real,
        sampler.input[key + 1].value() - sampler.input[key].value() >= 1real / 1048576real,
        1real <= r <= 33554432real,
        forall|c: int|
            0 <= c < 4 ==> (#[trigger] sampler.output[key][c]).finite() && size(
                sampler.output[key][c].value(),
            ) <= r,
        forall|c: int|
            0 <= c < 4 ==> (#[trigger] sampler.output[key + 1][c]).finite() && size(
                sampler.output[key + 1][c].value(),
            ) <= r,
    ensures
        ({
            let (start, end) = (sampler.input[key].value(), sampler.input[key + 1].value());
            let share = (time.value() - start) / (end - start);
            value_at(sampler, time, false, sines) matches Ok(value) && forall|c: int|
                0 <= c < 4 ==> (#[trigger] value[c]).finite() && 8388608real * size(
                    value[c].value() - (sampler.output[key][c].value() + (sampler.output[key
                        + 1][c].value() - sampler.output[key][c].value()) * share),
                ) <= 33real * r
        }),
{
    let times = sampler.input;
    let (start, end) = (times[key], times[key + 1]);
    law_values_keep_order(start, time);
    law_values_keep_order(time, end);
    lemma_close_share(start, time, end);
    let share = (time.value() - start.value()) / (end.value() - start.value());
    let factor = factor_at(times, time, key);
    let (a, b) = (sampler.output[key], sampler.output[key + 1]);
    assert forall|c: int| 0 <= c < 4 implies (a[c] + (b[c] - a[c]) * factor).finite() && 8388608real
        * size(
        (#[trigger] a[c] + (b[c] - a[c]) * factor).value() - (a[c].value() + (b[c].value()
            - a[c].value()) * share),
    ) <= 33real * r by {
        assert(sampler.output[key][c].finite() && sampler.output[key + 1][c].finite());
        lemma_close_mixture(a[c], b[c], factor, share, r);
    }
    assert(!times.last().at_most(time)) by {
        if key + 1 < times.len() - 1 {
            assert(end.less(times.last()));
        }
    }
    if time.at_most(times[0]) {
        assert(key == 0) by {
            if key > 0 {
                assert(times[0].less(times[key]));
            }
        }
        assert(share == 0real) by {
            law_values_keep_order(time, start);
            let y = end.value() - start.value();
            assert(0real / y == 0real) by (nonlinear_arith)
                requires
                    y > 0real,
            ;
        }
        assert forall|c: int| 0 <= c < 4 implies (b[c].value() - #[trigger] a[c].value()) * share
            == 0real by {
            let d = b[c].value() - a[c].value();
            assert(d * share == 0real) by (nonlinear_arith)
                requires
                    share == 0real,
            ;
        }
    } else {
        lemma_keyframe_starts_its_interval(times, time, key, 0);
        let value = value_at(sampler, time, false, sines)->Ok_0;
        assert(value[0] == a[0] + (b[0] - a[0]) * factor);
        assert(value[1] == a[1] + (b[1] - a[1]) * factor);
        assert(value[2] == a[2] + (b[2] - a[2]) * factor);
        assert(value[3] == a[3] + (b[3] - a[3]) * factor);
    }
}

/// Between two keyframes an animation that steps keeps the value of the earlier one.
pub proof fn law_stepping_animations_keep_the_earlier_value(
    sampler: SamplerModel,
    key: int,
    time: Float32,
    rotation: bool,
    sines: Sines,
)
    requires
        ascends(sampler.input),
        sampler.interpolation == Interpolation::Step,
        0 <= key < sampler.input.len() - 1,
        sampler.input.len() <= usize::MAX,
        sampler.output.len() >= sampler.input.len(),
        sampler.input[key].at_most(time),
        time.less(sampler.input[key + 1]),
    ensures
        value_at(sampler, time, rotation, sines) == Ok::<[Float32; 4], Seq<char>>(
            sampler.output[key],
        ),
{
    let times = sampler.input;
    assert(!times.last().at_most(time)) by {
        if key + 1 < times.len() - 1 {
            assert(times[key + 1].less(times.last()));
        }
    }
    if key > 0 {
        assert(times[0].less(times[key]));
    }
    if !time.at_most(times[0]) {
        lemma_keyframe_starts_its_interval(times, time, key, 0);
    }
}

} // verus!
