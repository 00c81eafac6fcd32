//! Arithmetic on single-precision values.
//!
//! Every operation gives the value nearest to the exact result, ties to even. Whatever is not a
//! number comes out as one fixed bit pattern.

use crate::float::{lemma_powers, lemma_scaled_is_positive, Float32, INFINITY, ONE};
use crate::rounding::{
    law_representable_values_are_kept, law_rounding_keeps_order, law_values_grow_with_their_bits,
    lemma_midpoint_lies_between, lemma_nearest, lemma_successor, Format,
};
use vstd::arithmetic::div_mod::{lemma_fundamental_div_mod, lemma_fundamental_div_mod_converse};
use vstd::arithmetic::power2::{
    lemma2_to64, lemma2_to64_rest, lemma_pow2_adds, lemma_pow2_pos,
    lemma_pow2_strictly_increases, pow2,
};
use vstd::prelude::*;

verus! {

/// The bits of the result that is not a number.
pub const NOT_A_NUMBER: u32 = 0x7fc0_0000;

/// The power of two that exact results are scaled by while they are rounded.
pub open spec fn guard() -> nat {
    pow2(449)
}

/// What is known of an exact amount `whole` while it is cut down to `kept` units: `half` tells
/// whether at least half a unit is left over, and `rest` whether neither nothing nor exactly half
/// a unit is.
pub open spec fn is_cut(whole: nat, unit: nat, kept: nat, half: bool, rest: bool) -> bool {
    &&& kept * unit <= whole
    &&& whole < (kept + 1) * unit
    &&& half == (2 * whole >= (2 * kept + 1) * unit)
    &&& rest == !(whole == kept * unit || 2 * whole == (2 * kept + 1) * unit)
}

/// Halving the number of units that are kept.
proof fn lemma_cut_further(whole: nat, unit: nat, kept: nat, half: bool, rest: bool)
    requires
        is_cut(whole, unit, kept, half, rest),
        unit > 0,
    ensures
        is_cut(whole, 2 * unit, kept / 2, kept % 2 == 1, half || rest),
{
    let next = kept / 2;
    let bit = kept % 2;
    let part = next * unit;
    assert(kept * unit == 2 * part + bit * unit) by (nonlinear_arith)
        requires
            kept == 2 * next + bit,
            part == next * unit,
    ;
    assert((kept + 1) * unit == 2 * part + bit * unit + unit) by (nonlinear_arith)
        requires
            kept == 2 * next + bit,
            part == next * unit,
    ;
    assert((2 * kept + 1) * unit == 4 * part + 2 * (bit * unit) + unit) by (nonlinear_arith)
        requires
            kept == 2 * next + bit,
            part == next * unit,
    ;
    assert(next * (2 * unit) == 2 * part) by (nonlinear_arith)
        requires
            part == next * unit,
    ;
    assert((next + 1) * (2 * unit) == 2 * part + 2 * unit) by (nonlinear_arith)
        requires
            part == next * unit,
    ;
    assert((2 * next + 1) * (2 * unit) == 4 * part + 2 * unit) by (nonlinear_arith)
        requires
            part == next * unit,
    ;
    assert(bit * unit == if bit == 1 { unit } else { 0 }) by (nonlinear_arith)
        requires
            bit == 0 || bit == 1,
    ;
}

/// The parts of a magnitude that is put together from a significand and an exponent.
proof fn lemma_assembled(significand: nat, exponent: nat)
    requires
        significand < 0x100_0000,
        exponent > 0 ==> significand >= 0x80_0000,
    ensures
        Format::Binary32.significand(exponent * 0x80_0000 + significand) == significand,
        Format::Binary32.exponent(exponent * 0x80_0000 + significand) == exponent,
{
    lemma2_to64();
    let bits = exponent * 0x80_0000 + significand;
    if significand < 0x80_0000 {
        lemma_fundamental_div_mod_converse(bits as int, 0x80_0000, 0, significand as int);
    } else {
        lemma_fundamental_div_mod_converse(
            bits as int,
            0x80_0000,
            exponent as int + 1,
            significand as int - 0x80_0000,
        );
    }
}

/// Rounding a fraction of which it is known how many units of the last place it holds.
#[verifier::spinoff_prover]
proof fn lemma_rounded(numerator: nat, denominator: nat, kept: nat, exponent: nat, up: bool)
    requires
        denominator > 0,
        kept < 0x100_0000,
        exponent > 0 ==> kept >= 0x80_0000,
        denominator * (kept * pow2(exponent)) <= numerator * pow2(149),
        numerator * pow2(149) < denominator * ((kept + 1) * pow2(exponent)),
        up == (numerator * pow2(150) > denominator * ((2 * kept + 1) * pow2(exponent)) || (numerator
            * pow2(150) == denominator * ((2 * kept + 1) * pow2(exponent)) && kept % 2 == 1)),
    ensures
        Format::Binary32.nearest(numerator, denominator) == ({
            let bits = exponent * 0x80_0000 + kept + if up {
                1nat
            } else {
                0
            };
            if bits < INFINITY {
                bits
            } else {
                INFINITY as nat
            }
        }),
{
    let format = Format::Binary32;
    let low = exponent * 0x80_0000 + kept;
    let left = numerator * pow2(150);
    let half_left = numerator * pow2(149);
    lemma_assembled(kept, exponent);
    lemma_pow2_adds(149, 1);
    lemma2_to64();
    assert(left == 2 * half_left) by (nonlinear_arith)
        requires
            left == numerator * (pow2(149) * 2),
            half_left == numerator * pow2(149),
    ;
    assert(low % 2 == kept % 2);
    assert(format.scaled_value(low) == kept * pow2(exponent));
    lemma_successor(format, low);
    assert((kept + 1) * pow2(exponent) == kept * pow2(exponent) + pow2(exponent))
        by (nonlinear_arith);
    if low >= INFINITY {
        let top = (INFINITY - 1) as nat;
        lemma_midpoint_lies_between(format, top);
        law_values_grow_with_their_bits(format, INFINITY as nat, low);
        lemma_scaling(denominator, format.doubled_midpoint(top), 2 * format.scaled_value(low));
        lemma_doubling(denominator, format.scaled_value(low));
        assert(format.is_nearest(numerator, denominator, INFINITY as nat));
        lemma_nearest(format, numerator, denominator, INFINITY as nat);
    } else if up {
        let high = low + 1;
        if high < INFINITY {
            lemma_midpoint_lies_between(format, high);
            lemma_scaling(denominator, 2 * format.scaled_value(high), format.doubled_midpoint(high));
            lemma_doubling(denominator, format.scaled_value(high));
        }
        assert(format.is_nearest(numerator, denominator, high));
        lemma_nearest(format, numerator, denominator, high);
    } else {
        if low > 0 {
            let before = (low - 1) as nat;
            lemma_midpoint_lies_between(format, before);
            lemma_scaling(denominator, format.doubled_midpoint(before), 2 * format.scaled_value(low));
            lemma_doubling(denominator, format.scaled_value(low));
        }
        assert(format.is_nearest(numerator, denominator, low));
        lemma_nearest(format, numerator, denominator, low);
    }
}

proof fn lemma_scaling(factor: nat, small: nat, large: nat)
    requires
        factor > 0,
        small < large,
    ensures
        factor * small < factor * large,
{
    assert(factor * small < factor * large) by (nonlinear_arith)
        requires
            factor > 0,
            small < large,
    ;
}

proof fn lemma_doubling(factor: nat, value: nat)
    ensures
        factor * (2 * value) == 2 * (factor * value),
{
    assert(factor * (2 * value) == 2 * (factor * value)) by (nonlinear_arith);
}

proof fn lemma_nothing(numerator: nat, denominator: nat, unit: nat)
    requires
        denominator > 0,
        (0 * unit) * denominator == numerator * guard(),
    ensures
        numerator == 0,
        Format::Binary32.nearest(numerator, denominator) == 0,
{
    lemma_pow2_pos(449);
    assert((0 * unit) * denominator == 0) by (nonlinear_arith);
    assert(numerator == 0) by (nonlinear_arith)
        requires
            numerator * guard() == 0,
            guard() > 0,
    ;
    lemma_zero_is_nearest(denominator);
}

/// Nothing rounds to zero.
pub proof fn lemma_zero_is_nearest(denominator: nat)
    requires
        denominator > 0,
    ensures
        Format::Binary32.nearest(0, denominator) == 0,
        Format::Binary32.scaled_value(0) == 0,
{
    lemma_assembled(0, 0);
    assert(0 * pow2(0) == 0) by (nonlinear_arith);
    assert(0 * pow2(149) == 0) by (nonlinear_arith);
    assert(denominator * 0 == 0) by (nonlinear_arith);
    law_representable_values_are_kept(Format::Binary32, 0, denominator, 0);
}

/// Halving for the first time, where a part of a unit is left over.
proof fn lemma_cut_first(whole: nat, unit: nat, kept: nat)
    requires
        kept * unit < whole,
        whole < (kept + 1) * unit,
    ensures
        is_cut(whole, 2 * unit, kept / 2, kept % 2 == 1, true),
{
    let next = kept / 2;
    let bit = kept % 2;
    let part = next * unit;
    assert(kept * unit == 2 * part + bit * unit) by (nonlinear_arith)
        requires
            kept == 2 * next + bit,
            part == next * unit,
    ;
    assert((kept + 1) * unit == 2 * part + bit * unit + unit) by (nonlinear_arith)
        requires
            kept == 2 * next + bit,
            part == next * unit,
    ;
    assert(next * (2 * unit) == 2 * part) by (nonlinear_arith)
        requires
            part == next * unit,
    ;
    assert((next + 1) * (2 * unit) == 2 * part + 2 * unit) by (nonlinear_arith)
        requires
            part == next * unit,
    ;
    assert((2 * next + 1) * (2 * unit) == 4 * part + 2 * unit) by (nonlinear_arith)
        requires
            part == next * unit,
    ;
    assert(bit * unit == if bit == 1 { unit } else { 0 }) by (nonlinear_arith)
        requires
            bit == 0 || bit == 1,
    ;
}

proof fn lemma_regroup(first: nat, second: nat, third: nat)
    ensures
        (first * second) * third == first * (second * third),
{
    assert((first * second) * third == first * (second * third)) by (nonlinear_arith);
}

proof fn lemma_positive(first: nat, second: nat)
    requires
        first > 0,
        second > 0,
    ensures
        first * second > 0,
{
    assert(first * second > 0) by (nonlinear_arith)
        requires
            first > 0,
            second > 0,
    ;
}

proof fn lemma_next_unit(place: nat, denominator: nat)
    ensures
        pow2(place + 1) * denominator == 2 * (pow2(place) * denominator),
{
    lemma_pow2_adds(place, 1);
    lemma2_to64();
    let power = pow2(place);
    assert((power * 2) * denominator == 2 * (power * denominator)) by (nonlinear_arith);
}

proof fn lemma_few_steps(kept: nat, steps: nat)
    requires
        kept >= 1,
        kept * pow2(steps) <= u64::MAX,
        steps <= 64,
    ensures
        steps < 64,
        (kept / 2) * pow2(steps + 1) <= u64::MAX,
{
    lemma_pow2_adds(steps, 1);
    lemma2_to64();
    lemma2_to64_rest();
    let power = pow2(steps);
    assert(kept * power >= power) by (nonlinear_arith)
        requires
            kept >= 1,
            power >= 0,
    ;
    assert((kept / 2) * (power * 2) <= kept * power) by (nonlinear_arith)
        requires
            kept >= 1,
            power >= 0,
    ;
}

proof fn lemma_cancel(factor: nat, left: nat, right: nat)
    requires
        factor > 0,
    ensures
        (factor * left < factor * right) == (left < right),
        (factor * left == factor * right) == (left == right),
{
    assert((factor * left < factor * right) == (left < right)) by (nonlinear_arith)
        requires
            factor > 0,
    ;
    assert((factor * left == factor * right) == (left == right)) by (nonlinear_arith)
        requires
            factor > 0,
    ;
}

/// A cut at the last place of a magnitude, freed of the scaling.
proof fn lemma_last_place(
    numerator: nat,
    denominator: nat,
    kept: nat,
    exponent: nat,
    half: bool,
    rest: bool,
)
    requires
        is_cut(
            numerator * guard(),
            pow2(exponent + 300) * denominator,
            kept,
            half,
            rest,
        ),
    ensures
        denominator * (kept * pow2(exponent)) <= numerator * pow2(149),
        numerator * pow2(149) < denominator * ((kept + 1) * pow2(exponent)),
        half == (numerator * pow2(150) >= denominator * ((2 * kept + 1) * pow2(exponent))),
        rest == !(denominator * (kept * pow2(exponent)) == numerator * pow2(149) || numerator
            * pow2(150) == denominator * ((2 * kept + 1) * pow2(exponent))),
{
    let spare = pow2(300);
    let power = pow2(exponent);
    lemma_pow2_pos(300);
    lemma_pow2_adds(exponent, 300);
    lemma_pow2_adds(149, 300);
    lemma_pow2_adds(149, 1);
    lemma2_to64();
    let amount = numerator * pow2(149);
    assert(numerator * guard() == spare * amount) by (nonlinear_arith)
        requires
            guard() == pow2(149) * spare,
            amount == numerator * pow2(149),
    ;
    let unit = (power * spare) * denominator;
    assert(kept * unit == spare * (denominator * (kept * power))) by (nonlinear_arith)
        requires
            unit == (power * spare) * denominator,
    ;
    assert((kept + 1) * unit == spare * (denominator * ((kept + 1) * power))) by (nonlinear_arith)
        requires
            unit == (power * spare) * denominator,
    ;
    assert((2 * kept + 1) * unit == spare * (denominator * ((2 * kept + 1) * power)))
        by (nonlinear_arith)
        requires
            unit == (power * spare) * denominator,
    ;
    assert(2 * (spare * amount) == spare * (2 * amount)) by (nonlinear_arith);
    assert(numerator * (pow2(149) * 2) == 2 * amount) by (nonlinear_arith)
        requires
            amount == numerator * pow2(149),
    ;
    lemma_cancel(spare, denominator * (kept * power), amount);
    lemma_cancel(spare, amount, denominator * (kept * power));
    lemma_cancel(spare, amount, denominator * ((kept + 1) * power));
    lemma_cancel(spare, 2 * amount, denominator * ((2 * kept + 1) * power));
}

/// The magnitude nearest to `numerator / denominator`, which holds `amount` units of
/// two to the power `place - 300`, and a part of a unit more where `inexact` says so.
fn round(
    amount: u64,
    place: u64,
    inexact: bool,
    Ghost(numerator): Ghost<nat>,
    Ghost(denominator): Ghost<nat>,
) -> (result: u32)
    requires
        denominator > 0,
        place <= 2000,
        (amount * pow2(place as nat)) * denominator <= numerator * guard(),
        numerator * guard() < ((amount + 1) * pow2(place as nat)) * denominator,
        inexact == ((amount * pow2(place as nat)) * denominator != numerator * guard()),
        inexact ==> amount >= 0x200_0000,
    ensures
        result == Format::Binary32.nearest(numerator, denominator),
        result <= INFINITY,
{
    if amount == 0 {
        proof {
            lemma_nothing(numerator, denominator, pow2(place as nat));
        }
        return 0;
    }
    let ghost whole = numerator * guard();
    let ghost first = pow2(place as nat) * denominator;
    proof {
        lemma_pow2_pos(place as nat);
        lemma_regroup(amount as nat, pow2(place as nat), denominator);
        lemma_regroup((amount + 1) as nat, pow2(place as nat), denominator);
        lemma_positive(pow2(place as nat), denominator);
    }
    let mut kept: u64 = amount;
    let mut position: u64 = place;
    let mut half: bool = false;
    let mut rest: bool = false;
    if inexact {
        proof {
            lemma_cut_first(whole, first, amount as nat);
            lemma_next_unit(place as nat, denominator);
        }
        kept = amount / 2;
        position = place + 1;
        half = amount % 2 == 1;
        rest = true;
    } else {
        proof {
            assert((2 * amount + 1) * first == 2 * (amount * first) + first) by (nonlinear_arith);
        }
    }
    let ghost mut unit = pow2(position as nat) * denominator;
    while position < 300
        invariant
            denominator > 0,
            position <= 2001,
            unit == pow2(position as nat) * denominator,
            unit > 0,
            is_cut(whole, unit, kept as nat, half, rest),
            half || rest ==> kept >= 0x80_0000 || position <= 300,
        decreases 300 - position,
    {
        proof {
            lemma_cut_further(whole, unit, kept as nat, half, rest);
            lemma_next_unit(position as nat, denominator);
            unit = 2 * unit;
        }
        rest = half || rest;
        half = kept % 2 == 1;
        kept = kept / 2;
        position = position + 1;
    }
    let mut steps: u64 = 0;
    assert(pow2(0) == 1) by {
        lemma2_to64();
    }
    while kept >= 0x100_0000
        invariant
            denominator > 0,
            position <= 2001 + steps,
            position >= 300,
            kept * pow2(steps as nat) <= u64::MAX,
            unit == pow2(position as nat) * denominator,
            unit > 0,
            is_cut(whole, unit, kept as nat, half, rest),
            half || rest ==> kept >= 0x80_0000 || position <= 300,
            steps <= 64,
        decreases kept,
    {
        proof {
            lemma_few_steps(kept as nat, steps as nat);
            lemma_cut_further(whole, unit, kept as nat, half, rest);
            lemma_next_unit(position as nat, denominator);
            unit = 2 * unit;
        }
        rest = half || rest;
        half = kept % 2 == 1;
        kept = kept / 2;
        position = position + 1;
        steps = steps + 1;
    }
    while kept < 0x80_0000 && position > 300
        invariant
            denominator > 0,
            300 <= position <= 2065,
            kept < 0x100_0000,
            unit == pow2(position as nat) * denominator,
            unit > 0,
            is_cut(whole, unit, kept as nat, half, rest),
            half || rest ==> kept >= 0x80_0000 || position <= 300,
        decreases position,
    {
        proof {
            lemma_next_unit((position - 1) as nat, denominator);
            lemma_pow2_pos((position - 1) as nat);
            let finer = pow2((position - 1) as nat) * denominator;
            lemma_positive(pow2((position - 1) as nat), denominator);
            assert(kept * (2 * finer) == (2 * kept) * finer) by (nonlinear_arith);
            assert((2 * kept + 1) * finer == (2 * kept) * finer + finer) by (nonlinear_arith);
            assert((2 * (2 * kept) + 1) * finer == 2 * ((2 * kept) * finer) + finer)
                by (nonlinear_arith);
            assert((2 * kept + 1) * (2 * finer) == 2 * ((2 * kept + 1) * finer))
                by (nonlinear_arith);
            unit = finer;
        }
        kept = kept * 2;
        position = position - 1;
    }
    let up: bool = half && (rest || kept % 2 == 1);
    let exponent: u64 = position - 300;
    proof {
        lemma_last_place(numerator, denominator, kept as nat, exponent as nat, half, rest);
        let middle = denominator * ((2 * kept + 1) as nat * pow2(exponent as nat));
        let low = denominator * (kept as nat * pow2(exponent as nat));
        lemma_pow2_adds(149, 1);
        lemma2_to64();
        lemma_pow2_pos(exponent as nat);
        assert(numerator * pow2(150) == 2 * (numerator * pow2(149))) by (nonlinear_arith)
            requires
                pow2(150) == pow2(149) * 2,
        ;
        assert(middle > 2 * low) by (nonlinear_arith)
            requires
                denominator > 0,
                pow2(exponent as nat) > 0,
                middle == denominator * ((2 * kept + 1) as nat * pow2(exponent as nat)),
                low == denominator * (kept as nat * pow2(exponent as nat)),
        ;
        lemma_rounded(numerator, denominator, kept as nat, exponent as nat, up);
    }
    let bits: u64 = exponent * 0x80_0000 + kept + if up {
        1
    } else {
        0
    };
    if bits < INFINITY as u64 {
        bits as u32
    } else {
        INFINITY
    }
}

/// The significand and the exponent of a finite magnitude.
fn unpack(magnitude: u32) -> (result: (u64, u64))
    requires
        magnitude < INFINITY,
    ensures
        result.0 < 0x100_0000,
        result.1 <= 253,
        result.1 > 0 ==> result.0 >= 0x80_0000,
        magnitude > 0 ==> result.0 > 0,
        result.0 == Format::Binary32.significand(magnitude as nat),
        result.1 == Format::Binary32.exponent(magnitude as nat),
        Format::Binary32.scaled_value(magnitude as nat) == result.0 * pow2(result.1 as nat),
{
    proof {
        lemma2_to64();
        assert(pow2(23) == 0x80_0000);
    }
    let field: u32 = magnitude / 0x80_0000;
    let fraction: u32 = magnitude % 0x80_0000;
    if field == 0 {
        (fraction as u64, 0)
    } else {
        (0x80_0000 + fraction as u64, (field - 1) as u64)
    }
}

impl Float32 {
    /// A finite value, times two to the power 149.
    pub open spec fn scaled(self) -> int {
        if self.negative() {
            -(Format::Binary32.scaled_value(self.magnitude()) as int)
        } else {
            Format::Binary32.scaled_value(self.magnitude()) as int
        }
    }

    /// Whether the value is infinite.
    pub open spec fn infinite(self) -> bool {
        self.magnitude() == INFINITY
    }

    /// The value nearest to an exact one that is scaled by two to the power 149. Zero has the
    /// sign that is given.
    pub open spec fn of_scaled(exact: int, zero_is_negative: bool) -> Float32 {
        if exact == 0 {
            Float32::of(zero_is_negative, 0)
        } else if exact < 0 {
            Float32::of(true, Format::Binary32.nearest((-exact) as nat, pow2(149)))
        } else {
            Float32::of(false, Format::Binary32.nearest(exact as nat, pow2(149)))
        }
    }

    /// The sum of two values.
    #[verifier::opaque]
    pub open spec fn plus(self, other: Float32) -> Float32 {
        if self.not_a_number() || other.not_a_number() || (self.infinite() && other.infinite()
            && self.negative() != other.negative()) {
            Float32 { bits: NOT_A_NUMBER }
        } else if self.infinite() {
            self
        } else if other.infinite() {
            other
        } else {
            Float32::of_scaled(
                self.scaled() + other.scaled(),
                self.negative() && other.negative(),
            )
        }
    }

    /// The difference of two values.
    #[verifier::opaque]
    pub open spec fn minus(self, other: Float32) -> Float32 {
        self.plus(other.opposite())
    }

    /// The product of two values.
    #[verifier::opaque]
    pub open spec fn times(self, other: Float32) -> Float32 {
        let negative = self.negative() != other.negative();
        if self.not_a_number() || other.not_a_number() || (self.infinite() && other.magnitude()
            == 0) || (self.magnitude() == 0 && other.infinite()) {
            Float32 { bits: NOT_A_NUMBER }
        } else if self.infinite() || other.infinite() {
            Float32::of(negative, INFINITY as nat)
        } else {
            Float32::of(
                negative,
                Format::Binary32.nearest(
                    Format::Binary32.scaled_value(self.magnitude())
                        * Format::Binary32.scaled_value(other.magnitude()),
                    pow2(298),
                ),
            )
        }
    }

    /// The quotient of two values.
    #[verifier::opaque]
    pub open spec fn over(self, other: Float32) -> Float32 {
        let negative = self.negative() != other.negative();
        if self.not_a_number() || other.not_a_number() || (self.infinite() && other.infinite())
            || (self.magnitude() == 0 && other.magnitude() == 0) {
            Float32 { bits: NOT_A_NUMBER }
        } else if self.infinite() || other.magnitude() == 0 {
            Float32::of(negative, INFINITY as nat)
        } else if other.infinite() {
            Float32::of(negative, 0)
        } else {
            self.ratio(other)
        }
    }

    /// The product of two values.
    fn multiplied(self, other: Float32) -> (result: Float32)
        ensures
            result == self.times(other),
    {
        proof {
            reveal(Float32::times);
        }
        let (negative, magnitude): (bool, u32) = self.parts();
        let (other_negative, other_magnitude): (bool, u32) = other.parts();
        let sign: bool = negative != other_negative;
        if magnitude >= INFINITY || other_magnitude >= INFINITY {
            if magnitude > INFINITY || other_magnitude > INFINITY || magnitude == 0
                || other_magnitude == 0 {
                return Float32 { bits: NOT_A_NUMBER };
            }
            return Float32::from_parts(sign, INFINITY);
        }
        let (first, raised): (u64, u64) = unpack(magnitude);
        let (second, other_raised): (u64, u64) = unpack(other_magnitude);
        let ghost numerator = Format::Binary32.scaled_value(magnitude as nat)
            * Format::Binary32.scaled_value(other_magnitude as nat);
        let ghost denominator = pow2(298);
        proof {
            assert(first * second <= 0xff_ffff * 0xff_ffff) by (nonlinear_arith)
                requires
                    first <= 0xff_ffff,
                    second <= 0xff_ffff,
            ;
            lemma_product(first as nat, raised as nat, second as nat, other_raised as nat);
            lemma_pow2_pos(298);
            lemma_pow2_pos((raised + other_raised + 151) as nat);
            lemma_exactly(
                (first * second) as nat,
                pow2((raised + other_raised + 151) as nat),
                denominator,
            );
        }
        let bits: u32 = round(
            first * second,
            raised + other_raised + 151,
            false,
            Ghost(numerator),
            Ghost(denominator),
        );
        Float32::from_parts(sign, bits)
    }
}

proof fn lemma_exactly(amount: nat, unit: nat, denominator: nat)
    requires
        denominator > 0,
        unit > 0,
    ensures
        (amount * unit) * denominator < ((amount + 1) * unit) * denominator,
{
    assert((amount * unit) * denominator < ((amount + 1) * unit) * denominator)
        by (nonlinear_arith)
        requires
            denominator > 0,
            unit > 0,
    ;
}

proof fn lemma_product(first: nat, raised: nat, second: nat, other_raised: nat)
    ensures
        ((first * second) * pow2(raised + other_raised + 151)) * pow2(298) == ((first * pow2(
            raised,
        )) * (second * pow2(other_raised))) * guard(),
{
    let a = pow2(raised);
    let b = pow2(other_raised);
    lemma_pow2_adds(raised, other_raised);
    lemma_pow2_adds(raised + other_raised, 151);
    lemma_pow2_adds(151, 298);
    let c = pow2(151);
    let d = pow2(298);
    assert(((first * second) * ((a * b) * c)) * d == ((first * a) * (second * b)) * (c * d))
        by (nonlinear_arith);
}

/// The magnitude nearest to an exact amount that is scaled by two to the power 149. It holds
/// `amount` units of two to the power `exponent`, and a part of a unit more where `inexact` says
/// so.
fn round_scaled(amount: u64, exponent: u64, inexact: bool, Ghost(exact): Ghost<nat>) -> (result:
    u32)
    requires
        exponent <= 600,
        amount * pow2(exponent as nat) <= exact,
        exact < (amount + 1) * pow2(exponent as nat),
        inexact == (amount * pow2(exponent as nat) != exact),
        inexact ==> amount >= 0x200_0000,
    ensures
        result == Format::Binary32.nearest(exact, pow2(149)),
        result <= INFINITY,
{
    proof {
        let power = pow2(exponent as nat);
        lemma_pow2_adds(exponent as nat, 300);
        lemma_pow2_adds(300, 149);
        lemma_pow2_pos(149);
        lemma_pow2_pos(449);
        let spare = pow2(300);
        let scale = pow2(149);
        assert((amount * (power * spare)) * scale == guard() * (amount * power))
            by (nonlinear_arith)
            requires
                guard() == spare * scale,
        ;
        assert(((amount + 1) * (power * spare)) * scale == guard() * ((amount + 1) * power))
            by (nonlinear_arith)
            requires
                guard() == spare * scale,
        ;
        assert(exact * guard() == guard() * exact) by (nonlinear_arith);
        lemma_cancel(guard(), amount as nat * power, exact);
        lemma_cancel(guard(), exact, amount as nat * power);
        lemma_cancel(guard(), exact, (amount + 1) as nat * power);
    }
    round(amount, exponent + 300, inexact, Ghost(exact), Ghost(pow2(149)))
}

/// The sum of two finite values of which the first has the larger exponent.
#[verifier::spinoff_prover]
fn add_ordered(
    negative: bool,
    first: u64,
    raised: u64,
    other_negative: bool,
    second: u64,
    other_raised: u64,
) -> (result: Float32)
    requires
        first < 0x100_0000,
        second < 0x100_0000,
        other_raised <= raised <= 253,
        raised > 0 ==> first >= 0x80_0000,
    ensures
        result == Float32::of_scaled(
            signed(negative, first as nat * pow2(raised as nat)) + signed(
                other_negative,
                second as nat * pow2(other_raised as nat),
            ),
            negative && other_negative,
        ),
{
    let distance: u64 = raised - other_raised;
    let ghost high = first as nat * pow2(raised as nat);
    let ghost low = second as nat * pow2(other_raised as nat);
    if distance <= 28 {
        let factor: u64 = 1u64 << distance;
        proof {
            vstd::bits::lemma_u64_pow2_no_overflow(distance as nat);
            vstd::bits::lemma_u64_shl_is_mul(1, distance);
            if distance < 28 {
                lemma_pow2_strictly_increases(distance as nat, 28);
            }
            lemma2_to64();
            assert(factor <= 0x1000_0000);
            assert(first * factor <= 0xff_ffff * 0x1000_0000) by (nonlinear_arith)
                requires
                    first <= 0xff_ffff,
                    factor <= 0x1000_0000,
            ;
            lemma_pow2_adds(distance as nat, other_raised as nat);
            let power = pow2(other_raised as nat);
            assert(first * (factor * power) == (first * factor) * power) by (nonlinear_arith);
            lemma_pow2_pos(other_raised as nat);
        }
        let lifted: u64 = first * factor;
        let ghost power = pow2(other_raised as nat);
        assert(high == lifted * power);
        if negative == other_negative {
            let amount: u64 = lifted + second;
            proof {
                assert(amount * power == lifted * power + second * power) by (nonlinear_arith)
                    requires
                        amount == lifted + second,
                ;
                lemma_one_more(amount as nat, power);
            }
            if amount == 0 {
                assert(0 * power == 0) by (nonlinear_arith);
                return Float32::from_parts(negative, 0);
            }
            proof {
                lemma_positive(amount as nat, power);
            }
            let bits: u32 = round_scaled(
                amount,
                other_raised,
                false,
                Ghost((high + low) as nat),
            );
            return Float32::from_parts(negative, bits);
        }
        if lifted == second {
            return Float32::from_parts(false, 0);
        }
        if lifted > second {
            let amount: u64 = lifted - second;
            proof {
                assert(amount * power == lifted * power - second * power) by (nonlinear_arith)
                    requires
                        amount == lifted - second,
                ;
                lemma_one_more(amount as nat, power);
                lemma_positive(amount as nat, power);
            }
            let bits: u32 = round_scaled(
                amount,
                other_raised,
                false,
                Ghost((high - low) as nat),
            );
            return Float32::from_parts(negative, bits);
        }
        let amount: u64 = second - lifted;
        proof {
            assert(amount * power == second * power - lifted * power) by (nonlinear_arith)
                requires
                    amount == second - lifted,
            ;
            lemma_one_more(amount as nat, power);
            lemma_positive(amount as nat, power);
        }
        let bits: u32 = round_scaled(amount, other_raised, false, Ghost((low - high) as nat));
        return Float32::from_parts(other_negative, bits);
    }
    let ghost unit = pow2((raised - 4) as nat);
    proof {
        lemma_far(first as nat, raised as nat, second as nat, other_raised as nat);
    }
    let amount: u64 = first * 16;
    if second == 0 {
        proof {
            assert(0 * pow2(other_raised as nat) == 0) by (nonlinear_arith);
            lemma_one_more(amount as nat, unit);
        }
        let bits: u32 = round_scaled(amount, raised - 4, false, Ghost(high));
        return Float32::from_parts(negative, bits);
    }
    if negative == other_negative {
        proof {
            lemma_one_more(amount as nat, unit);
        }
        let bits: u32 = round_scaled(amount, raised - 4, true, Ghost((high + low) as nat));
        return Float32::from_parts(negative, bits);
    }
    proof {
        lemma_one_more((amount - 1) as nat, unit);
    }
    let bits: u32 = round_scaled(amount - 1, raised - 4, true, Ghost((high - low) as nat));
    Float32::from_parts(negative, bits)
}

/// An amount with a sign.
pub open spec fn signed(negative: bool, amount: nat) -> int {
    if negative {
        -(amount as int)
    } else {
        amount as int
    }
}

proof fn lemma_one_more(amount: nat, unit: nat)
    ensures
        (amount + 1) * unit == amount * unit + unit,
{
    assert((amount + 1) * unit == amount * unit + unit) by (nonlinear_arith);
}

/// An addend whose exponent is much smaller is worth less than a sixteenth of a unit.
proof fn lemma_far(first: nat, raised: nat, second: nat, other_raised: nat)
    requires
        raised >= other_raised + 29,
        first >= 0x80_0000,
        second < 0x100_0000,
    ensures
        first * pow2(raised) == (first * 16) * pow2((raised - 4) as nat),
        second * pow2(other_raised) < pow2((raised - 4) as nat),
        second > 0 ==> second * pow2(other_raised) > 0,
        pow2((raised - 4) as nat) > 0,
        first * pow2(raised) > pow2((raised - 4) as nat),
{
    lemma2_to64();
    let unit = pow2((raised - 4) as nat);
    lemma_pow2_pos((raised - 4) as nat);
    lemma_pow2_pos(other_raised);
    lemma_pow2_adds(4, (raised - 4) as nat);
    assert(first * (16 * unit) == (first * 16) * unit) by (nonlinear_arith);
    lemma_pow2_adds(24, other_raised);
    if other_raised + 24 < raised - 4 {
        lemma_pow2_strictly_increases(other_raised + 24, (raised - 4) as nat);
    }
    let power = pow2(other_raised);
    assert(second * power < 0x100_0000 * power) by (nonlinear_arith)
        requires
            second < 0x100_0000,
            power > 0,
    ;
    if second > 0 {
        lemma_positive(second, power);
    }
    assert((first * 16) * unit > unit) by (nonlinear_arith)
        requires
            first >= 0x80_0000,
            unit > 0,
    ;
}

impl Float32 {
    /// The sum of two values.
    fn added(self, other: Float32) -> (result: Float32)
        ensures
            result == self.plus(other),
    {
        proof {
            reveal(Float32::plus);
        }
        let (negative, magnitude): (bool, u32) = self.parts();
        let (other_negative, other_magnitude): (bool, u32) = other.parts();
        if magnitude >= INFINITY || other_magnitude >= INFINITY {
            if magnitude > INFINITY || other_magnitude > INFINITY || (magnitude == other_magnitude
                && negative != other_negative) {
                return Float32 { bits: NOT_A_NUMBER };
            }
            return if magnitude == INFINITY {
                self
            } else {
                other
            };
        }
        let (first, raised): (u64, u64) = unpack(magnitude);
        let (second, other_raised): (u64, u64) = unpack(other_magnitude);
        if raised >= other_raised {
            add_ordered(negative, first, raised, other_negative, second, other_raised)
        } else {
            add_ordered(other_negative, second, other_raised, negative, first, raised)
        }
    }
}

/// The significand of a finite magnitude that is not zero, moved up until its leading bit is set,
/// and the exponent that belongs to it, counted from 23 below the smallest one.
fn normalize(magnitude: u32) -> (result: (u64, u64))
    requires
        0 < magnitude < INFINITY,
    ensures
        0x80_0000 <= result.0 < 0x100_0000,
        result.1 <= 276,
        Format::Binary32.scaled_value(magnitude as nat) * 0x80_0000 == result.0 * pow2(
            result.1 as nat,
        ),
{
    let (start, raised): (u64, u64) = unpack(magnitude);
    let mut significand: u64 = start;
    let mut exponent: u64 = raised + 23;
    let ghost amount = Format::Binary32.scaled_value(magnitude as nat) * 0x80_0000;
    proof {
        lemma_pow2_adds(raised as nat, 23);
        lemma2_to64();
        let power = pow2(raised as nat);
        assert(start * (power * 0x80_0000) == (start * power) * 0x80_0000) by (nonlinear_arith);
    }
    let mut steps: u64 = 0;
    proof {
        lemma2_to64();
        assert(pow2(0) == 1);
        assert(start * 1 == start);
    }
    while significand < 0x80_0000
        invariant
            0 < significand < 0x100_0000,
            steps <= 23,
            exponent + steps == raised + 23,
            raised <= 253,
            amount == significand * pow2(exponent as nat),
            significand >= pow2(steps as nat),
        decreases 0x100_0000 - significand,
    {
        proof {
            lemma2_to64();
            lemma_pow2_adds(steps as nat, 1);
            if steps == 23 {
                assert(significand >= 0x80_0000);
            }
            lemma_pow2_adds((exponent - 1) as nat, 1);
            let power = pow2((exponent - 1) as nat);
            assert(significand * (power * 2) == (significand * 2) * power) by (nonlinear_arith);
        }
        significand = significand * 2;
        exponent = exponent - 1;
        steps = steps + 1;
    }
    (significand, exponent)
}

/// What rounding a quotient starts from.
proof fn lemma_quotient(
    numerator: nat,
    denominator: nat,
    first: nat,
    raised: nat,
    second: nat,
    other_raised: nat,
    amount: nat,
    left: nat,
)
    requires
        numerator * 0x80_0000 == first * pow2(raised),
        denominator * 0x80_0000 == second * pow2(other_raised),
        first * 0x4000_0000 == amount * second + left,
        left < second,
        other_raised <= 276,
    ensures
        (amount * pow2((raised + 419 - other_raised) as nat)) * denominator <= numerator * guard(),
        numerator * guard() < ((amount + 1) * pow2((raised + 419 - other_raised) as nat))
            * denominator,
        (left != 0) == ((amount * pow2((raised + 419 - other_raised) as nat)) * denominator
            != numerator * guard()),
{
    let place = (raised + 419 - other_raised) as nat;
    lemma2_to64();
    lemma_pow2_adds(30, 419);
    lemma_pow2_adds(raised, 419);
    lemma_pow2_adds(place, other_raised);
    lemma_pow2_pos(raised + 419);
    let unit = pow2(place);
    let other = pow2(other_raised);
    let wide = pow2(raised + 419);
    let most = pow2(419);
    let base = pow2(raised);
    assert((numerator * guard()) * 0x80_0000 == (first * 0x4000_0000) * wide) by (nonlinear_arith)
        requires
            numerator * 0x80_0000 == first * base,
            guard() == 0x4000_0000 * most,
            wide == base * most,
    ;
    assert(((amount * unit) * denominator) * 0x80_0000 == (amount * second) * wide)
        by (nonlinear_arith)
        requires
            denominator * 0x80_0000 == second * other,
            wide == unit * other,
    ;
    assert((((amount + 1) * unit) * denominator) * 0x80_0000 == ((amount + 1) * second) * wide)
        by (nonlinear_arith)
        requires
            denominator * 0x80_0000 == second * other,
            wide == unit * other,
    ;
    assert((amount + 1) * second == amount * second + second) by (nonlinear_arith);
    lemma_cancel(wide, amount * second, first * 0x4000_0000);
    lemma_cancel(wide, first * 0x4000_0000, amount * second);
    lemma_cancel(wide, first * 0x4000_0000, (amount + 1) * second);
    assert(wide * (amount * second) == (amount * second) * wide) by (nonlinear_arith);
    assert(wide * ((amount + 1) * second) == ((amount + 1) * second) * wide) by (nonlinear_arith);
    assert(wide * (first * 0x4000_0000) == (first * 0x4000_0000) * wide) by (nonlinear_arith);
}

impl Float32 {
    /// The quotient of two values.
    fn divided(self, other: Float32) -> (result: Float32)
        ensures
            result == self.over(other),
    {
        proof {
            reveal(Float32::over);
        }
        let (negative, magnitude): (bool, u32) = self.parts();
        let (other_negative, other_magnitude): (bool, u32) = other.parts();
        let sign: bool = negative != other_negative;
        if magnitude > INFINITY || other_magnitude > INFINITY || (magnitude == INFINITY
            && other_magnitude == INFINITY) || (magnitude == 0 && other_magnitude == 0) {
            return Float32 { bits: NOT_A_NUMBER };
        }
        if magnitude == INFINITY || other_magnitude == 0 {
            return Float32::from_parts(sign, INFINITY);
        }
        if other_magnitude == INFINITY {
            return Float32::from_parts(sign, 0);
        }
        proof {
            lemma_scaled_is_positive(other_magnitude as nat);
        }
        if magnitude == 0 {
            proof {
                lemma_zero_is_nearest(Format::Binary32.scaled_value(other_magnitude as nat));
            }
            return Float32::from_parts(sign, 0);
        }
        let (first, raised): (u64, u64) = normalize(magnitude);
        let (second, other_raised): (u64, u64) = normalize(other_magnitude);
        let dividend: u64 = first * 0x4000_0000;
        let amount: u64 = dividend / second;
        let left: u64 = dividend % second;
        let ghost numerator = Format::Binary32.scaled_value(magnitude as nat);
        let ghost denominator = Format::Binary32.scaled_value(other_magnitude as nat);
        proof {
            lemma_fundamental_div_mod(dividend as int, second as int);
            assert(dividend == amount * second + left) by (nonlinear_arith)
                requires
                    dividend == second * amount + left,
            ;
            assert(amount >= 0x200_0000) by (nonlinear_arith)
                requires
                    dividend == second * amount + left,
                    left < second,
                    second < 0x100_0000,
                    dividend >= 0x80_0000 * 0x4000_0000,
            ;
            lemma_quotient(
                numerator,
                denominator,
                first as nat,
                raised as nat,
                second as nat,
                other_raised as nat,
                amount as nat,
                left as nat,
            );
        }
        let bits: u32 = round(
            amount,
            raised + 419 - other_raised,
            left != 0,
            Ghost(numerator),
            Ghost(denominator),
        );
        Float32::from_parts(sign, bits)
    }
}

/// Whether the square root of `square` rounds to more than `bits`: it lies above the midpoint that
/// follows `bits`, or on it while `bits` is odd. The root is scaled by two to the power 149.
pub open spec fn root_rounds_above(square: nat, bits: nat) -> bool {
    let middle = Format::Binary32.doubled_midpoint(bits);
    4 * square > middle * middle || (4 * square == middle * middle && bits % 2 == 1)
}

/// Whether `bits` is the magnitude nearest to the square root of `square`, ties to even.
pub open spec fn is_nearest_root(square: nat, bits: nat) -> bool {
    &&& bits <= INFINITY
    &&& bits > 0 ==> root_rounds_above(square, (bits - 1) as nat)
    &&& bits < INFINITY ==> !root_rounds_above(square, bits)
}

/// The magnitude nearest to the square root of `square`.
pub open spec fn nearest_root(square: nat) -> nat {
    choose|bits: nat| is_nearest_root(square, bits)
}

proof fn lemma_squares_grow(small: nat, large: nat)
    requires
        small < large,
    ensures
        small * small < large * large,
{
    assert(small * small < large * large) by (nonlinear_arith)
        requires
            small < large,
    ;
}

proof fn lemma_root_rounds_above_smaller(square: nat, small: nat, large: nat)
    requires
        small <= large,
        root_rounds_above(square, large),
    ensures
        root_rounds_above(square, small),
{
    if small < large {
        let format = Format::Binary32;
        lemma_midpoint_lies_between(format, small);
        lemma_midpoint_lies_between(format, large);
        law_values_grow_with_their_bits(format, small + 1, large);
        lemma_squares_grow(format.doubled_midpoint(small), format.doubled_midpoint(large));
    }
}

/// The magnitude that was found to be nearest to a square root is the nearest one.
proof fn lemma_nearest_root(square: nat, bits: nat)
    requires
        is_nearest_root(square, bits),
    ensures
        nearest_root(square) == bits,
{
    let chosen = nearest_root(square);
    assert(is_nearest_root(square, chosen));
    if chosen < bits {
        lemma_root_rounds_above_smaller(square, chosen, (bits - 1) as nat);
    }
    if bits < chosen {
        lemma_root_rounds_above_smaller(square, bits, (chosen - 1) as nat);
    }
}

/// Rounding a square root of which it is known how many units of the last place it holds.
proof fn lemma_rounded_root(square: nat, kept: nat, exponent: nat, up: bool)
    requires
        0x80_0000 <= kept < 0x100_0000,
        exponent <= 250,
        (kept * pow2(exponent)) * (kept * pow2(exponent)) <= square,
        square < ((kept + 1) * pow2(exponent)) * ((kept + 1) * pow2(exponent)),
        ({
            let middle = (2 * kept + 1) * pow2(exponent);
            up == (4 * square > middle * middle || (4 * square == middle * middle && kept % 2
                == 1))
        }),
    ensures
        nearest_root(square) == exponent * 0x80_0000 + kept + if up {
            1nat
        } else {
            0
        },
        exponent * 0x80_0000 + kept + 1 < INFINITY,
{
    let format = Format::Binary32;
    let low = exponent * 0x80_0000 + kept;
    lemma_assembled(kept, exponent);
    assert(low % 2 == kept % 2);
    let value = format.scaled_value(low);
    assert(value == kept * pow2(exponent));
    lemma_successor(format, low);
    lemma_one_more(kept, pow2(exponent));
    if up {
        let high = low + 1;
        lemma_midpoint_lies_between(format, high);
        let above = format.scaled_value(high);
        assert(above == (kept + 1) * pow2(exponent));
        lemma_squares_grow(2 * above, format.doubled_midpoint(high));
        assert((2 * above) * (2 * above) == 4 * (above * above)) by (nonlinear_arith);
        assert(is_nearest_root(square, high));
        lemma_nearest_root(square, high);
    } else {
        let before = (low - 1) as nat;
        lemma_midpoint_lies_between(format, before);
        lemma_squares_grow(format.doubled_midpoint(before), 2 * value);
        assert((2 * value) * (2 * value) == 4 * (value * value)) by (nonlinear_arith);
        assert(is_nearest_root(square, low));
        lemma_nearest_root(square, low);
    }
}

/// The largest integer whose square is at most `number`.
fn integer_root(number: u64) -> (result: u64)
    requires
        number < 0x20_0000_0000_0000,
    ensures
        result * result <= number,
        number < (result + 1) * (result + 1),
        result < 0x800_0000,
{
    let mut low: u64 = 0;
    let mut high: u64 = 0x800_0000;
    assert(0x800_0000 * 0x800_0000 > 0x20_0000_0000_0000) by (nonlinear_arith);
    while high - low > 1
        invariant
            low < high <= 0x800_0000,
            low * low <= number,
            number < high * high,
        decreases high - low,
    {
        let middle: u64 = low + (high - low) / 2;
        assert(middle * middle <= 0x800_0000 * 0x800_0000) by (nonlinear_arith)
            requires
                middle <= 0x800_0000,
        ;
        if middle * middle <= number {
            low = middle;
        } else {
            high = middle;
        }
    }
    assert(high == low + 1);
    low
}

/// The place where a square root of `root` units is cut, and the way it is rounded there.
#[verifier::spinoff_prover]
proof fn lemma_root_is_cut(
    square: nat,
    root: nat,
    place: nat,
    dropped: nat,
    inexact: bool,
    kept: nat,
    half: bool,
    rest: bool,
)
    requires
        (root * pow2(place)) * (root * pow2(place)) <= square,
        square < ((root + 1) * pow2(place)) * ((root + 1) * pow2(place)),
        inexact == (square != (root * pow2(place)) * (root * pow2(place))),
        dropped == 1 || dropped == 2,
        kept == root / (2 * pow2(dropped)),
        half == (root % (2 * pow2(dropped)) >= pow2(dropped)),
        rest == (inexact || root % pow2(dropped) != 0),
    ensures
        ({
            let exponent = place + dropped + 1;
            let value = kept * pow2(exponent);
            let next = (kept + 1) * pow2(exponent);
            let middle = (2 * kept + 1) * pow2(exponent);
            &&& value * value <= square
            &&& square < next * next
            &&& half == (4 * square >= middle * middle)
            &&& (4 * square == middle * middle) == (half && !rest)
        }),
{
    let exponent = place + dropped + 1;
    let unit = pow2(place);
    lemma_pow2_pos(place);
    lemma2_to64();
    let step = pow2(dropped);
    assert(step == 2 || step == 4);
    lemma_pow2_adds(place, dropped);
    lemma_pow2_adds(place + dropped, 1);
    let power = pow2(exponent);
    assert(power == (unit * step) * 2);
    let value = kept * power;
    let next = (kept + 1) * power;
    let middle = (2 * kept + 1) * power;
    let low = root * unit;
    let high = (root + 1) * unit;
    let turn = (2 * kept + 1) * step;
    assert(value == (kept * (2 * step)) * unit) by (nonlinear_arith)
        requires
            value == kept * power,
            power == (unit * step) * 2,
    ;
    assert(next == ((kept + 1) * (2 * step)) * unit) by (nonlinear_arith)
        requires
            next == (kept + 1) * power,
            power == (unit * step) * 2,
    ;
    assert(middle == (2 * turn) * unit) by (nonlinear_arith)
        requires
            middle == (2 * kept + 1) * power,
            power == (unit * step) * 2,
            turn == (2 * kept + 1) * step,
    ;
    if step == 2 {
        assert(2 * step == 4);
        assert(kept * (2 * step) == 4 * kept) by (nonlinear_arith)
            requires
                step == 2,
        ;
        assert((kept + 1) * (2 * step) == 4 * kept + 4) by (nonlinear_arith)
            requires
                step == 2,
        ;
        assert((2 * kept + 1) * step == 4 * kept + 2) by (nonlinear_arith)
            requires
                step == 2,
        ;
        assert(kept == root / 4);
    } else {
        assert(2 * step == 8);
        assert(kept * (2 * step) == 8 * kept) by (nonlinear_arith)
            requires
                step == 4,
        ;
        assert((kept + 1) * (2 * step) == 8 * kept + 8) by (nonlinear_arith)
            requires
                step == 4,
        ;
        assert((2 * kept + 1) * step == 8 * kept + 4) by (nonlinear_arith)
            requires
                step == 4,
        ;
        assert(kept == root / 8);
    }
    assert(kept * (2 * step) <= root && root + 1 <= (kept + 1) * (2 * step));
    lemma_monotone(kept * (2 * step), root, unit);
    lemma_monotone(root + 1, (kept + 1) * (2 * step), unit);
    lemma_squares_keep_order(value, low);
    lemma_squares_keep_order(high, next);
    assert(half == (root >= turn));
    assert(4 * (low * low) == (2 * low) * (2 * low)) by (nonlinear_arith);
    assert(4 * (high * high) == (2 * high) * (2 * high)) by (nonlinear_arith);
    assert((2 * turn) * unit == 2 * (turn * unit)) by (nonlinear_arith);
    if root >= turn {
        lemma_monotone(turn, root, unit);
        lemma_squares_keep_order(middle, 2 * low);
        if root > turn {
            assert(turn * unit < low) by (nonlinear_arith)
                requires
                    turn < root,
                    unit > 0,
                    low == root * unit,
            ;
            lemma_squares_grow(middle, 2 * low);
            assert(root % step != 0);
        } else {
            assert(root % step == 0);
        }
    } else {
        lemma_monotone(root + 1, turn, unit);
        lemma_squares_keep_order(2 * high, middle);
    }
}

proof fn lemma_monotone(small: nat, large: nat, unit: nat)
    requires
        small <= large,
    ensures
        small * unit <= large * unit,
{
    assert(small * unit <= large * unit) by (nonlinear_arith)
        requires
            small <= large,
    ;
}

proof fn lemma_squares_keep_order(small: nat, large: nat)
    requires
        small <= large,
    ensures
        small * small <= large * large,
{
    assert(small * small <= large * large) by (nonlinear_arith)
        requires
            small <= large,
    ;
}

impl Float32 {
    /// The square root of a value.
    #[verifier::opaque]
    pub open spec fn root(self) -> Float32 {
        if self.magnitude() == 0 {
            self
        } else if self.not_a_number() || self.negative() {
            Float32 { bits: NOT_A_NUMBER }
        } else if self.infinite() {
            self
        } else {
            Float32::of(
                false,
                nearest_root(Format::Binary32.scaled_value(self.magnitude()) * pow2(149)),
            )
        }
    }

    /// The square root of a value.
    pub fn sqrt(self) -> (result: Float32)
        ensures
            result == self.root(),
    {
        proof {
            reveal(Float32::root);
        }
        let (negative, magnitude): (bool, u32) = self.parts();
        if magnitude == 0 {
            return self;
        }
        if magnitude > INFINITY || negative {
            return Float32 { bits: NOT_A_NUMBER };
        }
        if magnitude == INFINITY {
            return self;
        }
        let (significand, raised): (u64, u64) = normalize(magnitude);
        let ghost square = Format::Binary32.scaled_value(magnitude as nat) * pow2(149);
        // The square is the significand times two to the power `raised + 126`.
        proof {
            lemma2_to64();
            lemma_pow2_adds(23, 126);
            lemma_pow2_adds(raised as nat, 126);
            let base = pow2(raised as nat);
            let rest = pow2(126);
            assert(square == significand * (base * rest)) by (nonlinear_arith)
                requires
                    square == Format::Binary32.scaled_value(magnitude as nat) * (0x80_0000 * rest),
                    Format::Binary32.scaled_value(magnitude as nat) * 0x80_0000 == significand
                        * base,
            ;
        }
        if raised % 2 == 0 {
            let number: u64 = significand * 0x1000_0000;
            let place: u64 = (raised + 98) / 2;
            proof {
                lemma2_to64();
                lemma_pow2_adds(28, (raised + 98) as nat);
                assert(2 * place + 28 == raised + 126);
                assert(square == significand * pow2((2 * place + 28) as nat));
            }
            let bits: u32 = root_bits(number, place, 1, Ghost(square), Ghost(significand as nat));
            Float32::from_parts(false, bits)
        } else {
            let number: u64 = significand * 0x2000_0000;
            let place: u64 = (raised + 97) / 2;
            proof {
                lemma2_to64();
                lemma_pow2_adds(29, (raised + 97) as nat);
                assert(2 * place + 29 == raised + 126);
                assert(square == significand * pow2((2 * place + 29) as nat));
            }
            let bits: u32 = root_bits(number, place, 2, Ghost(square), Ghost(significand as nat));
            Float32::from_parts(false, bits)
        }
    }
}

/// The magnitude nearest to the square root of `number` times two to the power `2 * place`.
fn root_bits(
    number: u64,
    place: u64,
    dropped: u64,
    Ghost(square): Ghost<nat>,
    Ghost(significand): Ghost<nat>,
) -> (result: u32)
    requires
        dropped == 1 || dropped == 2,
        dropped == 1 ==> 0x8_0000_0000_0000 <= number < 0x10_0000_0000_0000,
        dropped == 2 ==> 0x10_0000_0000_0000 <= number < 0x20_0000_0000_0000,
        place <= 200,
        square == significand * pow2((2 * place + if dropped == 1 {
            28int
        } else {
            29int
        }) as nat),
        number == significand * if dropped == 1 {
            0x1000_0000int
        } else {
            0x2000_0000int
        },
    ensures
        result == nearest_root(square),
        result < INFINITY,
{
    let root: u64 = integer_root(number);
    let inexact: bool = root * root != number;
    proof {
        let unit = pow2(place as nat);
        lemma_pow2_adds(place as nat, place as nat);
        lemma_pow2_pos(place as nat);
        lemma2_to64();
        let shift = if dropped == 1 {
            28nat
        } else {
            29
        };
        lemma_pow2_adds((2 * place) as nat, shift);
        assert(square == number * (unit * unit)) by (nonlinear_arith)
            requires
                square == significand * ((unit * unit) * pow2(shift)),
                number == significand * pow2(shift),
        ;
        assert((root * unit) * (root * unit) == (root * root) * (unit * unit))
            by (nonlinear_arith);
        assert(((root + 1) * unit) * ((root + 1) * unit) == ((root + 1) * (root + 1)) * (unit
            * unit)) by (nonlinear_arith);
        lemma_positive(unit, unit);
        let area = unit * unit;
        lemma_monotone((root * root) as nat, number as nat, area);
        assert(number * area < ((root + 1) * (root + 1)) * area) by (nonlinear_arith)
            requires
                number < (root + 1) * (root + 1),
                area > 0,
        ;
        assert(((root * root) * area == number * area) == (root * root == number))
            by (nonlinear_arith)
            requires
                area > 0,
        ;
        if dropped == 1 {
            assert(root >= 0x200_0000) by (nonlinear_arith)
                requires
                    number >= 0x8_0000_0000_0000,
                    number < (root + 1) * (root + 1),
            ;
            assert(root < 0x400_0000) by (nonlinear_arith)
                requires
                    number < 0x10_0000_0000_0000,
                    root * root <= number,
            ;
        } else {
            assert(root >= 0x400_0000) by (nonlinear_arith)
                requires
                    number >= 0x10_0000_0000_0000,
                    number < (root + 1) * (root + 1),
            ;
        }
    }
    let step: u64 = if dropped == 1 {
        2
    } else {
        4
    };
    proof {
        lemma2_to64();
        assert(step == pow2(dropped as nat));
    }
    let kept: u64 = root / (2 * step);
    let half: bool = root % (2 * step) >= step;
    let rest: bool = inexact || root % step != 0;
    let up: bool = half && (rest || kept % 2 == 1);
    let exponent: u64 = place + dropped + 1;
    proof {
        lemma_root_is_cut(
            square,
            root as nat,
            place as nat,
            dropped as nat,
            inexact,
            kept as nat,
            half,
            rest,
        );
        lemma_rounded_root(square, kept as nat, exponent as nat, up);
    }
    (exponent * 0x80_0000 + kept + if up {
        1
    } else {
        0
    }) as u32
}

impl std::ops::Add for Float32 {
    type Output = Float32;

    fn add(self, other: Float32) -> (result: Float32) {
        self.added(other)
    }
}

impl vstd::std_specs::ops::AddSpecImpl for Float32 {
    open spec fn obeys_add_spec() -> bool {
        true
    }

    open spec fn add_req(self, other: Float32) -> bool {
        true
    }

    open spec fn add_spec(self, other: Float32) -> Float32 {
        self.plus(other)
    }
}

impl std::ops::Sub for Float32 {
    type Output = Float32;

    fn sub(self, other: Float32) -> (result: Float32) {
        proof {
            reveal(Float32::minus);
        }
        self.added(other.negate())
    }
}

impl vstd::std_specs::ops::SubSpecImpl for Float32 {
    open spec fn obeys_sub_spec() -> bool {
        true
    }

    open spec fn sub_req(self, other: Float32) -> bool {
        true
    }

    open spec fn sub_spec(self, other: Float32) -> Float32 {
        self.minus(other)
    }
}

impl std::ops::Mul for Float32 {
    type Output = Float32;

    fn mul(self, other: Float32) -> (result: Float32) {
        self.multiplied(other)
    }
}

impl vstd::std_specs::ops::MulSpecImpl for Float32 {
    open spec fn obeys_mul_spec() -> bool {
        true
    }

    open spec fn mul_req(self, other: Float32) -> bool {
        true
    }

    open spec fn mul_spec(self, other: Float32) -> Float32 {
        self.times(other)
    }
}

impl std::ops::Div for Float32 {
    type Output = Float32;

    fn div(self, other: Float32) -> (result: Float32) {
        self.divided(other)
    }
}

impl vstd::std_specs::ops::DivSpecImpl for Float32 {
    open spec fn obeys_div_spec() -> bool {
        true
    }

    open spec fn div_req(self, other: Float32) -> bool {
        true
    }

    open spec fn div_spec(self, other: Float32) -> Float32 {
        self.over(other)
    }
}

impl std::ops::Neg for Float32 {
    type Output = Float32;

    fn neg(self) -> (result: Float32) {
        self.negate()
    }
}

impl vstd::std_specs::ops::NegSpecImpl for Float32 {
    open spec fn obeys_neg_spec() -> bool {
        true
    }

    open spec fn neg_req(self) -> bool {
        true
    }

    open spec fn neg_spec(self) -> Float32 {
        self.opposite()
    }
}

/// The operators in contracts.
impl Float32 {
    pub open spec fn spec_add(self, other: Float32) -> Float32 {
        self.plus(other)
    }

    pub open spec fn spec_sub(self, other: Float32) -> Float32 {
        self.minus(other)
    }

    pub open spec fn spec_mul(self, other: Float32) -> Float32 {
        self.times(other)
    }

    pub open spec fn spec_euclidean_or_real_div(self, other: Float32) -> Float32 {
        self.over(other)
    }
}

impl Float32 {
    /// The value nearest to an integer with this sign and absolute value.
    pub fn from_integer(negative: bool, value: u64) -> (result: Float32)
        ensures
            result == Float32::of_integer(negative, value as nat),
    {
        proof {
            lemma_pow2_pos(449);
            lemma_exactly(value as nat, pow2(449), 1);
        }
        let bits: u32 = round(value, 449, false, Ghost(value as nat), Ghost(1));
        Float32::from_parts(negative, bits)
    }
}

impl Float32 {
    /// The integer nearest to a value, halves away from zero, held to the range from zero to
    /// `limit`, and zero where it is not a number.
    pub open spec fn rounded(self, limit: nat) -> nat {
        let nearest = (2 * Format::Binary32.scaled_value(self.magnitude()) + pow2(149)) / pow2(150);
        if self.not_a_number() || self.negative() {
            0
        } else if self.infinite() || nearest > limit {
            limit
        } else {
            nearest
        }
    }

    /// The integer nearest to a value, from zero to `limit`.
    pub fn round_to(self, limit: u64) -> (result: u64)
        ensures
            result == self.rounded(limit as nat),
    {
        let (negative, magnitude): (bool, u32) = self.parts();
        if magnitude > INFINITY || negative {
            return 0;
        }
        if magnitude == INFINITY {
            return limit;
        }
        let (significand, exponent): (u64, u64) = unpack(magnitude);
        if exponent >= 149 {
            proof {
                lemma_whole_is_rounded(significand as nat, exponent as nat);
            }
            return self.truncate_to(limit);
        }
        let down: u64 = 149 - exponent;
        if down > 25 {
            proof {
                lemma_rounds_to_zero(significand as nat, exponent as nat);
            }
            return 0;
        }
        let unit: u64 = 1u64 << down;
        proof {
            vstd::bits::lemma_u64_pow2_no_overflow(down as nat);
            vstd::bits::lemma_u64_shl_is_mul(1, down);
            if down < 25 {
                lemma_pow2_strictly_increases(down as nat, 25);
            }
            lemma2_to64();
            lemma_pow2_pos(down as nat);
            lemma_rounds_in_place(significand as nat, exponent as nat);
        }
        let nearest: u64 = (2 * significand + unit) / (2 * unit);
        if nearest > limit {
            limit
        } else {
            nearest
        }
    }
}

impl Float32 {
    /// The whole value nearest to this one, halves away from zero.
    pub open spec fn rounded_value(self) -> Float32 {
        if self.magnitude() >= TWO_TO_23 {
            self
        } else {
            Float32::of_integer(self.negative(), self.absolute().rounded(0x80_0000))
        }
    }

    /// The whole value nearest to this one, halves away from zero.
    pub fn round(self) -> (result: Float32)
        ensures
            result == self.rounded_value(),
    {
        let (negative, magnitude): (bool, u32) = self.parts();
        if magnitude >= TWO_TO_23 {
            self
        } else {
            Float32::from_integer(negative, self.abs().round_to(0x80_0000))
        }
    }

    /// The largest whole value that is not above this one.
    pub open spec fn floored(self) -> Float32 {
        let whole = Float32::of_integer(self.negative(), self.absolute().truncated(0x80_0000));
        if self.magnitude() >= TWO_TO_23 {
            self
        } else if self.negative() && self.less(whole) {
            whole - (Float32 { bits: ONE })
        } else {
            whole
        }
    }

    /// The largest whole value that is not above this one.
    pub fn floor(self) -> (result: Float32)
        ensures
            result == self.floored(),
    {
        let (negative, magnitude): (bool, u32) = self.parts();
        if magnitude >= TWO_TO_23 {
            return self;
        }
        let whole: Float32 = Float32::from_integer(negative, self.abs().truncate_to(0x80_0000));
        if negative && self.is_less(whole) {
            whole - Float32 { bits: ONE }
        } else {
            whole
        }
    }
}

/// The bits of two to the power 23, from which on every value is whole.
pub const TWO_TO_23: u32 = 0x4b00_0000;

proof fn lemma_whole_is_rounded(significand: nat, exponent: nat)
    requires
        exponent >= 149,
    ensures
        (2 * (significand * pow2(exponent)) + pow2(149)) / pow2(150) == (significand * pow2(
            exponent,
        )) / pow2(149),
{
    let up = (exponent - 149) as nat;
    lemma_pow2_adds(149, up);
    lemma_pow2_adds(149, 1);
    lemma2_to64();
    lemma_pow2_pos(149);
    let unit = pow2(149);
    let whole = significand * pow2(up);
    assert(significand * (unit * pow2(up)) == whole * unit) by (nonlinear_arith)
        requires
            whole == significand * pow2(up),
    ;
    assert(2 * (whole * unit) + unit == whole * (unit * 2) + unit) by (nonlinear_arith);
    lemma_fundamental_div_mod_converse(
        (2 * (whole * unit) + unit) as int,
        (unit * 2) as int,
        whole as int,
        unit as int,
    );
    lemma_fundamental_div_mod_converse((whole * unit) as int, unit as int, whole as int, 0);
}

proof fn lemma_rounds_to_zero(significand: nat, exponent: nat)
    requires
        significand < 0x100_0000,
        exponent < 124,
    ensures
        (2 * (significand * pow2(exponent)) + pow2(149)) / pow2(150) == 0,
{
    lemma_pow2_strictly_increases(exponent, 124);
    lemma_pow2_adds(24, 124);
    lemma_pow2_adds(148, 1);
    lemma_pow2_adds(149, 1);
    lemma2_to64();
    lemma_pow2_pos(124);
    let power = pow2(exponent);
    let top = pow2(124);
    assert(significand * power <= 0x100_0000 * top) by (nonlinear_arith)
        requires
            significand < 0x100_0000,
            power < top,
    ;
    let total = 2 * (significand * power) + pow2(149);
    lemma_pow2_pos(149);
    assert(significand * power < pow2(148)) by (nonlinear_arith)
        requires
            significand < 0x100_0000,
            power < top,
            pow2(148) == 0x100_0000 * top,
    ;
    vstd::arithmetic::power2::lemma_pow2_unfold(150);
    assert(pow2(150) == 2 * pow2(149));
    vstd::arithmetic::div_mod::lemma_basic_div(total as int, pow2(150) as int);
}

proof fn lemma_rounds_in_place(significand: nat, exponent: nat)
    requires
        exponent < 149,
    ensures
        (2 * (significand * pow2(exponent)) + pow2(149)) / pow2(150) == (2 * significand + pow2(
            (149 - exponent) as nat,
        )) / (2 * pow2((149 - exponent) as nat)),
{
    let down = (149 - exponent) as nat;
    let power = pow2(exponent);
    let unit = pow2(down);
    lemma_pow2_adds(down, exponent);
    lemma_pow2_adds(149, 1);
    lemma2_to64();
    lemma_pow2_pos(exponent);
    lemma_pow2_pos(down);
    let top = 2 * significand + unit;
    let bottom = 2 * unit;
    let q = top / bottom;
    let r = top % bottom;
    lemma_fundamental_div_mod(top as int, bottom as int);
    assert(2 * (significand * power) + unit * power == q * (bottom * power) + r * power && 0 <= r
        * power < bottom * power) by (nonlinear_arith)
        requires
            top == bottom * q + r,
            top == 2 * significand + unit,
            0 <= r < bottom,
            power > 0,
    ;
    assert(pow2(150) == bottom * power) by (nonlinear_arith)
        requires
            pow2(150) == (unit * power) * 2,
            bottom == 2 * unit,
    ;
    lemma_fundamental_div_mod_converse(
        (2 * (significand * power) + unit * power) as int,
        (bottom * power) as int,
        q as int,
        (r * power) as int,
    );
}

/// Sums do not depend on the order of their operands.
pub proof fn law_sums_commute(first: Float32, second: Float32)
    ensures
        first + second == second + first,
{
    reveal(Float32::plus);
    if first.infinite() && second.infinite() && first.negative() == second.negative() {
        assert(first == second);
    }
}

/// Products do not depend on the order of their operands.
pub proof fn law_products_commute(first: Float32, second: Float32)
    ensures
        first * second == second * first,
{
    reveal(Float32::times);
    let a = Format::Binary32.scaled_value(first.magnitude());
    let b = Format::Binary32.scaled_value(second.magnitude());
    assert(a * b == b * a) by (nonlinear_arith);
}

/// Adding zero to a finite value other than zero gives the value.
pub proof fn law_adding_zero_changes_nothing(value: Float32)
    requires
        value.finite(),
        value.magnitude() > 0,
    ensures
        value + (Float32 { bits: 0 }) == value,
        (Float32 { bits: 0 }) + value == value,
{
    reveal(Float32::plus);
    lemma_zero_is_nearest(1);
    lemma_scaled_is_positive(value.magnitude());
    lemma_pow2_pos(149);
    let scaled = Format::Binary32.scaled_value(value.magnitude());
    assert(scaled * pow2(149) == pow2(149) * scaled) by (nonlinear_arith);
    law_representable_values_are_kept(
        Format::Binary32,
        scaled,
        pow2(149),
        value.magnitude(),
    );
    assert((Float32 { bits: 0 }).scaled() == 0);
    law_sums_commute(value, Float32 { bits: 0 });
}

/// Multiplying a finite value by one gives the value.
pub proof fn law_multiplying_by_one_changes_nothing(value: Float32)
    requires
        value.finite(),
    ensures
        value * (Float32 { bits: ONE }) == value,
        (Float32 { bits: ONE }) * value == value,
{
    reveal(Float32::times);
    lemma_powers();
    lemma_pow2_pos(298);
    lemma_pow2_adds(149, 149);
    let scaled = Format::Binary32.scaled_value(value.magnitude());
    let unit = pow2(149);
    assert((scaled * unit) * unit == (unit * unit) * scaled) by (nonlinear_arith);
    law_representable_values_are_kept(
        Format::Binary32,
        scaled * unit,
        pow2(298),
        value.magnitude(),
    );
    law_products_commute(value, Float32 { bits: ONE });
}

/// A finite value less itself is zero.
pub proof fn law_differences_of_equal_values_vanish(value: Float32)
    requires
        value.finite(),
    ensures
        value - value == (Float32 { bits: 0 }),
{
    reveal(Float32::plus);
    reveal(Float32::minus);
}

/// Adding a zero of either sign to a finite value keeps the value.
pub proof fn law_adding_a_signed_zero_keeps_the_value(value: Float32, zero: Float32)
    requires
        value.finite(),
        zero.magnitude() == 0,
    ensures
        (value + zero).magnitude() == value.magnitude(),
        value.magnitude() > 0 ==> value + zero == value,
{
    reveal(Float32::plus);
    lemma_zero_is_nearest(1);
    assert(zero.scaled() == 0);
    if value.magnitude() > 0 {
        lemma_scaled_is_positive(value.magnitude());
        lemma_pow2_pos(149);
        let scaled = Format::Binary32.scaled_value(value.magnitude());
        assert(scaled * pow2(149) == pow2(149) * scaled) by (nonlinear_arith);
        law_representable_values_are_kept(
            Format::Binary32,
            scaled,
            pow2(149),
            value.magnitude(),
        );
    }
}

/// A finite value times a zero of either sign is zero.
pub proof fn law_products_with_zero_vanish(value: Float32, zero: Float32)
    requires
        value.finite(),
        zero.magnitude() == 0,
    ensures
        (value * zero).magnitude() == 0,
        (zero * value).magnitude() == 0,
        (value * zero).negative() == (value.negative() != zero.negative()),
{
    reveal(Float32::times);
    lemma_pow2_pos(298);
    lemma_zero_is_nearest(pow2(298));
    lemma_zero_is_nearest(1);
    let scaled = Format::Binary32.scaled_value(value.magnitude());
    assert(scaled * 0 == 0) by (nonlinear_arith);
    law_products_commute(value, zero);
}

/// A finite value times a share between none and all is no larger than the value.
pub proof fn law_products_with_shares_do_not_grow(value: Float32, share: Float32)
    requires
        value.finite(),
        share.magnitude() <= ONE,
    ensures
        (value * share).magnitude() <= value.magnitude(),
{
    reveal(Float32::times);
    let format = Format::Binary32;
    lemma_powers();
    lemma_pow2_pos(298);
    lemma_pow2_adds(149, 149);
    law_values_grow_with_their_bits(format, share.magnitude(), ONE as nat);
    let whole = format.scaled_value(value.magnitude());
    let part = format.scaled_value(share.magnitude());
    let unit = pow2(149);
    assert((whole * part) * unit <= (unit * unit) * whole) by (nonlinear_arith)
        requires
            part <= unit,
    ;
    law_rounding_keeps_order(format, whole * part, pow2(298), value.magnitude());
}

/// Dividing a finite value by one gives the value.
pub proof fn law_dividing_by_one_changes_nothing(value: Float32)
    requires
        value.finite(),
    ensures
        value / (Float32 { bits: ONE }) == value,
{
    reveal(Float32::over);
    lemma_powers();
    lemma_pow2_pos(149);
    let scaled = Format::Binary32.scaled_value(value.magnitude());
    assert(scaled * pow2(149) == pow2(149) * scaled) by (nonlinear_arith);
    law_representable_values_are_kept(
        Format::Binary32,
        scaled,
        pow2(149),
        value.magnitude(),
    );
}

} // verus!
