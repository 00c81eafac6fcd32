//! Rounding of exact fractions to the binary interchange formats.
//!
//! A magnitude is written as the bits of its format without the sign. Magnitudes are ordered
//! like their values, and the bits after the largest finite magnitude stand for infinity.

use crate::bignat::{BigNat, Comparison};
use vstd::arithmetic::power2::{
    lemma2_to64, lemma2_to64_rest, lemma_pow2_adds, lemma_pow2_pos, pow2,
};
use vstd::prelude::*;

verus! {

/// A binary interchange format.
#[derive(Clone, Copy, PartialEq, Eq, Structural, Debug)]
pub enum Format {
    /// Single precision.
    Binary32,
    /// Double precision.
    Binary64,
}

impl Format {
    /// How many bits the fraction field has.
    pub open spec fn fraction_bits(self) -> nat {
        match self {
            Format::Binary32 => 23,
            Format::Binary64 => 52,
        }
    }

    /// Every finite value is a whole multiple of two to the power minus this.
    pub open spec fn scale(self) -> nat {
        match self {
            Format::Binary32 => 149,
            Format::Binary64 => 1074,
        }
    }

    /// The magnitude bits of infinity.
    pub open spec fn infinity(self) -> nat {
        match self {
            Format::Binary32 => 0x7f80_0000,
            Format::Binary64 => 0x7ff0_0000_0000_0000,
        }
    }

    /// The exponent field of a magnitude.
    pub open spec fn exponent_field(self, bits: nat) -> nat {
        bits / pow2(self.fraction_bits())
    }

    /// The integer significand of a magnitude, with the implied leading bit.
    pub open spec fn significand(self, bits: nat) -> nat {
        let fraction = bits % pow2(self.fraction_bits());
        if self.exponent_field(bits) == 0 {
            fraction
        } else {
            pow2(self.fraction_bits()) + fraction
        }
    }

    /// The power of two that the significand is multiplied by, counted from the smallest one.
    pub open spec fn exponent(self, bits: nat) -> nat {
        if self.exponent_field(bits) == 0 {
            0
        } else {
            (self.exponent_field(bits) - 1) as nat
        }
    }

    /// The value of a magnitude, times two to the power `scale`.
    pub open spec fn scaled_value(self, bits: nat) -> nat {
        self.significand(bits) * pow2(self.exponent(bits))
    }

    /// Twice the scaled value that lies halfway from a magnitude to the next one.
    pub open spec fn doubled_midpoint(self, bits: nat) -> nat {
        (2 * self.significand(bits) + 1) * pow2(self.exponent(bits))
    }

    /// Whether `numerator / denominator` rounds to more than `bits`: it lies above the midpoint
    /// that follows `bits`, or on it while `bits` is odd.
    pub open spec fn rounds_above(self, numerator: nat, denominator: nat, bits: nat) -> bool {
        let left = numerator * pow2(self.scale() + 1);
        let right = denominator * self.doubled_midpoint(bits);
        left > right || (left == right && bits % 2 == 1)
    }

    /// Whether `bits` is the magnitude nearest to `numerator / denominator`, ties to even.
    pub open spec fn is_nearest(self, numerator: nat, denominator: nat, bits: nat) -> bool {
        &&& bits <= self.infinity()
        &&& bits > 0 ==> self.rounds_above(numerator, denominator, (bits - 1) as nat)
        &&& bits < self.infinity() ==> !self.rounds_above(numerator, denominator, bits)
    }

    /// The magnitude nearest to `numerator / denominator`, ties to even. What lies beyond the
    /// largest finite magnitude by half a unit or more gives infinity.
    pub open spec fn nearest(self, numerator: nat, denominator: nat) -> nat {
        choose|bits: nat| self.is_nearest(numerator, denominator, bits)
    }
}

/// Each midpoint lies below the one after the next magnitude.
proof fn lemma_midpoints_increase(format: Format, bits: nat)
    ensures
        format.doubled_midpoint(bits) < format.doubled_midpoint(bits + 1),
{
    let unit = pow2(format.fraction_bits());
    lemma_pow2_pos(format.fraction_bits());
    let field = bits / unit;
    let fraction = bits % unit;
    assert(bits == field * unit + fraction) by {
        vstd::arithmetic::div_mod::lemma_fundamental_div_mod(bits as int, unit as int);
        assert(field * unit == unit * field) by (nonlinear_arith);
    }
    if fraction + 1 < unit {
        vstd::arithmetic::div_mod::lemma_fundamental_div_mod_converse(
            (bits + 1) as int,
            unit as int,
            field as int,
            (fraction + 1) as int,
        );
        lemma_pow2_pos(format.exponent(bits));
        let power = pow2(format.exponent(bits));
        let low = format.significand(bits);
        assert((2 * low + 1) * power < (2 * (low + 1) + 1) * power) by (nonlinear_arith)
            requires
                power > 0,
        ;
    } else {
        assert((field + 1) * unit + 0 == bits + 1) by (nonlinear_arith)
            requires
                bits == field * unit + fraction,
                fraction + 1 == unit,
        ;
        vstd::arithmetic::div_mod::lemma_fundamental_div_mod_converse(
            (bits + 1) as int,
            unit as int,
            (field + 1) as int,
            0,
        );
        lemma_pow2_pos(format.exponent(bits));
        let power = pow2(format.exponent(bits));
        if field == 0 {
            assert((2 * (unit - 1) + 1) * power < (2 * unit + 1) * power) by (nonlinear_arith)
                requires
                    power > 0,
            ;
        } else {
            lemma_pow2_adds(1, format.exponent(bits));
            lemma2_to64();
            assert((2 * (unit + unit - 1) + 1) * power < (2 * unit + 1) * (2 * power))
                by (nonlinear_arith)
                requires
                    power > 0,
            ;
        }
    }
}

/// What rounds above a magnitude rounds above every smaller one.
pub proof fn lemma_rounds_above_smaller(
    format: Format,
    numerator: nat,
    denominator: nat,
    small: nat,
    large: nat,
)
    requires
        denominator > 0,
        small <= large,
        format.rounds_above(numerator, denominator, large),
    ensures
        format.rounds_above(numerator, denominator, small),
    decreases large - small,
{
    if small < large {
        let before = (large - 1) as nat;
        lemma_midpoints_increase(format, before);
        let low = format.doubled_midpoint(before);
        let high = format.doubled_midpoint(large);
        assert(denominator * low < denominator * high) by (nonlinear_arith)
            requires
                low < high,
                denominator > 0,
        ;
        lemma_rounds_above_smaller(format, numerator, denominator, small, before);
    }
}

/// At most one magnitude is nearest to a fraction.
pub proof fn lemma_nearest_is_unique(
    format: Format,
    numerator: nat,
    denominator: nat,
    first: nat,
    second: nat,
)
    requires
        denominator > 0,
        format.is_nearest(numerator, denominator, first),
        format.is_nearest(numerator, denominator, second),
    ensures
        first == second,
{
    if first < second {
        lemma_rounds_above_smaller(format, numerator, denominator, first, (second - 1) as nat);
    }
    if second < first {
        lemma_rounds_above_smaller(format, numerator, denominator, second, (first - 1) as nat);
    }
}

/// The magnitude that was found to be nearest is the nearest one.
pub proof fn lemma_nearest(format: Format, numerator: nat, denominator: nat, bits: nat)
    requires
        denominator > 0,
        format.is_nearest(numerator, denominator, bits),
    ensures
        format.nearest(numerator, denominator) == bits,
{
    let chosen = format.nearest(numerator, denominator);
    assert(format.is_nearest(numerator, denominator, chosen));
    lemma_nearest_is_unique(format, numerator, denominator, chosen, bits);
}

/// Every fraction has a nearest magnitude.
pub proof fn lemma_nearest_exists(format: Format, numerator: nat, denominator: nat)
    ensures
        format.is_nearest(numerator, denominator, format.nearest(numerator, denominator)),
{
    lemma_nearest_below(format, numerator, denominator, format.infinity());
}

proof fn lemma_nearest_below(format: Format, numerator: nat, denominator: nat, bits: nat)
    requires
        bits <= format.infinity(),
        bits < format.infinity() ==> !format.rounds_above(numerator, denominator, bits),
    ensures
        exists|found: nat| format.is_nearest(numerator, denominator, found),
    decreases bits,
{
    if bits == 0 || format.rounds_above(numerator, denominator, (bits - 1) as nat) {
        assert(format.is_nearest(numerator, denominator, bits));
    } else {
        lemma_nearest_below(format, numerator, denominator, (bits - 1) as nat);
    }
}

/// Magnitudes step by a power of two: the value after `bits` lies one unit of its exponent above.
pub proof fn lemma_successor(format: Format, bits: nat)
    ensures
        format.scaled_value(bits + 1) == format.scaled_value(bits) + pow2(format.exponent(bits)),
{
    let unit = pow2(format.fraction_bits());
    lemma_pow2_pos(format.fraction_bits());
    let field = bits / unit;
    let fraction = bits % unit;
    assert(bits == field * unit + fraction) by {
        vstd::arithmetic::div_mod::lemma_fundamental_div_mod(bits as int, unit as int);
        assert(field * unit == unit * field) by (nonlinear_arith);
    }
    let power = pow2(format.exponent(bits));
    let low = format.significand(bits);
    if fraction + 1 < unit {
        vstd::arithmetic::div_mod::lemma_fundamental_div_mod_converse(
            (bits + 1) as int,
            unit as int,
            field as int,
            (fraction + 1) as int,
        );
        assert((low + 1) * power == low * power + power) by (nonlinear_arith);
    } else {
        assert((field + 1) * unit + 0 == bits + 1) by (nonlinear_arith)
            requires
                bits == field * unit + fraction,
                fraction + 1 == unit,
        ;
        vstd::arithmetic::div_mod::lemma_fundamental_div_mod_converse(
            (bits + 1) as int,
            unit as int,
            (field + 1) as int,
            0,
        );
        assert(low + 1 == if field == 0 { unit } else { 2 * unit });
        assert((low + 1) * power == low * power + power) by (nonlinear_arith);
        if field > 0 {
            lemma_pow2_adds(1, format.exponent(bits));
            lemma2_to64();
            assert(unit * (2 * power) == (2 * unit) * power) by (nonlinear_arith);
        }
    }
}

/// Magnitudes are ordered like their values.
pub proof fn law_values_grow_with_their_bits(format: Format, small: nat, large: nat)
    requires
        small <= large,
    ensures
        format.scaled_value(small) <= format.scaled_value(large),
    decreases large - small,
{
    if small < large {
        let before = (large - 1) as nat;
        law_values_grow_with_their_bits(format, small, before);
        lemma_successor(format, before);
    }
}

/// Rounding moves no fraction past a magnitude that it does not lie beyond.
pub proof fn law_rounding_keeps_order(format: Format, numerator: nat, denominator: nat, bits: nat)
    requires
        denominator > 0,
        bits < format.infinity(),
    ensures
        numerator * pow2(format.scale()) <= denominator * format.scaled_value(bits)
            ==> format.nearest(numerator, denominator) <= bits,
        numerator * pow2(format.scale()) >= denominator * format.scaled_value(bits)
            ==> format.nearest(numerator, denominator) >= bits,
{
    let rounded = format.nearest(numerator, denominator);
    lemma_nearest_exists(format, numerator, denominator);
    lemma_pow2_adds(format.scale(), 1);
    lemma2_to64();
    let power = pow2(format.scale());
    let value = format.scaled_value(bits);
    assert(numerator * (power * 2) == 2 * (numerator * power)) by (nonlinear_arith);
    if numerator * power <= denominator * value && rounded > bits {
        lemma_rounds_above_smaller(format, numerator, denominator, bits, (rounded - 1) as nat);
        lemma_midpoint_lies_between(format, bits);
        assert(denominator * format.doubled_midpoint(bits) > 2 * (denominator * value))
            by (nonlinear_arith)
            requires
                denominator > 0,
                format.doubled_midpoint(bits) > 2 * value,
        ;
    }
    if numerator * power >= denominator * value && rounded < bits {
        lemma_midpoint_lies_between(format, rounded);
        law_values_grow_with_their_bits(format, rounded + 1, bits);
        assert(denominator * format.doubled_midpoint(rounded) < 2 * (denominator * value))
            by (nonlinear_arith)
            requires
                denominator > 0,
                format.doubled_midpoint(rounded) < 2 * value,
        ;
    }
}

pub proof fn lemma_midpoint_lies_between(format: Format, bits: nat)
    ensures
        2 * format.scaled_value(bits) < format.doubled_midpoint(bits),
        format.doubled_midpoint(bits) < 2 * format.scaled_value(bits + 1),
{
    let unit = pow2(format.exponent(bits));
    lemma_pow2_pos(format.exponent(bits));
    let low = format.significand(bits);
    assert((2 * low + 1) * unit == 2 * (low * unit) + unit) by (nonlinear_arith);
    lemma_successor(format, bits);
}

/// A fraction that some finite magnitude equals rounds to that magnitude.
pub proof fn law_representable_values_are_kept(
    format: Format,
    numerator: nat,
    denominator: nat,
    bits: nat,
)
    requires
        denominator > 0,
        bits < format.infinity(),
        numerator * pow2(format.scale()) == denominator * format.scaled_value(bits),
    ensures
        format.nearest(numerator, denominator) == bits,
{
    let scale = format.scale();
    let value = format.scaled_value(bits);
    lemma_pow2_adds(scale, 1);
    lemma2_to64();
    let power = pow2(scale);
    assert(numerator * (power * 2) == denominator * (2 * value)) by (nonlinear_arith)
        requires
            numerator * power == denominator * value,
    ;
    let unit = pow2(format.exponent(bits));
    lemma_pow2_pos(format.exponent(bits));
    let low = format.significand(bits);
    assert((2 * low + 1) * unit == 2 * (low * unit) + unit) by (nonlinear_arith);
    assert(denominator * (2 * value) < denominator * format.doubled_midpoint(bits))
        by (nonlinear_arith)
        requires
            denominator > 0,
            2 * value < format.doubled_midpoint(bits),
    ;
    if bits > 0 {
        let before = (bits - 1) as nat;
        lemma_successor(format, before);
        let step = pow2(format.exponent(before));
        lemma_pow2_pos(format.exponent(before));
        let lower = format.significand(before);
        assert((2 * lower + 1) * step == 2 * (lower * step) + step) by (nonlinear_arith);
        assert(denominator * (2 * value) > denominator * format.doubled_midpoint(before))
            by (nonlinear_arith)
            requires
                denominator > 0,
                2 * value > format.doubled_midpoint(before),
        ;
    }
    lemma_nearest(format, numerator, denominator, bits);
}

/// The significand and the exponent of a magnitude.
fn split(format: Format, bits: u64) -> (result: (u64, u64))
    ensures
        result.0 == format.significand(bits as nat),
        result.1 == format.exponent(bits as nat),
        result.0 < 0x20_0000_0000_0000,
{
    proof {
        lemma2_to64();
        lemma2_to64_rest();
    }
    let unit: u64 = match format {
        Format::Binary32 => 0x80_0000,
        Format::Binary64 => 0x10_0000_0000_0000,
    };
    assert(unit == pow2(format.fraction_bits()));
    let field: u64 = bits / unit;
    let fraction: u64 = bits % unit;
    if field == 0 {
        (fraction, 0)
    } else {
        (unit + fraction, field - 1)
    }
}

/// The scaled value of a magnitude, as an exact number.
pub fn scaled_value(format: Format, bits: u64) -> (result: BigNat)
    ensures
        result@ == format.scaled_value(bits as nat),
{
    let (significand, exponent): (u64, u64) = split(format, bits);
    BigNat::from_u64(significand).mul_pow2(exponent)
}

fn rounds_above(format: Format, scaled: &BigNat, denominator: &BigNat, bits: u64, numerator: Ghost<
    nat,
>) -> (result: bool)
    requires
        scaled@ == numerator@ * pow2(format.scale() + 1),
    ensures
        result == format.rounds_above(numerator@, denominator@, bits as nat),
{
    let (significand, exponent): (u64, u64) = split(format, bits);
    let right: BigNat = denominator.mul_add(2 * significand + 1, 0).mul_pow2(exponent);
    proof {
        let odd = 2 * format.significand(bits as nat) + 1;
        let power = pow2(format.exponent(bits as nat));
        let whole = denominator@;
        assert((whole * odd) * power == whole * (odd * power)) by (nonlinear_arith);
    }
    match scaled.compare_with(&right) {
        Comparison::Greater => true,
        Comparison::Equal => bits % 2 == 1,
        Comparison::Less => false,
    }
}

/// The magnitude nearest to `numerator / denominator`, ties to even.
pub fn nearest(format: Format, numerator: &BigNat, denominator: &BigNat) -> (result: u64)
    requires
        denominator@ > 0,
    ensures
        result == format.nearest(numerator@, denominator@),
        format.is_nearest(numerator@, denominator@, result as nat),
{
    let (shift, infinity): (u64, u64) = match format {
        Format::Binary32 => (150, 0x7f80_0000),
        Format::Binary64 => (1075, 0x7ff0_0000_0000_0000),
    };
    let scaled: BigNat = numerator.mul_pow2(shift);
    let ghost exact = numerator@;
    // `low` is no larger than the answer, and `high` is larger.
    let mut low: u64 = 0;
    let mut high: u64 = infinity + 1;
    while high - low > 1
        invariant
            low < high,
            high <= infinity + 1,
            infinity <= 0x7ff0_0000_0000_0000,
            infinity == format.infinity(),
            scaled@ == exact * pow2(format.scale() + 1),
            low > 0 ==> format.rounds_above(exact, denominator@, (low - 1) as nat),
            high <= infinity ==> !format.rounds_above(exact, denominator@, (high - 1) as nat),
        decreases high - low,
    {
        let middle: u64 = low + (high - low) / 2;
        if rounds_above(format, &scaled, denominator, middle - 1, Ghost(exact)) {
            low = middle;
        } else {
            high = middle;
        }
    }
    proof {
        lemma_nearest(format, exact, denominator@, low as nat);
    }
    low
}

} // verus!
