//! Floating-point values as the bits of their interchange format.
//!
//! Order, classification and conversion need no arithmetic beyond that of integers.

use crate::bignat::BigNat;
use crate::rounding::{
    law_rounding_keeps_order, law_values_grow_with_their_bits, lemma_nearest_exists,
    lemma_rounds_above_smaller, nearest, scaled_value, Format,
};
use vstd::arithmetic::div_mod::{lemma_fundamental_div_mod, lemma_fundamental_div_mod_converse};
use vstd::arithmetic::power2::{
    lemma2_to64, lemma2_to64_rest, lemma_pow2_adds, lemma_pow2_pos,
    lemma_pow2_strictly_increases, pow2,
};
use vstd::prelude::*;

verus! {

/// A double-precision value.
///
/// In code `==` compares values: both zeros are equal, and what is not a number differs from
/// everything. In contracts `==` compares bits.
#[derive(Clone, Copy, Debug)]
pub struct Float64 {
    pub bits: u64,
}

/// A single-precision value.
///
/// In code `==` compares values: both zeros are equal, and what is not a number differs from
/// everything. In contracts `==` compares bits.
#[derive(Clone, Copy, Debug)]
pub struct Float32 {
    pub bits: u32,
}

/// The bits of a half.
pub const HALF: u32 = 0x3f00_0000;

/// The bits of one.
pub const ONE: u32 = 0x3f80_0000;

/// The bits of two.
pub const TWO: u32 = 0x4000_0000;

/// The magnitude bits of single-precision infinity.
pub const INFINITY: u32 = 0x7f80_0000;

/// The magnitude bits of double-precision infinity.
pub const LARGE_INFINITY: u64 = 0x7ff0_0000_0000_0000;

/// The bits of the double that equals the largest finite single-precision value.
pub const LARGEST_SINGLE: u64 = 0x47ef_ffff_e000_0000;

/// A bound that whole values are held to when they are converted.
pub const WHOLE_BOUND: u128 = 0x10_0000_0000_0000_0000_0000_0000;

impl Format {
    /// Whether a magnitude is a whole number.
    pub open spec fn is_whole(self, magnitude: nat) -> bool {
        self.scaled_value(magnitude) % pow2(self.scale()) == 0
    }

    /// The whole part of a magnitude.
    pub open spec fn whole_part(self, magnitude: nat) -> nat {
        self.scaled_value(magnitude) / pow2(self.scale())
    }
}

proof fn lemma_scaled_division(
    significand: nat,
    low: nat,
    high: nat,
)
    ensures
        (significand * pow2(low + high)) % pow2(low) == 0,
        (significand * pow2(low + high)) / pow2(low) == significand * pow2(high),
        (significand * pow2(low)) / pow2(low + high) == significand / pow2(high),
        (significand * pow2(low)) % pow2(low + high) == (significand % pow2(high)) * pow2(low),
{
    let p = pow2(low);
    let d = pow2(high);
    lemma_pow2_pos(low);
    lemma_pow2_pos(high);
    lemma_pow2_adds(low, high);
    assert(significand * (p * d) == (significand * d) * p + 0) by (nonlinear_arith);
    lemma_fundamental_div_mod_converse(
        (significand * pow2(low + high)) as int,
        p as int,
        (significand * d) as int,
        0,
    );
    let q = significand / d;
    let r = significand % d;
    lemma_fundamental_div_mod(significand as int, d as int);
    assert(significand * p == q * (p * d) + r * p && 0 <= r * p < p * d) by (nonlinear_arith)
        requires
            significand == d * q + r,
            0 <= r < d,
            p > 0,
    ;
    lemma_fundamental_div_mod_converse(
        (significand * p) as int,
        (p * d) as int,
        q as int,
        (r * p) as int,
    );
}

/// Whether a magnitude is a whole number, and its whole part held to `WHOLE_BOUND`.
fn whole_number(format: Format, magnitude: u64) -> (result: (bool, u128))
    requires
        magnitude < format.infinity(),
    ensures
        result.0 == format.is_whole(magnitude as nat),
        result.1 <= WHOLE_BOUND,
        result.1 < WHOLE_BOUND ==> result.1 == format.whole_part(magnitude as nat),
        result.1 == WHOLE_BOUND ==> format.whole_part(magnitude as nat) >= WHOLE_BOUND,
{
    proof {
        lemma2_to64();
        lemma2_to64_rest();
    }
    let (unit, scale): (u64, u64) = match format {
        Format::Binary32 => (0x80_0000, 149),
        Format::Binary64 => (0x10_0000_0000_0000, 1074),
    };
    let field: u64 = magnitude / unit;
    let fraction: u64 = magnitude % unit;
    let (significand, exponent): (u64, u64) = if field == 0 {
        (fraction, 0)
    } else {
        (unit + fraction, field - 1)
    };
    let ghost scaled = format.scaled_value(magnitude as nat);
    assert(scaled == significand * pow2(exponent as nat));
    if significand == 0 {
        proof {
            lemma_scaled_division(0, 0, scale as nat);
            lemma_pow2_pos(scale as nat);
            assert(0 * pow2(exponent as nat) == 0);
            assert(0nat / pow2(scale as nat) == 0 && 0nat % pow2(scale as nat) == 0)
                by (nonlinear_arith)
                requires
                    pow2(scale as nat) > 0,
            ;
        }
        return (true, 0);
    }
    if exponent >= scale {
        let up: u64 = exponent - scale;
        proof {
            lemma_scaled_division(significand as nat, scale as nat, up as nat);
        }
        if up >= 100 {
            proof {
                lemma_pow2_adds(36, 64);
                if up > 100 {
                    lemma_pow2_strictly_increases(100, up as nat);
                }
                let power = pow2(up as nat);
                assert(significand * power >= power) by (nonlinear_arith)
                    requires
                        significand >= 1,
                        power >= 0,
                ;
            }
            return (true, WHOLE_BOUND);
        }
        let mut value: u128 = significand as u128;
        let mut i: u64 = 0;
        assert(significand * pow2(0) == significand);
        while i < up && value < WHOLE_BOUND
            invariant
                i <= up < 100,
                value == significand * pow2(i as nat),
                value < 2 * WHOLE_BOUND,
            decreases up - i,
        {
            proof {
                lemma2_to64();
                lemma_pow2_adds(1, i as nat);
                let power = pow2(i as nat);
                assert(2 * (significand * power) == significand * (2 * power))
                    by (nonlinear_arith);
            }
            value = value * 2;
            i += 1;
        }
        if value >= WHOLE_BOUND {
            proof {
                if i < up {
                    lemma_pow2_strictly_increases(i as nat, up as nat);
                }
                let low = pow2(i as nat);
                let high = pow2(up as nat);
                assert(significand * low <= significand * high) by (nonlinear_arith)
                    requires
                        low <= high,
                        significand >= 0,
                ;
            }
            return (true, WHOLE_BOUND);
        }
        return (true, value);
    }
    let down: u64 = scale - exponent;
    proof {
        lemma_scaled_division(significand as nat, exponent as nat, down as nat);
        lemma_pow2_pos(exponent as nat);
    }
    if down >= 64 {
        proof {
            if down > 64 {
                lemma_pow2_strictly_increases(64, down as nat);
            }
            let power = pow2(down as nat);
            vstd::arithmetic::div_mod::lemma_small_mod(significand as nat, power);
            vstd::arithmetic::div_mod::lemma_basic_div(significand as int, power as int);
            let unit_power = pow2(exponent as nat);
            assert(significand * unit_power > 0) by (nonlinear_arith)
                requires
                    significand > 0,
                    unit_power > 0,
            ;
        }
        return (false, 0);
    }
    let divisor: u64 = 1u64 << down;
    proof {
        vstd::bits::lemma_u64_pow2_no_overflow(down as nat);
        vstd::bits::lemma_u64_shl_is_mul(1, down);
    }
    let left: u64 = significand % divisor;
    proof {
        let unit_power = pow2(exponent as nat);
        assert((left * unit_power == 0) == (left == 0)) by (nonlinear_arith)
            requires
                left >= 0,
                unit_power > 0,
        ;
    }
    (left == 0, (significand / divisor) as u128)
}

/// The scaled value of a magnitude below one.
proof fn lemma_below_one(magnitude: nat)
    requires
        magnitude < ONE,
    ensures
        Format::Binary32.scaled_value(magnitude) < pow2(149),
{
    lemma2_to64();
    let format = Format::Binary32;
    let exponent = format.exponent(magnitude);
    let significand = format.significand(magnitude);
    assert(exponent <= 125);
    if exponent < 125 {
        lemma_pow2_strictly_increases(exponent, 125);
    }
    lemma_pow2_adds(24, 125);
    let power = pow2(exponent);
    let top = pow2(125);
    lemma_pow2_pos(125);
    assert(significand * power < 0x100_0000 * top) by (nonlinear_arith)
        requires
            significand < 0x100_0000,
            power <= top,
            top > 0,
    ;
}

impl Float64 {
    /// The value with this sign and these magnitude bits.
    pub open spec fn of(negative: bool, magnitude: nat) -> Float64 {
        if negative {
            Float64 { bits: (0x8000_0000_0000_0000 + magnitude) as u64 }
        } else {
            Float64 { bits: magnitude as u64 }
        }
    }

    /// Whether the sign bit is set.
    pub open spec fn negative(self) -> bool {
        self.bits >= 0x8000_0000_0000_0000
    }

    /// The bits without the sign.
    pub open spec fn magnitude(self) -> nat {
        if self.negative() {
            (self.bits - 0x8000_0000_0000_0000) as nat
        } else {
            self.bits as nat
        }
    }

    pub open spec fn is_finite(self) -> bool {
        self.magnitude() < Format::Binary64.infinity()
    }

    /// Whether the value is not a number.
    pub open spec fn not_a_number(self) -> bool {
        self.magnitude() > LARGE_INFINITY
    }

    /// The place of the value in the order of numbers, both zeros alike.
    pub open spec fn rank(self) -> int {
        if self.negative() {
            -(self.magnitude() as int)
        } else {
            self.magnitude() as int
        }
    }

    /// Whether both are numbers with the same value, both zeros alike.
    pub open spec fn same_value(self, other: Float64) -> bool {
        !self.not_a_number() && !other.not_a_number() && self.rank() == other.rank()
    }

    /// Whether the value is a whole number that is not below zero.
    pub open spec fn is_natural(self) -> bool {
        &&& self.is_finite()
        &&& !self.negative() || self.magnitude() == 0
        &&& Format::Binary64.is_whole(self.magnitude())
    }

    /// The value of a natural number.
    pub open spec fn natural(self) -> nat {
        Format::Binary64.whole_part(self.magnitude())
    }

    /// Whether the value lies in the finite single-precision range.
    pub open spec fn in_single_range(self) -> bool {
        self.magnitude() <= LARGEST_SINGLE
    }

    /// The single-precision value nearest to this one.
    pub open spec fn to_single(self) -> Float32 {
        Float32::of(
            self.negative(),
            Format::Binary32.nearest(
                Format::Binary64.scaled_value(self.magnitude()),
                pow2(Format::Binary64.scale()),
            ),
        )
    }

    pub fn from_parts(negative: bool, magnitude: u64) -> (result: Float64)
        requires
            magnitude < 0x8000_0000_0000_0000,
        ensures
            result == Float64::of(negative, magnitude as nat),
    {
        if negative {
            Float64 { bits: 0x8000_0000_0000_0000 + magnitude }
        } else {
            Float64 { bits: magnitude }
        }
    }

    fn parts(self) -> (result: (bool, u64))
        ensures
            result.0 == self.negative(),
            result.1 == self.magnitude(),
            result.1 < 0x8000_0000_0000_0000,
    {
        if self.bits >= 0x8000_0000_0000_0000 {
            (true, self.bits - 0x8000_0000_0000_0000)
        } else {
            (false, self.bits)
        }
    }

    /// The natural number that the value is, held to `WHOLE_BOUND`.
    pub fn as_natural(self) -> (result: Option<u128>)
        ensures
            match result {
                None => !self.is_natural(),
                Some(value) => self.is_natural() && value <= WHOLE_BOUND && (value < WHOLE_BOUND
                    ==> value == self.natural()) && (value == WHOLE_BOUND ==> self.natural()
                    >= WHOLE_BOUND),
            },
    {
        let (negative, magnitude): (bool, u64) = self.parts();
        if magnitude >= 0x7ff0_0000_0000_0000 || (negative && magnitude != 0) {
            return None;
        }
        let (whole, value): (bool, u128) = whole_number(Format::Binary64, magnitude);
        if whole {
            Some(value)
        } else {
            None
        }
    }

    /// The nearest single-precision value, where the value lies in its finite range.
    pub fn as_single(self) -> (result: Option<Float32>)
        ensures
            result == (if self.in_single_range() {
                Some(self.to_single())
            } else {
                None
            }),
    {
        let (negative, magnitude): (bool, u64) = self.parts();
        if magnitude > LARGEST_SINGLE {
            return None;
        }
        let numerator: BigNat = scaled_value(Format::Binary64, magnitude);
        let one: BigNat = BigNat::from_u64(1);
        let denominator: BigNat = one.mul_pow2(1074);
        proof {
            lemma_pow2_pos(1074);
            assert(1 * pow2(1074) == pow2(1074));
        }
        let bits: u64 = nearest(Format::Binary32, &numerator, &denominator);
        Some(Float32::from_parts(negative, bits as u32))
    }
}

impl Float32 {
    /// The value with this sign and these magnitude bits.
    pub open spec fn of(negative: bool, magnitude: nat) -> Float32 {
        if negative {
            Float32 { bits: (0x8000_0000 + magnitude) as u32 }
        } else {
            Float32 { bits: magnitude as u32 }
        }
    }

    /// Whether the sign bit is set.
    pub open spec fn negative(self) -> bool {
        self.bits >= 0x8000_0000
    }

    /// The bits without the sign.
    pub open spec fn magnitude(self) -> nat {
        if self.negative() {
            (self.bits - 0x8000_0000) as nat
        } else {
            self.bits as nat
        }
    }

    /// Whether the value is not a number.
    pub open spec fn not_a_number(self) -> bool {
        self.magnitude() > INFINITY
    }

    pub open spec fn finite(self) -> bool {
        self.magnitude() < INFINITY
    }

    /// An integer that orders numbers as their values do, both zeros alike.
    pub open spec fn rank(self) -> int {
        if self.negative() {
            -(self.magnitude() as int)
        } else {
            self.magnitude() as int
        }
    }

    /// The place of the value in the order of all values, in which minus zero comes before zero.
    pub open spec fn order(self) -> int {
        if self.negative() {
            -1 - self.magnitude()
        } else {
            self.magnitude() as int
        }
    }

    /// Whether both are numbers and this one is less.
    pub open spec fn less(self, other: Float32) -> bool {
        !self.not_a_number() && !other.not_a_number() && self.rank() < other.rank()
    }

    /// Whether both are numbers and this one is at most the other.
    pub open spec fn at_most(self, other: Float32) -> bool {
        !self.not_a_number() && !other.not_a_number() && self.rank() <= other.rank()
    }

    /// Whether both are numbers with the same value, both zeros alike.
    pub open spec fn same_value(self, other: Float32) -> bool {
        !self.not_a_number() && !other.not_a_number() && self.rank() == other.rank()
    }

    /// The value, moved to the nearest one between two bounds. One that is not a number stays.
    pub open spec fn clamped(self, low: Float32, high: Float32) -> Float32 {
        if self.less(low) {
            low
        } else if high.less(self) {
            high
        } else {
            self
        }
    }

    /// The value, moved to the nearest one between two bounds.
    pub fn clamp_between(self, low: Float32, high: Float32) -> (result: Float32)
        ensures
            result == self.clamped(low, high),
    {
        if self.is_less(low) {
            low
        } else if high.is_less(self) {
            high
        } else {
            self
        }
    }

    /// The value without its sign.
    pub open spec fn absolute(self) -> Float32 {
        Float32::of(false, self.magnitude())
    }

    /// The value without its sign.
    pub fn abs(self) -> (result: Float32)
        ensures
            result == self.absolute(),
    {
        Float32::from_parts(false, self.parts().1)
    }

    /// The next larger value. The largest one, and one that is not finite, stay.
    pub open spec fn successor(self) -> Float32 {
        if !self.finite() || self.rank() == INFINITY - 1 {
            self
        } else if self.rank() > 0 || !self.negative() {
            Float32 { bits: (self.bits + 1) as u32 }
        } else if self.magnitude() == 0 {
            Float32 { bits: 1 }
        } else {
            Float32 { bits: (self.bits - 1) as u32 }
        }
    }

    /// The next larger value.
    pub fn next_up(self) -> (result: Float32)
        ensures
            result == self.successor(),
    {
        let (negative, magnitude): (bool, u32) = self.parts();
        if magnitude >= INFINITY || (!negative && magnitude == INFINITY - 1) {
            self
        } else if !negative {
            Float32 { bits: self.bits + 1 }
        } else if magnitude == 0 {
            Float32 { bits: 1 }
        } else {
            Float32 { bits: self.bits - 1 }
        }
    }

    /// The next smaller value. The smallest one, and one that is not finite, stay.
    pub open spec fn predecessor(self) -> Float32 {
        if !self.finite() || self.rank() == 1 - INFINITY {
            self
        } else if self.rank() > 0 {
            Float32 { bits: (self.bits - 1) as u32 }
        } else if self.magnitude() == 0 {
            Float32 { bits: 0x8000_0001 }
        } else {
            Float32 { bits: (self.bits + 1) as u32 }
        }
    }

    /// The next smaller value.
    pub fn next_down(self) -> (result: Float32)
        ensures
            result == self.predecessor(),
    {
        let (negative, magnitude): (bool, u32) = self.parts();
        if magnitude >= INFINITY || (negative && magnitude == INFINITY - 1) {
            self
        } else if magnitude == 0 {
            Float32 { bits: 0x8000_0001 }
        } else if negative {
            Float32 { bits: self.bits + 1 }
        } else {
            Float32 { bits: self.bits - 1 }
        }
    }

    /// The value with the other sign.
    pub open spec fn opposite(self) -> Float32 {
        Float32::of(!self.negative(), self.magnitude())
    }

    /// The value with the other sign.
    pub fn negate(self) -> (result: Float32)
        ensures
            result == self.opposite(),
    {
        let (negative, magnitude): (bool, u32) = self.parts();
        Float32::from_parts(!negative, magnitude)
    }

    pub fn from_parts(negative: bool, magnitude: u32) -> (result: Float32)
        requires
            magnitude < 0x8000_0000,
        ensures
            result == Float32::of(negative, magnitude as nat),
    {
        if negative {
            Float32 { bits: 0x8000_0000 + magnitude }
        } else {
            Float32 { bits: magnitude }
        }
    }

    pub fn parts(self) -> (result: (bool, u32))
        ensures
            result.0 == self.negative(),
            result.1 == self.magnitude(),
            result.1 < 0x8000_0000,
    {
        if self.bits >= 0x8000_0000 {
            (true, self.bits - 0x8000_0000)
        } else {
            (false, self.bits)
        }
    }

    /// Says whether the value comes before another in the order of all values.
    pub fn comes_before(self, other: Float32) -> (result: bool)
        ensures
            result == (self.order() < other.order()),
    {
        let (below, size): (bool, u32) = self.parts();
        let (other_below, other_size): (bool, u32) = other.parts();
        if below != other_below {
            below
        } else if below {
            other_size < size
        } else {
            size < other_size
        }
    }

    /// Whether the value is neither infinite nor not a number.
    pub fn is_finite(self) -> (result: bool)
        ensures
            result == self.finite(),
    {
        self.parts().1 < INFINITY
    }

    /// Whether the value is zero, of either sign.
    pub fn is_zero(self) -> (result: bool)
        ensures
            result == (self.magnitude() == 0),
    {
        self.parts().1 == 0
    }

    pub fn is_nan(self) -> (result: bool)
        ensures
            result == self.not_a_number(),
    {
        self.parts().1 > INFINITY
    }

    fn order_key(self) -> (result: i64)
        ensures
            result == self.rank(),
    {
        let (negative, magnitude): (bool, u32) = self.parts();
        if negative {
            -(magnitude as i64)
        } else {
            magnitude as i64
        }
    }

    pub fn is_less(self, other: Float32) -> (result: bool)
        ensures
            result == self.less(other),
    {
        !self.is_nan() && !other.is_nan() && self.order_key() < other.order_key()
    }

    pub fn equals(self, other: Float32) -> (result: bool)
        ensures
            result == self.same_value(other),
    {
        !self.is_nan() && !other.is_nan() && self.order_key() == other.order_key()
    }

    pub fn is_at_most(self, other: Float32) -> (result: bool)
        ensures
            result == self.at_most(other),
    {
        !self.is_nan() && !other.is_nan() && self.order_key() <= other.order_key()
    }

    /// The value held between zero and one.
    pub open spec fn clamped_to_unit(self) -> Float32 {
        if self.less(Float32 { bits: 0 }) {
            Float32 { bits: 0 }
        } else if (Float32 { bits: ONE }).less(self) {
            Float32 { bits: ONE }
        } else {
            self
        }
    }

    pub fn clamp_to_unit(self) -> (result: Float32)
        ensures
            result == self.clamped_to_unit(),
    {
        let zero: Float32 = Float32 { bits: 0 };
        let one: Float32 = Float32 { bits: ONE };
        if self.is_less(zero) {
            zero
        } else if one.is_less(self) {
            one
        } else {
            self
        }
    }

    /// The value nearest to an integer with this sign and absolute value.
    pub open spec fn of_integer(negative: bool, value: nat) -> Float32 {
        Float32::of(negative, Format::Binary32.nearest(value, 1))
    }

    /// The value nearest to the quotient of a finite value and a positive integer.
    pub open spec fn quotient(self, divisor: nat) -> Float32 {
        Float32::of(
            self.negative(),
            Format::Binary32.nearest(
                Format::Binary32.scaled_value(self.magnitude()),
                divisor * pow2(149),
            ),
        )
    }

    pub fn divide_by(self, divisor: u64) -> (result: Float32)
        requires
            divisor > 0,
        ensures
            result == self.quotient(divisor as nat),
    {
        let (negative, magnitude): (bool, u32) = self.parts();
        let numerator: BigNat = scaled_value(Format::Binary32, magnitude as u64);
        let denominator: BigNat = BigNat::from_u64(divisor).mul_pow2(149);
        proof {
            lemma_pow2_pos(149);
            assert(divisor * pow2(149) > 0) by (nonlinear_arith)
                requires
                    divisor > 0,
                    pow2(149) > 0,
            ;
        }
        let bits: u64 = nearest(Format::Binary32, &numerator, &denominator);
        Float32::from_parts(negative, bits as u32)
    }

    /// The value nearest to the quotient of two finite values, the second of which is not zero.
    pub open spec fn ratio(self, divisor: Float32) -> Float32 {
        Float32::of(
            self.negative() != divisor.negative(),
            Format::Binary32.nearest(
                Format::Binary32.scaled_value(self.magnitude()),
                Format::Binary32.scaled_value(divisor.magnitude()),
            ),
        )
    }

    pub fn divide(self, divisor: Float32) -> (result: Float32)
        requires
            self.finite(),
            divisor.finite(),
            divisor.magnitude() > 0,
        ensures
            result == self.ratio(divisor),
    {
        let (negative, magnitude): (bool, u32) = self.parts();
        let (other_negative, other_magnitude): (bool, u32) = divisor.parts();
        let numerator: BigNat = scaled_value(Format::Binary32, magnitude as u64);
        let denominator: BigNat = scaled_value(Format::Binary32, other_magnitude as u64);
        proof {
            lemma_scaled_is_positive(other_magnitude as nat);
        }
        let bits: u64 = nearest(Format::Binary32, &numerator, &denominator);
        Float32::from_parts(negative != other_negative, bits as u32)
    }

    /// The integer that a value turns into: its whole part, held to the range from zero to
    /// `limit`, and zero where it is not a number.
    pub open spec fn truncated(self, limit: nat) -> nat {
        let whole = Format::Binary32.whole_part(self.magnitude());
        if self.not_a_number() || self.negative() {
            0
        } else if self.magnitude() == INFINITY || whole > limit {
            limit
        } else {
            whole
        }
    }

    /// The value as an integer from zero to `limit`.
    pub fn truncate_to(self, limit: u64) -> (result: u64)
        ensures
            result == self.truncated(limit as nat),
    {
        let (negative, magnitude): (bool, u32) = self.parts();
        if magnitude > INFINITY || negative {
            return 0;
        }
        if magnitude == INFINITY {
            return limit;
        }
        let (_, value): (bool, u128) = whole_number(Format::Binary32, magnitude as u64);
        if value > limit as u128 {
            limit
        } else {
            value as u64
        }
    }

    /// What one minus the value rounds to, held between zero and one.
    pub open spec fn complement(self) -> Float32 {
        if self.rank() <= 0 {
            Float32 { bits: ONE }
        } else if self.rank() >= ONE {
            Float32 { bits: 0 }
        } else {
            Float32::of(
                false,
                Format::Binary32.nearest(
                    (pow2(149) - Format::Binary32.scaled_value(self.magnitude())) as nat,
                    pow2(149),
                ),
            )
        }
    }

    /// One minus the value, held between zero and one.
    pub fn one_minus(self) -> (result: Float32)
        requires
            self.finite(),
        ensures
            result == self.complement(),
    {
        let (negative, magnitude): (bool, u32) = self.parts();
        if negative || magnitude == 0 {
            return Float32 { bits: ONE };
        }
        if magnitude >= ONE {
            return Float32 { bits: 0 };
        }
        let scaled: BigNat = scaled_value(Format::Binary32, magnitude as u64);
        let one: BigNat = BigNat::from_u64(1).mul_pow2(149);
        proof {
            lemma_below_one(magnitude as nat);
            assert(1 * pow2(149) == pow2(149));
            lemma_pow2_pos(149);
        }
        let bits: u64 = nearest(Format::Binary32, &one.minus(&scaled), &one);
        Float32::from_parts(false, bits as u32)
    }
}

/// The complement of a finite value lies between zero and one.
pub proof fn law_complement_lies_in_the_unit_interval(value: Float32)
    requires
        value.finite(),
    ensures
        !value.complement().negative(),
        value.complement().magnitude() <= ONE,
{
    if 0 < value.rank() && value.rank() < ONE {
        let format = Format::Binary32;
        let whole = pow2(149);
        lemma_below_one(value.magnitude());
        let part = (whole - format.scaled_value(value.magnitude())) as nat;
        let bits = format.nearest(part, whole);
        lemma_nearest_exists(format, part, whole);
        if bits > ONE {
            lemma_pow2_pos(149);
            lemma_rounds_above_smaller(format, part, whole, ONE as nat, (bits - 1) as nat);
            lemma2_to64();
            assert(format.exponent_field(ONE as nat) == 127);
            assert(format.significand(ONE as nat) == 0x80_0000);
            assert(format.exponent(ONE as nat) == 126);
            lemma_pow2_adds(24, 126);
            lemma_pow2_pos(126);
            let unit = pow2(126);
            assert((2 * 0x80_0000 + 1) * unit == 0x100_0000 * unit + unit) by (nonlinear_arith);
            let full = pow2(150);
            assert(part * full < whole * (full + unit)) by (nonlinear_arith)
                requires
                    part <= whole,
                    unit > 0,
                    whole > 0,
                    full >= 0,
            ;
        }
    }
}

/// Dividing a finite value by a positive integer keeps its sign and moves it no further from zero.
pub proof fn law_quotients_do_not_grow(value: Float32, divisor: nat)
    requires
        value.finite(),
        divisor >= 1,
    ensures
        value.quotient(divisor).negative() == value.negative(),
        value.quotient(divisor).magnitude() <= value.magnitude(),
        value.quotient(divisor).finite(),
{
    let format = Format::Binary32;
    let bits = value.magnitude();
    let scaled = format.scaled_value(bits);
    let power = pow2(149);
    let whole = divisor * power;
    lemma_pow2_pos(149);
    assert(whole > 0) by (nonlinear_arith)
        requires
            divisor >= 1,
            power > 0,
            whole == divisor * power,
    ;
    let rounded = format.nearest(scaled, whole);
    lemma_nearest_exists(format, scaled, whole);
    if rounded > bits {
        lemma_rounds_above_smaller(format, scaled, whole, bits, (rounded - 1) as nat);
        lemma_pow2_adds(149, 1);
        lemma2_to64();
        let unit = pow2(format.exponent(bits));
        lemma_pow2_pos(format.exponent(bits));
        let low = format.significand(bits);
        assert(scaled == low * unit);
        assert((low * unit) * (power * 2) < (divisor * power) * ((2 * low + 1) * unit))
            by (nonlinear_arith)
            requires
                divisor >= 1,
                power > 0,
                unit > 0,
                low >= 0,
        {
            assert((low * unit) * (power * 2) == (2 * low) * (power * unit));
            assert((divisor * power) * ((2 * low + 1) * unit) == divisor * ((2 * low + 1) * (power
                * unit)));
            assert(power * unit > 0);
            assert((2 * low + 1) * (power * unit) == (2 * low) * (power * unit) + power * unit);
            assert(divisor * ((2 * low + 1) * (power * unit)) >= (2 * low + 1) * (power * unit));
        }
    }
}

/// A magnitude above zero has a value above zero.
pub proof fn lemma_scaled_is_positive(bits: nat)
    requires
        bits > 0,
    ensures
        Format::Binary32.scaled_value(bits) > 0,
{
    let format = Format::Binary32;
    lemma_pow2_pos(23);
    lemma_pow2_pos(format.exponent(bits));
    vstd::arithmetic::div_mod::lemma_fundamental_div_mod(bits as int, pow2(23) as int);
    if format.exponent_field(bits) == 0 {
        assert(pow2(23) * (bits / pow2(23)) == 0) by (nonlinear_arith)
            requires
                bits / pow2(23) == 0,
        ;
    }
    assert(format.significand(bits) > 0);
    assert(format.significand(bits) * pow2(format.exponent(bits)) > 0) by (nonlinear_arith)
        requires
            format.significand(bits) > 0,
            pow2(format.exponent(bits)) > 0,
    ;
}

/// The magnitude bits of two to the power 64.
pub const TWO_TO_64: u32 = 0x5f80_0000;

/// The scaled values of one and of two to the power 64.
pub proof fn lemma_powers()
    ensures
        Format::Binary32.scaled_value(ONE as nat) == pow2(149),
        Format::Binary32.scaled_value(TWO_TO_64 as nat) == pow2(213),
        pow2(213) == pow2(64) * pow2(149),
{
    let format = Format::Binary32;
    lemma2_to64();
    assert(pow2(23) == 0x80_0000);
    assert(0x3f80_0000nat / 0x80_0000nat == 127 && 0x3f80_0000nat % 0x80_0000nat == 0);
    assert(0x5f80_0000nat / 0x80_0000nat == 191 && 0x5f80_0000nat % 0x80_0000nat == 0);
    assert(format.exponent_field(ONE as nat) == 127);
    assert(format.significand(ONE as nat) == 0x80_0000);
    lemma_pow2_adds(23, 126);
    assert(format.exponent_field(TWO_TO_64 as nat) == 191);
    assert(format.significand(TWO_TO_64 as nat) == 0x80_0000);
    lemma_pow2_adds(23, 190);
    lemma_pow2_adds(64, 149);
}

/// Every integer of 64 bits rounds to a finite value, at least one where the integer is.
pub proof fn law_integers_round_to_finite_values(value: u64)
    ensures
        !Float32::of_integer(false, value as nat).negative(),
        Float32::of_integer(false, value as nat).magnitude() <= TWO_TO_64,
        value >= 1 ==> Float32::of_integer(false, value as nat).magnitude() >= ONE,
        value == 0 ==> Float32::of_integer(false, value as nat).magnitude() == 0,
{
    let format = Format::Binary32;
    lemma_powers();
    lemma_pow2_pos(149);
    lemma2_to64();
    lemma2_to64_rest();
    let unit = pow2(149);
    law_rounding_keeps_order(format, value as nat, 1, TWO_TO_64 as nat);
    assert(value * unit <= pow2(64) * unit) by (nonlinear_arith)
        requires
            value <= pow2(64),
            unit > 0,
    ;
    law_rounding_keeps_order(format, value as nat, 1, ONE as nat);
    if value >= 1 {
        assert(value * unit >= unit) by (nonlinear_arith)
            requires
                value >= 1,
                unit > 0,
        ;
    } else {
        law_rounding_keeps_order(format, 0, 1, 0);
        lemma_zero();
        assert(0 * unit == 0) by (nonlinear_arith);
    }
}

proof fn lemma_zero()
    ensures
        Format::Binary32.scaled_value(0) == 0,
{
    let format = Format::Binary32;
    lemma2_to64();
    assert(format.exponent_field(0) == 0);
    assert(format.significand(0) == 0);
    assert(0 * pow2(0) == 0) by (nonlinear_arith);
}

/// The quotient of two integers of 64 bits, the second of which is not zero, is a finite value.
pub proof fn law_quotients_of_integers_are_finite(numerator: u64, denominator: u64)
    requires
        denominator > 0,
    ensures
        Float32::of_integer(false, numerator as nat).ratio(
            Float32::of_integer(false, denominator as nat),
        ).finite(),
        !Float32::of_integer(false, numerator as nat).ratio(
            Float32::of_integer(false, denominator as nat),
        ).negative(),
{
    let format = Format::Binary32;
    law_integers_round_to_finite_values(numerator);
    law_integers_round_to_finite_values(denominator);
    lemma_powers();
    let top = Float32::of_integer(false, numerator as nat).magnitude();
    let bottom = Float32::of_integer(false, denominator as nat).magnitude();
    law_values_grow_with_their_bits(format, top, TWO_TO_64 as nat);
    law_values_grow_with_their_bits(format, ONE as nat, bottom);
    let high = format.scaled_value(top);
    let low = format.scaled_value(bottom);
    let unit = pow2(149);
    let wide = pow2(213);
    lemma_pow2_pos(149);
    lemma_pow2_pos(213);
    law_rounding_keeps_order(format, high, low, TWO_TO_64 as nat);
    assert(high * unit <= low * wide) by (nonlinear_arith)
        requires
            high <= wide,
            low >= unit,
            unit > 0,
            wide > 0,
    ;
}

impl PartialEq for Float32 {
    fn eq(&self, other: &Float32) -> (result: bool) {
        self.equals(*other)
    }
}

impl vstd::std_specs::cmp::PartialEqSpecImpl for Float32 {
    open spec fn obeys_eq_spec() -> bool {
        true
    }

    open spec fn eq_spec(&self, other: &Float32) -> bool {
        self.same_value(*other)
    }
}

impl PartialEq for Float64 {
    fn eq(&self, other: &Float64) -> (result: bool) {
        let sign: u64 = 0x8000_0000_0000_0000;
        let first: u64 = if self.bits >= sign {
            self.bits - sign
        } else {
            self.bits
        };
        let second: u64 = if other.bits >= sign {
            other.bits - sign
        } else {
            other.bits
        };
        first <= LARGE_INFINITY && second <= LARGE_INFINITY && (self.bits == other.bits || first
            == 0 && second == 0)
    }
}

impl vstd::std_specs::cmp::PartialEqSpecImpl for Float64 {
    open spec fn obeys_eq_spec() -> bool {
        true
    }

    open spec fn eq_spec(&self, other: &Float64) -> bool {
        self.same_value(*other)
    }
}

} // verus!
