//! Floating-point values as real numbers, and how far rounding moves the results of arithmetic.

use crate::arith::{is_nearest_root, nearest_root, root_rounds_above};
use crate::float::{
    lemma_powers, lemma_scaled_is_positive, Float32, HALF, INFINITY, ONE, TWO,
};
use crate::math::Vec3;
use crate::rounding::{
    law_representable_values_are_kept, law_rounding_keeps_order, law_values_grow_with_their_bits,
    lemma_nearest_exists, lemma_rounds_above_smaller, lemma_successor, Format,
};
use vstd::arithmetic::power2::{
    lemma2_to64, lemma2_to64_rest, lemma_pow2_adds, lemma_pow2_pos,
    lemma_pow2_strictly_increases, pow2,
};
use vstd::prelude::*;

verus! {

/// Casting a product of integers gives the product of the casts.
proof fn lemma_cast_product(first: int, second: int)
    ensures
        (first * second) as real == (first as real) * (second as real),
{
    assert((first * second) as real == (first as real) * (second as real)) by (nonlinear_arith);
}

impl Float32 {
    /// The real number that a finite value stands for.
    pub open spec fn value(self) -> real {
        self.scaled() as real / pow2(149) as real
    }
}

/// A real number without its sign.
pub open spec fn size(x: real) -> real {
    if x < 0real {
        -x
    } else {
        x
    }
}

/// The smallest value above zero, which rounding moves a result by at most besides.
pub open spec fn grain() -> real {
    1real / pow2(149) as real
}

/// Results up to this size are finite.
pub open spec fn largest() -> real {
    1329227995784915872903807060280344576real
}

/// How far rounding moves an exact result at most: two to the power minus 23 of it, and a grain.
pub open spec fn rounding_of(exact: real) -> real {
    size(exact) * (1real / 8388608real) + grain()
}

/// The unit of the last place of a magnitude is small beside its value.
proof fn lemma_last_place_is_small(bits: nat)
    ensures
        pow2(Format::Binary32.exponent(bits)) * 0x80_0000 <= Format::Binary32.scaled_value(bits)
            + 0x80_0000,
{
    let format = Format::Binary32;
    let unit = pow2(format.exponent(bits));
    lemma2_to64();
    if format.exponent_field(bits) > 0 {
        let significand = format.significand(bits);
        assert(significand >= 0x80_0000);
        assert(unit * 0x80_0000 <= significand * unit) by (nonlinear_arith)
            requires
                significand >= 0x80_0000,
        ;
    }
}

/// The nearest magnitude lies within half a unit of its last place.
proof fn lemma_nearest_within(numerator: nat, denominator: nat)
    requires
        denominator > 0,
        Format::Binary32.nearest(numerator, denominator) < INFINITY,
    ensures
        ({
            let bits = Format::Binary32.nearest(numerator, denominator);
            let value = Format::Binary32.scaled_value(bits);
            let unit = pow2(Format::Binary32.exponent(bits));
            &&& numerator * pow2(150) <= denominator * (2 * value + unit)
            &&& numerator * pow2(150) >= denominator * (2 * value - unit)
        }),
{
    let format = Format::Binary32;
    let bits = format.nearest(numerator, denominator);
    let value = format.scaled_value(bits);
    let unit = pow2(format.exponent(bits));
    lemma_nearest_exists(format, numerator, denominator);
    let low = format.significand(bits);
    assert((2 * low + 1) * unit == 2 * (low * unit) + unit) by (nonlinear_arith);
    lemma_pow2_pos(format.exponent(bits));
    if bits > 0 {
        let before = (bits - 1) as nat;
        let step = pow2(format.exponent(before));
        lemma_successor(format, before);
        let lower = format.significand(before);
        assert((2 * lower + 1) * step == 2 * (lower * step) + step) by (nonlinear_arith);
        lemma_steps_grow(before);
        assert(denominator * format.doubled_midpoint(before) >= denominator * (2 * value - unit))
            by (nonlinear_arith)
            requires
                format.doubled_midpoint(before) >= 2 * value - unit,
        ;
    } else {
        lemma2_to64();
        assert(value == 0) by {
            crate::arith::lemma_zero_is_nearest(1);
        }
        assert(denominator * (2 * value - unit) <= 0) by (nonlinear_arith)
            requires
                value == 0,
                unit > 0,
        ;
        assert(numerator * pow2(150) >= 0) by (nonlinear_arith);
    }
}

/// The unit of the last place does not shrink from a magnitude to the next.
proof fn lemma_steps_grow(bits: nat)
    ensures
        pow2(Format::Binary32.exponent(bits)) <= pow2(Format::Binary32.exponent(bits + 1)),
{
    let format = Format::Binary32;
    lemma_pow2_pos(23);
    vstd::arithmetic::div_mod::lemma_div_is_ordered(
        bits as int,
        (bits + 1) as int,
        pow2(23) as int,
    );
    let first = format.exponent(bits);
    let second = format.exponent(bits + 1);
    if first < second {
        lemma_pow2_strictly_increases(first, second);
    }
}

/// The nearest magnitude is close to the fraction that it stands for.
pub proof fn lemma_nearest_is_close(numerator: nat, denominator: nat)
    requires
        denominator > 0,
        Format::Binary32.nearest(numerator, denominator) < INFINITY,
    ensures
        ({
            let value = Format::Binary32.scaled_value(
                Format::Binary32.nearest(numerator, denominator),
            ) as real / pow2(149) as real;
            let exact = numerator as real / denominator as real;
            size(value - exact) <= rounding_of(exact)
        }),
{
    let format = Format::Binary32;
    let bits = format.nearest(numerator, denominator);
    let scaled = format.scaled_value(bits);
    let step = pow2(format.exponent(bits));
    lemma_nearest_within(numerator, denominator);
    lemma_last_place_is_small(bits);
    lemma_pow2_adds(149, 1);
    lemma2_to64();
    lemma_pow2_pos(149);
    let n = numerator as real;
    let d = denominator as real;
    let p = pow2(149) as real;
    let s = scaled as real;
    let u = step as real;
    lemma_cast_product(numerator as int, pow2(150) as int);
    lemma_cast_product(denominator as int, (2 * scaled + step) as int);
    lemma_cast_product(denominator as int, 2 * scaled - step);
    assert(pow2(150) as real == 2real * p);
    assert((2 * scaled + step) as real == 2real * s + u);
    assert((2 * scaled - step) as real == 2real * s - u);
    assert((step * 0x80_0000) as real == u * 8388608real);
    assert(u * 8388608real <= s + 8388608real);
    lemma_fraction_is_close(n, d, p, s, u);
}

proof fn lemma_fraction_is_close(n: real, d: real, p: real, s: real, u: real)
    requires
        n >= 0real,
        d > 0real,
        p > 0real,
        s >= 0real,
        n * (2real * p) <= d * (2real * s + u),
        n * (2real * p) >= d * (2real * s - u),
        u * 8388608real <= s + 8388608real,
    ensures
        size(s / p - n / d) <= size(n / d) * (1real / 8388608real) + 1real / p,
{
    let q = n / d;
    let v = s / p;
    let g = 1real / p;
    let e = u / p;
    assert(n == q * d) by (nonlinear_arith)
        requires
            d > 0real,
            q == n / d,
    ;
    assert(s == v * p && g * p == 1real && u == e * p && g > 0real) by (nonlinear_arith)
        requires
            p > 0real,
            v == s / p,
            g == 1real / p,
            e == u / p,
    ;
    assert(q >= 0real) by (nonlinear_arith)
        requires
            n >= 0real,
            d > 0real,
            q == n / d,
    ;
    assert(2real * q <= 2real * v + e) by (nonlinear_arith)
        requires
            n == q * d,
            s == v * p,
            u == e * p,
            d > 0real,
            p > 0real,
            n * (2real * p) <= d * (2real * s + u),
    ;
    assert(2real * q >= 2real * v - e) by (nonlinear_arith)
        requires
            n == q * d,
            s == v * p,
            u == e * p,
            d > 0real,
            p > 0real,
            n * (2real * p) >= d * (2real * s - u),
    ;
    assert(e * 8388608real <= v + 8388608real * g) by (nonlinear_arith)
        requires
            s == v * p,
            u == e * p,
            g * p == 1real,
            p > 0real,
            u * 8388608real <= s + 8388608real,
    ;
}

/// Fractions up to the largest size round to finite magnitudes.
pub proof fn lemma_nearest_is_finite(numerator: nat, denominator: nat)
    requires
        denominator > 0,
        numerator as real / denominator as real <= largest(),
    ensures
        Format::Binary32.nearest(numerator, denominator) < INFINITY,
{
    let format = Format::Binary32;
    // The bits of two to the power 126.
    let bits: nat = 0x7e80_0000;
    lemma2_to64();
    lemma2_to64_rest();
    lemma_pow2_adds(62, 64);
    lemma_pow2_adds(126, 149);
    lemma_pow2_adds(23, 252);
    lemma_pow2_pos(149);
    assert(0x7e80_0000nat / 0x80_0000nat == 253 && 0x7e80_0000nat % 0x80_0000nat == 0);
    assert(format.scaled_value(bits) == pow2(275));
    let p = pow2(149);
    let big = pow2(126);
    assert(big as real >= largest()) by {
        assert(pow2(62) == 0x4000_0000_0000_0000 && pow2(64) == 0x1_0000_0000_0000_0000);
        assert(big == 0x4000_0000_0000_0000 * 0x1_0000_0000_0000_0000);
    }
    let n = numerator as real;
    let d = denominator as real;
    assert(n <= d * (big as real)) by (nonlinear_arith)
        requires
            d > 0real,
            n / d <= big as real,
    ;
    lemma_cast_product(denominator as int, big as int);
    assert(numerator <= denominator * big);
    assert(numerator * p <= denominator * (big * p)) by (nonlinear_arith)
        requires
            numerator <= denominator * big,
    ;
    law_rounding_keeps_order(format, numerator, denominator, bits);
}

proof fn lemma_value_of(negative: bool, magnitude: nat)
    requires
        magnitude < INFINITY,
    ensures
        Float32::of(negative, magnitude).finite(),
        Float32::of(negative, magnitude).magnitude() == magnitude,
        Float32::of(negative, magnitude).value() == (if negative {
            -(Format::Binary32.scaled_value(magnitude) as real / pow2(149) as real)
        } else {
            Format::Binary32.scaled_value(magnitude) as real / pow2(149) as real
        }),
{
    lemma_pow2_pos(149);
    let s = Format::Binary32.scaled_value(magnitude) as real;
    let p = pow2(149) as real;
    assert((-s) / p == -(s / p)) by (nonlinear_arith)
        requires
            p > 0real,
    ;
    assert((-(Format::Binary32.scaled_value(magnitude) as int)) as real == -s);
}

/// A sum is finite and close to the exact sum.
pub proof fn law_sums_are_close(first: Float32, second: Float32)
    requires
        first.finite(),
        second.finite(),
        size(first.value() + second.value()) <= largest(),
    ensures
        (first + second).finite(),
        size((first + second).value() - (first.value() + second.value())) <= rounding_of(
            first.value() + second.value(),
        ),
{
    reveal(Float32::plus);
    lemma_pow2_pos(149);
    let exact = first.scaled() + second.scaled();
    let p = pow2(149) as real;
    let a = first.scaled() as real;
    let b = second.scaled() as real;
    assert(a / p + b / p == (a + b) / p) by (nonlinear_arith)
        requires
            p > 0real,
    ;
    assert(exact as real == a + b);
    let amount: nat = if exact < 0 {
        (-exact) as nat
    } else {
        exact as nat
    };
    let x = amount as real;
    assert((-x) / p == -(x / p) && (x >= 0real ==> x / p >= 0real)) by (nonlinear_arith)
        requires
            p > 0real,
    ;
    assert(grain() > 0real) by {
        lemma_grain();
    }
    if exact == 0 {
        crate::arith::lemma_zero_is_nearest(1);
        lemma_value_of(first.negative() && second.negative(), 0);
        assert(0real / p == 0real) by (nonlinear_arith)
            requires
                p > 0real,
        ;
        assert((first + second).value() == 0real);
    } else {
        lemma_nearest_is_finite(amount, pow2(149));
        lemma_nearest_is_close(amount, pow2(149));
        lemma_value_of(exact < 0, Format::Binary32.nearest(amount, pow2(149)));
        if exact < 0 {
            assert((a + b) / p == -(x / p));
        }
    }
}

pub proof fn lemma_grain()
    ensures
        0real < grain() <= 1real / 1267650600228229401496703205376real,
{
    lemma_pow2_pos(149);
    lemma2_to64();
    lemma2_to64_rest();
    lemma_pow2_adds(50, 50);
    lemma_pow2_adds(100, 49);
    let p = pow2(149);
    let q = pow2(100);
    assert(q == 1267650600228229401496703205376);
    assert(p >= q) by (nonlinear_arith)
        requires
            p == q * pow2(49),
            pow2(49) >= 1,
    ;
    let r = p as real;
    assert(0real < 1real / r && 1real / r <= 1real / 1267650600228229401496703205376real)
        by (nonlinear_arith)
        requires
            r >= 1267650600228229401496703205376real,
    ;
}

/// A product is finite and close to the exact product.
pub proof fn law_products_are_close(first: Float32, second: Float32)
    requires
        first.finite(),
        second.finite(),
        size(first.value() * second.value()) <= largest(),
    ensures
        (first * second).finite(),
        size((first * second).value() - first.value() * second.value()) <= rounding_of(
            first.value() * second.value(),
        ),
{
    reveal(Float32::times);
    let format = Format::Binary32;
    lemma_pow2_pos(149);
    lemma_pow2_pos(298);
    lemma_pow2_adds(149, 149);
    let m = format.scaled_value(first.magnitude());
    let n = format.scaled_value(second.magnitude());
    lemma_value_of(first.negative(), first.magnitude());
    lemma_value_of(second.negative(), second.magnitude());
    lemma_cast_product(m as int, n as int);
    lemma_cast_product(pow2(149) as int, pow2(149) as int);
    let p = pow2(149) as real;
    let a = m as real;
    let b = n as real;
    assert((a * b) / (p * p) == (a / p) * (b / p)) by (nonlinear_arith)
        requires
            p > 0real,
    ;
    let x = a / p;
    let y = b / p;
    assert(x >= 0real && y >= 0real) by (nonlinear_arith)
        requires
            p > 0real,
            a >= 0real,
            b >= 0real,
            x == a / p,
            y == b / p,
    ;
    assert(x * y >= 0real && (-x) * y == -(x * y) && x * (-y) == -(x * y) && (-x) * (-y) == x * y)
        by (nonlinear_arith)
        requires
            x >= 0real,
            y >= 0real,
    ;
    assert(first == Float32::of(first.negative(), first.magnitude()));
    assert(second == Float32::of(second.negative(), second.magnitude()));
    lemma_nearest_is_finite(m * n, pow2(298));
    lemma_nearest_is_close(m * n, pow2(298));
    lemma_value_of(first.negative() != second.negative(), format.nearest(m * n, pow2(298)));
}

/// A quotient is finite and close to the exact quotient.
pub proof fn law_quotients_are_close(first: Float32, second: Float32)
    requires
        first.finite(),
        second.finite(),
        second.magnitude() > 0,
        size(first.value() / second.value()) <= largest(),
    ensures
        (first / second).finite(),
        second.value() != 0real,
        size((first / second).value() - first.value() / second.value()) <= rounding_of(
            first.value() / second.value(),
        ),
{
    reveal(Float32::over);
    let format = Format::Binary32;
    lemma_pow2_pos(149);
    lemma_scaled_is_positive(second.magnitude());
    let m = format.scaled_value(first.magnitude());
    let n = format.scaled_value(second.magnitude());
    lemma_value_of(first.negative(), first.magnitude());
    lemma_value_of(second.negative(), second.magnitude());
    assert(first == Float32::of(first.negative(), first.magnitude()));
    assert(second == Float32::of(second.negative(), second.magnitude()));
    let p = pow2(149) as real;
    let a = m as real;
    let b = n as real;
    let x = a / p;
    let y = b / p;
    assert(x >= 0real && y > 0real) by (nonlinear_arith)
        requires
            p > 0real,
            a >= 0real,
            b > 0real,
            x == a / p,
            y == b / p,
    ;
    assert(a == x * p && b == y * p) by (nonlinear_arith)
        requires
            p > 0real,
            x == a / p,
            y == b / p,
    ;
    assert(a / b == x / y) by (nonlinear_arith)
        requires
            p > 0real,
            y > 0real,
            b > 0real,
            a == x * p,
            b == y * p,
    ;
    assert(x / y >= 0real && (-x) / y == -(x / y) && x / (-y) == -(x / y) && (-x) / (-y) == x / y)
        by (nonlinear_arith)
        requires
            x >= 0real,
            y > 0real,
    ;
    lemma_nearest_is_finite(m, n);
    lemma_nearest_is_close(m, n);
    lemma_value_of(first.negative() != second.negative(), format.nearest(m, n));
}

/// Greater magnitudes have greater values.
proof fn lemma_values_grow(small: nat, large: nat)
    requires
        small < large,
    ensures
        Format::Binary32.scaled_value(small) < Format::Binary32.scaled_value(large),
{
    let format = Format::Binary32;
    law_values_grow_with_their_bits(format, small + 1, large);
    lemma_successor(format, small);
    lemma_pow2_pos(format.exponent(small));
}

/// Finite values are ordered like the numbers that they stand for.
pub proof fn law_values_keep_order(first: Float32, second: Float32)
    requires
        first.finite(),
        second.finite(),
    ensures
        first.at_most(second) <==> first.value() <= second.value(),
        first.less(second) <==> first.value() < second.value(),
        first.same_value(second) <==> first.value() == second.value(),
{
    let format = Format::Binary32;
    lemma_pow2_pos(149);
    let m = first.magnitude();
    let n = second.magnitude();
    if m < n {
        lemma_values_grow(m, n);
    }
    if n < m {
        lemma_values_grow(n, m);
    }
    crate::arith::lemma_zero_is_nearest(1);
    if m > 0 {
        lemma_scaled_is_positive(m);
    }
    if n > 0 {
        lemma_scaled_is_positive(n);
    }
    let a = first.scaled() as real;
    let b = second.scaled() as real;
    let p = pow2(149) as real;
    assert(((a / p) < (b / p)) == (a < b) && ((a / p) == (b / p)) == (a == b)) by (nonlinear_arith)
        requires
            p > 0real,
    ;
}

/// Whether a value stands for an exact result within some steps of rounding, each of them two to
/// the power minus 23 of a bound of the exact result.
pub open spec fn close(value: Float32, exact: real, bound: real, steps: int) -> bool {
    &&& value.finite()
    &&& bound >= 1real
    &&& size(exact) <= bound
    &&& 8388608real * size(value.value() - exact) <= (steps as real) * bound
}

/// An opposite value stands for the opposite number.
pub proof fn law_opposites_are_exact(value: Float32)
    requires
        value.finite(),
    ensures
        value.opposite().finite(),
        value.opposite().value() == -value.value(),
{
    lemma_value_of(value.negative(), value.magnitude());
    lemma_value_of(!value.negative(), value.magnitude());
    assert(value == Float32::of(value.negative(), value.magnitude()));
    assert(value.opposite() == Float32::of(!value.negative(), value.magnitude()));
}

/// A product grows with its first factor.
pub proof fn lemma_product_grows(a: real, b: real, c: real)
    by (nonlinear_arith)
    requires
        a <= b,
        c >= 0real,
    ensures
        a * c <= b * c,
{
}

/// A product distributes over a sum.
pub proof fn lemma_product_of_sum(a: real, b: real, c: real)
    by (nonlinear_arith)
    ensures
        (a + b) * c == a * c + b * c,
{
}

/// Products may be regrouped.
pub proof fn lemma_product_regroups(a: real, b: real, c: real)
    by (nonlinear_arith)
    ensures
        (a * b) * c == a * (b * c),
        a * b == b * a,
{
}

/// The product of real numbers that are not negative is not negative.
pub proof fn lemma_product_is_positive(a: real, b: real)
    by (nonlinear_arith)
    requires
        a >= 0real,
        b >= 0real,
    ensures
        a * b >= 0real,
{
}

/// Signs move out of products.
pub proof fn lemma_product_signs(a: real, b: real)
    by (nonlinear_arith)
    ensures
        (-a) * b == -(a * b),
        a * (-b) == -(a * b),
        (-a) * (-b) == a * b,
{
}

/// The size of a product is the product of the sizes.
pub proof fn lemma_size_of_product(x: real, y: real)
    ensures
        size(x * y) == size(x) * size(y),
        size(x * y) >= 0real,
{
    lemma_product_is_positive(size(x), size(y));
    lemma_product_signs(x, y);
}

/// Products are bounded by the product of the bounds.
pub proof fn lemma_product_is_bounded(x: real, y: real, m: real, k: real)
    requires
        size(x) <= m,
        size(y) <= k,
    ensures
        size(x * y) <= m * k,
{
    lemma_size_of_product(x, y);
    lemma_product_grows(size(x), m, size(y));
    lemma_product_grows(size(y), k, m);
    lemma_product_regroups(m, size(y), 1real);
    lemma_product_regroups(m, k, 1real);
}

/// A finite value is close to what it stands for.
pub proof fn lemma_close_start(value: Float32, bound: real)
    requires
        value.finite(),
        bound >= 1real,
        size(value.value()) <= bound,
    ensures
        close(value, value.value(), bound, 0),
{
    lemma_product_is_positive(0int as real, bound);
}

/// More steps and a greater bound stay close.
pub proof fn lemma_close_wider(
    value: Float32,
    exact: real,
    bound: real,
    steps: int,
    wider: real,
    more: int,
)
    requires
        close(value, exact, bound, steps),
        0 <= steps <= more,
        bound <= wider,
    ensures
        close(value, exact, wider, more),
{
    lemma_product_grows(steps as real, more as real, bound);
    lemma_product_grows(bound, wider, more as real);
    lemma_product_regroups(more as real, bound, 1real);
    lemma_product_regroups(more as real, wider, 1real);
}

/// The opposite of a close value is close to the opposite.
pub proof fn lemma_close_opposite(value: Float32, exact: real, bound: real, steps: int)
    requires
        close(value, exact, bound, steps),
    ensures
        close(value.opposite(), -exact, bound, steps),
{
    law_opposites_are_exact(value);
}

/// The sum of close values is close to the sum.
pub proof fn lemma_close_sum(
    f: Float32,
    x: real,
    m: real,
    i: int,
    g: Float32,
    y: real,
    k: real,
    j: int,
    most: int,
)
    requires
        close(f, x, m, i),
        close(g, y, k, j),
        0 <= i <= most,
        0 <= j <= most,
        most <= 1000,
        m + k <= 1267650600228229401496703205376real,
    ensures
        close(f + g, x + y, m + k, most + 2),
{
    let t = most as real;
    lemma_grain();
    lemma_product_grows(i as real, t, m);
    lemma_product_grows(j as real, t, k);
    lemma_product_grows(t, 1000real, m);
    lemma_product_grows(t, 1000real, k);
    lemma_product_regroups(t, m + k, 1real);
    lemma_product_of_sum(m, k, t);
    lemma_product_regroups(t, m, 1real);
    lemma_product_regroups(t, k, 1real);
    let sum = f.value() + g.value();
    assert(8388608real * size(sum - (x + y)) <= t * (m + k));
    assert(t * (m + k) <= 1000real * (m + k));
    law_sums_are_close(f, g);
    lemma_product_of_sum(t, 2real, m + k);
    assert((most + 2) as real == t + 2real);
}

/// The product of close values is close to the product.
pub proof fn lemma_close_product(
    f: Float32,
    x: real,
    m: real,
    i: int,
    g: Float32,
    y: real,
    k: real,
    j: int,
)
    requires
        close(f, x, m, i),
        close(g, y, k, j),
        0 <= i <= 1000,
        0 <= j <= 1000,
        m * k <= 1267650600228229401496703205376real,
    ensures
        close(f * g, x * y, m * k, i + j + 2),
{
    let (a, b) = (i as real, j as real);
    let (u, v) = (f.value(), g.value());
    let (d, h) = (u - x, v - y);
    let p = m * k;
    lemma_grain();
    lemma_product_is_bounded(x, y, m, k);
    assert(p >= 1real) by {
        lemma_product_grows(1real, m, k);
    }
    // The difference of the products is d * y + x * h + d * h.
    lemma_product_of_sum(x, d, v);
    lemma_product_regroups(x, v, 1real);
    lemma_product_of_sum(y, h, x);
    lemma_product_regroups(y, x, 1real);
    lemma_product_regroups(h, x, 1real);
    lemma_product_regroups(d, v, 1real);
    lemma_product_of_sum(y, h, d);
    lemma_product_regroups(y, d, 1real);
    lemma_product_regroups(h, d, 1real);
    assert(u * v == x * y + x * h + (d * y + d * h));
    // Each part is bounded.
    let big = 8388608real;
    let (ds, hs) = (big * d, big * h);
    assert(size(ds) <= a * m && size(hs) <= b * k);
    lemma_product_is_bounded(ds, y, a * m, k);
    lemma_product_regroups(a, m, k);
    lemma_product_regroups(big, d, y);
    assert(size(big * (d * y)) <= a * p);
    lemma_product_is_bounded(hs, x, b * k, m);
    lemma_product_regroups(b, k, m);
    lemma_product_regroups(k, m, 1real);
    lemma_product_regroups(big, h, x);
    lemma_product_regroups(h, x, 1real);
    assert(size(big * (x * h)) <= b * p);
    lemma_product_is_bounded(ds, hs, a * m, b * k);
    lemma_product_regroups(a, m, b * k);
    lemma_product_regroups(m, b * k, 1real);
    lemma_product_regroups(b, k, m);
    lemma_product_regroups(a, b * p, 1real);
    lemma_product_regroups(a, b, p);
    assert(a * m * (b * k) == a * b * p);
    assert(a * b <= 1000000real) by {
        lemma_product_grows(a, 1000real, b);
    }
    lemma_product_grows(a * b, 1000000real, p);
    lemma_product_regroups(big, d, hs);
    lemma_product_regroups(d, big, h);
    lemma_product_regroups(big, d, 1real);
    lemma_product_regroups(big, d * h, 1real);
    lemma_product_regroups(d, h, 1real);
    lemma_product_regroups(d, hs, 1real);
    lemma_product_regroups(big, h, d);
    assert(d * hs == big * (d * h));
    assert(size(big * (big * (d * h))) <= 1000000real * p);
    lemma_product_grows(a, 1000real, p);
    lemma_product_grows(b, 1000real, p);
    assert(8388608real * size(u * v - x * y) <= a * p + b * p + p / 8real);
    law_products_are_close(f, g);
    lemma_product_of_sum(a + b, 2real, p);
    lemma_product_of_sum(a, b, p);
    assert((i + j + 2) as real == a + b + 2real);
}

/// Rounding keeps the order of fractions.
pub proof fn lemma_nearest_keeps_order(n: nat, d: nat, m: nat, e: nat)
    requires
        d > 0,
        e > 0,
        n * e <= m * d,
    ensures
        Format::Binary32.nearest(n, d) <= Format::Binary32.nearest(m, e) <= INFINITY,
{
    let format = Format::Binary32;
    let low = format.nearest(n, d);
    let high = format.nearest(m, e);
    lemma_nearest_exists(format, n, d);
    lemma_nearest_exists(format, m, e);
    if high < low {
        lemma_rounds_above_smaller(format, n, d, high, (low - 1) as nat);
        let p = pow2(150);
        let middle = format.doubled_midpoint(high);
        lemma_pow2_pos(150);
        assert(n * p >= d * middle);
        assert(m * p <= e * middle);
        assert((n * p) * e >= (d * middle) * e) by (nonlinear_arith)
            requires
                n * p >= d * middle,
        ;
        assert((m * p) * d <= (e * middle) * d) by (nonlinear_arith)
            requires
                m * p <= e * middle,
        ;
        assert((n * e) * p <= (m * d) * p) by (nonlinear_arith)
            requires
                n * e <= m * d,
        ;
        assert((n * p) * e == (n * e) * p) by (nonlinear_arith);
        assert((m * p) * d == (m * d) * p) by (nonlinear_arith);
        assert((d * middle) * e == (e * middle) * d) by (nonlinear_arith);
        // Both lie on the midpoint, which rounds to one magnitude only.
        if n * p > d * middle {
            assert((n * p) * e > (d * middle) * e) by (nonlinear_arith)
                requires
                    n * p > d * middle,
                    e > 0,
            ;
        }
        if m * p < e * middle {
            assert((m * p) * d < (e * middle) * d) by (nonlinear_arith)
                requires
                    m * p < e * middle,
                    d > 0,
            ;
        }
    }
}

/// Rounding a scaled value keeps the order.
proof fn lemma_of_scaled_keeps_order(first: int, second: int, a: bool, b: bool)
    requires
        first <= second,
    ensures
        Float32::of_scaled(first, a).rank() <= Float32::of_scaled(second, b).rank(),
        !Float32::of_scaled(first, a).not_a_number(),
        !Float32::of_scaled(second, b).not_a_number(),
{
    let p = pow2(149);
    lemma_pow2_pos(149);
    let x: nat = if first < 0 {
        (-first) as nat
    } else {
        first as nat
    };
    let y: nat = if second < 0 {
        (-second) as nat
    } else {
        second as nat
    };
    if x <= y {
        assert(x * p <= y * p) by (nonlinear_arith)
            requires
                x <= y,
        ;
        lemma_nearest_keeps_order(x, p, y, p);
    } else {
        assert(y * p <= x * p) by (nonlinear_arith)
            requires
                y <= x,
        ;
        lemma_nearest_keeps_order(y, p, x, p);
    }
}

/// Sums grow with their operands.
pub proof fn law_sums_keep_order(first: Float32, second: Float32, addend: Float32)
    requires
        first.finite(),
        second.finite(),
        addend.finite(),
        first.at_most(second),
    ensures
        (first + addend).at_most(second + addend),
{
    reveal(Float32::plus);
    lemma_scaled_keeps_order(first, second);
    lemma_of_scaled_keeps_order(
        first.scaled() + addend.scaled(),
        second.scaled() + addend.scaled(),
        first.negative() && addend.negative(),
        second.negative() && addend.negative(),
    );
}

proof fn lemma_scaled_keeps_order(first: Float32, second: Float32)
    requires
        first.at_most(second),
    ensures
        first.scaled() <= second.scaled(),
{
    let format = Format::Binary32;
    let (m, n) = (first.magnitude(), second.magnitude());
    if m <= n {
        law_values_grow_with_their_bits(format, m, n);
    } else {
        law_values_grow_with_their_bits(format, n, m);
    }
    crate::arith::lemma_zero_is_nearest(1);
}

/// Products grow with a factor, if the other one is not negative.
pub proof fn law_products_keep_order(first: Float32, second: Float32, factor: Float32)
    requires
        first.finite(),
        second.finite(),
        factor.finite(),
        !factor.negative(),
        first.at_most(second),
    ensures
        (first * factor).at_most(second * factor),
{
    reveal(Float32::times);
    let format = Format::Binary32;
    let (m, n) = (first.magnitude(), second.magnitude());
    let (a, b) = (format.scaled_value(m), format.scaled_value(n));
    let c = format.scaled_value(factor.magnitude());
    let p = pow2(298);
    lemma_pow2_pos(298);
    crate::arith::lemma_zero_is_nearest(pow2(298));
    if m <= n {
        law_values_grow_with_their_bits(format, m, n);
        assert((a * c) * p <= (b * c) * p) by (nonlinear_arith)
            requires
                a <= b,
        ;
        lemma_nearest_keeps_order(a * c, p, b * c, p);
    } else {
        law_values_grow_with_their_bits(format, n, m);
        assert((b * c) * p <= (a * c) * p) by (nonlinear_arith)
            requires
                b <= a,
        ;
        lemma_nearest_keeps_order(b * c, p, a * c, p);
    }
    if n == 0 {
        assert(b * c == 0) by (nonlinear_arith)
            requires
                b == 0,
        ;
    }
    if m == 0 {
        assert(a * c == 0) by (nonlinear_arith)
            requires
                a == 0,
        ;
    }
}

/// Quotients grow with the dividend, if the divisor is positive.
pub proof fn law_quotients_keep_order(first: Float32, second: Float32, divisor: Float32)
    requires
        first.finite(),
        second.finite(),
        divisor.finite(),
        divisor.rank() > 0,
        first.at_most(second),
    ensures
        (first / divisor).at_most(second / divisor),
{
    reveal(Float32::over);
    let format = Format::Binary32;
    let (m, n) = (first.magnitude(), second.magnitude());
    let (a, b) = (format.scaled_value(m), format.scaled_value(n));
    let c = format.scaled_value(divisor.magnitude());
    lemma_scaled_is_positive(divisor.magnitude());
    crate::arith::lemma_zero_is_nearest(c);
    if m <= n {
        law_values_grow_with_their_bits(format, m, n);
        assert(a * c <= b * c) by (nonlinear_arith)
            requires
                a <= b,
        ;
        lemma_nearest_keeps_order(a, c, b, c);
    } else {
        law_values_grow_with_their_bits(format, n, m);
        assert(b * c <= a * c) by (nonlinear_arith)
            requires
                b <= a,
        ;
        lemma_nearest_keeps_order(b, c, a, c);
    }
}

/// A finite value other than zero, divided by itself, is one, and by its opposite minus one.
pub proof fn law_values_go_into_themselves_once(value: Float32)
    requires
        value.finite(),
        value.magnitude() > 0,
    ensures
        value / value == (Float32 { bits: ONE }),
        value.opposite() / value == (Float32 { bits: ONE }).opposite(),
{
    reveal(Float32::over);
    lemma_powers();
    lemma_scaled_is_positive(value.magnitude());
    let scaled = Format::Binary32.scaled_value(value.magnitude());
    law_representable_values_are_kept(Format::Binary32, scaled, scaled, ONE as nat);
}

/// The quotient of an opposite is the opposite of the quotient.
pub proof fn law_opposites_divide_alike(value: Float32, divisor: Float32)
    requires
        value.finite(),
        divisor.finite(),
        divisor.magnitude() > 0,
    ensures
        value.opposite() / divisor == (value / divisor).opposite(),
{
    reveal(Float32::over);
    let format = Format::Binary32;
    lemma_scaled_is_positive(divisor.magnitude());
    let a = format.scaled_value(value.magnitude());
    let c = format.scaled_value(divisor.magnitude());
    lemma_nearest_exists(format, a, c);
}

/// What the bits of a half, one and two stand for.
pub proof fn law_small_constants()
    ensures
        (Float32 { bits: 0 }).value() == 0real,
        (Float32 { bits: HALF }).value() == 1real / 2real,
        (Float32 { bits: ONE }).value() == 1real,
        (Float32 { bits: TWO }).value() == 2real,
        Format::Binary32.scaled_value(HALF as nat) == pow2(148),
        Format::Binary32.scaled_value(TWO as nat) == pow2(150),
{
    let format = Format::Binary32;
    lemma_powers();
    lemma2_to64();
    lemma_pow2_pos(149);
    lemma_pow2_adds(1, 148);
    lemma_pow2_adds(1, 149);
    lemma_pow2_adds(23, 125);
    lemma_pow2_adds(23, 127);
    crate::arith::lemma_zero_is_nearest(1);
    assert(0x3f00_0000nat / 0x80_0000nat == 126 && 0x3f00_0000nat % 0x80_0000nat == 0);
    assert(0x4000_0000nat / 0x80_0000nat == 128 && 0x4000_0000nat % 0x80_0000nat == 0);
    assert(format.exponent_field(HALF as nat) == 126);
    assert(format.exponent_field(TWO as nat) == 128);
    let p = pow2(149) as real;
    let h = pow2(148) as real;
    assert(p == 2real * h);
    assert(h / p == 1real / 2real && p / p == 1real && (2real * p) / p == 2real && 0real / p
        == 0real) by (nonlinear_arith)
        requires
            p == 2real * h,
            p > 0real,
    ;
}

/// One and one are two, one less one is nothing, and half of two is one.
pub proof fn law_small_sums()
    ensures
        (Float32 { bits: ONE }) + (Float32 { bits: ONE }) == (Float32 { bits: TWO }),
        (Float32 { bits: TWO }) * (Float32 { bits: HALF }) == (Float32 { bits: ONE }),
        (Float32 { bits: ONE }) - (Float32 { bits: ONE }) == (Float32 { bits: 0 }),
        (Float32 { bits: 0 }) * (Float32 { bits: HALF }) == (Float32 { bits: 0 }),
        (Float32 { bits: ONE }) * (Float32 { bits: HALF }) == (Float32 { bits: HALF }),
{
    reveal(Float32::plus);
    reveal(Float32::times);
    let format = Format::Binary32;
    let one = Float32 { bits: ONE };
    law_small_constants();
    lemma_powers();
    lemma_pow2_pos(149);
    lemma_pow2_pos(298);
    lemma_pow2_adds(150, 148);
    lemma_pow2_adds(149, 149);
    lemma_pow2_adds(1, 149);
    lemma2_to64();
    let p = pow2(149);
    assert((p + p) * p == p * pow2(150)) by (nonlinear_arith)
        requires
            pow2(150) == 2 * p,
    ;
    law_representable_values_are_kept(format, p + p, p, TWO as nat);
    law_representable_values_are_kept(format, pow2(298), pow2(298), ONE as nat);
    crate::arith::law_differences_of_equal_values_vanish(one);
    crate::arith::law_products_with_zero_vanish(Float32 { bits: HALF }, Float32 { bits: 0 });
    crate::arith::law_products_commute(Float32 { bits: HALF }, Float32 { bits: 0 });
    crate::arith::law_multiplying_by_one_changes_nothing(Float32 { bits: HALF });
}

/// Whether two values are the same, or zeros of either sign.
pub open spec fn alike(first: Float32, second: Float32) -> bool {
    first == second || (first.magnitude() == 0 && second.magnitude() == 0)
}

/// Whether two vectors have the same coordinates, but for the signs of zeros.
pub open spec fn alike_vectors(first: Vec3, second: Vec3) -> bool {
    alike(first.x, second.x) && alike(first.y, second.y) && alike(first.z, second.z)
}

/// Sums and products of values that are alike are alike.
pub proof fn law_arithmetic_keeps_likeness(
    first: Float32,
    second: Float32,
    other_first: Float32,
    other_second: Float32,
)
    requires
        alike(first, other_first),
        alike(second, other_second),
    ensures
        alike(first + second, other_first + other_second),
        alike(first * second, other_first * other_second),
{
    reveal(Float32::plus);
    reveal(Float32::times);
    let format = Format::Binary32;
    lemma_pow2_pos(298);
    crate::arith::lemma_zero_is_nearest(pow2(298));
    let a = format.scaled_value(first.magnitude());
    let b = format.scaled_value(second.magnitude());
    if first.magnitude() == 0 {
        assert(0 * b == 0) by (nonlinear_arith);
    }
    if second.magnitude() == 0 {
        assert(a * 0 == 0) by (nonlinear_arith);
    }
}

/// Roots of values that are alike are alike.
pub proof fn law_roots_keep_likeness(first: Float32, second: Float32)
    requires
        alike(first, second),
    ensures
        alike(first.root(), second.root()),
{
    reveal(Float32::root);
}

/// Lengths of vectors that are alike are alike.
pub proof fn law_lengths_keep_likeness(first: Vec3, second: Vec3)
    requires
        alike_vectors(first, second),
    ensures
        alike(first.norm(), second.norm()),
{
    law_arithmetic_keeps_likeness(first.x, first.x, second.x, second.x);
    law_arithmetic_keeps_likeness(first.y, first.y, second.y, second.y);
    law_arithmetic_keeps_likeness(first.z, first.z, second.z, second.z);
    law_arithmetic_keeps_likeness(
        first.x * first.x,
        first.y * first.y,
        second.x * second.x,
        second.y * second.y,
    );
    law_arithmetic_keeps_likeness(
        first.x * first.x + first.y * first.y,
        first.z * first.z,
        second.x * second.x + second.y * second.y,
        second.z * second.z,
    );
    law_roots_keep_likeness(first.dot_product(first), second.dot_product(second));
}

/// A sum of a value and products with zero is like the value.
pub proof fn law_zeros_add_nothing(value: Float32, zero: Float32)
    requires
        value.finite(),
        zero.magnitude() == 0,
    ensures
        alike(value + zero, value),
        alike(zero + value, value),
{
    crate::arith::law_adding_a_signed_zero_keeps_the_value(value, zero);
    crate::arith::law_sums_commute(value, zero);
}

/// Quotients by the same divisor of values that are alike are alike.
pub proof fn law_quotients_keep_likeness(first: Float32, second: Float32, divisor: Float32)
    requires
        alike(first, second),
    ensures
        alike(first / divisor, second / divisor),
{
    if first != second {
        reveal(Float32::over);
        if divisor.finite() && divisor.magnitude() > 0 {
            lemma_scaled_is_positive(divisor.magnitude());
            crate::arith::lemma_zero_is_nearest(Format::Binary32.scaled_value(divisor.magnitude()));
        }
    }
}

/// Directions of vectors that are alike are alike.
pub proof fn law_directions_keep_likeness(first: Vec3, second: Vec3)
    requires
        alike_vectors(first, second),
    ensures
        alike_vectors(first.unit(), second.unit()),
{
    law_lengths_keep_likeness(first, second);
    let length = first.norm();
    law_quotients_keep_likeness(first.x, second.x, length);
    law_quotients_keep_likeness(first.y, second.y, length);
    law_quotients_keep_likeness(first.z, second.z, length);
}

/// The magnitude with twice the value.
proof fn lemma_doubled_bits(bits: nat)
    requires
        bits < INFINITY - 0x80_0000,
    ensures
        Format::Binary32.scaled_value(
            if bits < 0x80_0000 {
                2 * bits
            } else {
                bits + 0x80_0000
            },
        ) == 2 * Format::Binary32.scaled_value(bits),
{
    let format = Format::Binary32;
    lemma_powers();
    lemma2_to64();
    assert(pow2(23) == 0x80_0000);
    assert(pow2(0) == 1);
    if bits < 0x80_0000 {
        assert(bits / 0x80_0000 == 0 && bits % 0x80_0000 == bits);
        let twice = 2 * bits;
        let unit = pow2(0);
        assert(bits * unit == bits && twice * unit == twice) by (nonlinear_arith)
            requires
                unit == 1,
        ;
        if twice < 0x80_0000 {
            assert(twice / 0x80_0000 == 0 && twice % 0x80_0000 == twice);
        } else {
            assert(twice / 0x80_0000 == 1 && twice % 0x80_0000 == twice - 0x80_0000);
        }
        assert(format.significand(twice) == twice && format.exponent(twice) == 0);
    } else {
        let e = format.exponent(bits);
        lemma_pow2_adds(1, e);
        let twice = bits + 0x80_0000;
        assert(twice / 0x80_0000 == bits / 0x80_0000 + 1 && twice % 0x80_0000 == bits % 0x80_0000);
        assert(bits / 0x80_0000 >= 1);
        assert(format.exponent(twice) == e + 1);
        assert(format.significand(twice) == format.significand(bits));
        let s = format.significand(bits);
        let p = pow2(e);
        assert(s * (2 * p) == 2 * (s * p)) by (nonlinear_arith);
    }
}

/// Twice a value that stays finite is exact, and the value is one half of it.
pub proof fn law_halves_make_wholes(value: Float32)
    requires
        0 < value.magnitude() < INFINITY - 0x80_0000,
    ensures
        (value + value).finite(),
        (value + value).scaled() == 2 * value.scaled(),
        (value + value).negative() == value.negative(),
        value / (value + value) == (Float32 { bits: HALF }),
{
    reveal(Float32::plus);
    let format = Format::Binary32;
    let m = value.magnitude();
    let s = format.scaled_value(m);
    let twice: nat = if m < 0x80_0000 {
        2 * m
    } else {
        m + 0x80_0000
    };
    assert(format.scaled_value(twice) == 2 * s) by {
        lemma_doubled_bits(m);
    }
    let unit = pow2(149);
    lemma_pow2_pos(149);
    assert((2 * s) * unit == unit * (2 * s)) by (nonlinear_arith);
    law_representable_values_are_kept(format, 2 * s, unit, twice);
    lemma_scaled_is_positive(m);
    reveal(Float32::over);
    law_small_constants();
    lemma_powers();
    lemma_pow2_adds(1, 148);
    lemma2_to64();
    let half = pow2(148);
    assert(s * unit == (2 * s) * half) by (nonlinear_arith)
        requires
            unit == 2 * half,
    ;
    law_representable_values_are_kept(format, s, 2 * s, HALF as nat);
}

/// Some magnitude is nearest to a square root.
proof fn lemma_nearest_root_exists(square: nat, bits: nat)
    requires
        bits <= INFINITY,
        bits > 0 ==> root_rounds_above(square, (bits - 1) as nat),
    ensures
        exists|found: nat| is_nearest_root(square, found),
    decreases INFINITY - bits,
{
    if bits < INFINITY && root_rounds_above(square, bits) {
        lemma_nearest_root_exists(square, bits + 1);
    } else {
        assert(is_nearest_root(square, bits));
    }
}

/// A square root that is not tiny is not far below the exact one.
proof fn lemma_root_is_close(square: nat)
    requires
        8388608 <= nearest_root(square) < INFINITY,
    ensures
        ({
            let root = Format::Binary32.scaled_value(nearest_root(square));
            281474976710656 * square <= 281475010265089 * (root * root)
        }),
{
    let format = Format::Binary32;
    lemma_nearest_root_exists(square, 0);
    let bits = nearest_root(square);
    assert(is_nearest_root(square, bits));
    lemma_powers();
    lemma2_to64();
    assert(pow2(23) == 8388608);
    let s = format.significand(bits);
    let e = pow2(format.exponent(bits));
    let root = format.scaled_value(bits);
    let middle = format.doubled_midpoint(bits);
    assert(bits / 8388608 >= 1);
    assert(s >= 8388608);
    assert((2 * s + 1) * e == 2 * (s * e) + e) by (nonlinear_arith);
    assert(8388608 * e <= s * e) by (nonlinear_arith)
        requires
            s >= 8388608,
    ;
    let scaled: nat = 8388608 * middle;
    let limit: nat = 16777217 * root;
    assert(scaled <= limit);
    assert(scaled * scaled <= limit * limit) by (nonlinear_arith)
        requires
            scaled <= limit,
    ;
    assert(scaled * scaled == 70368744177664 * (middle * middle)) by (nonlinear_arith)
        requires
            scaled == 8388608 * middle,
    ;
    assert(limit * limit == 281475010265089 * (root * root)) by (nonlinear_arith)
        requires
            limit == 16777217 * root,
    ;
    assert(4 * square <= middle * middle);
}

/// The square of a root that is not tiny falls short of the value by little.
pub proof fn law_squares_of_roots_are_close(value: Float32)
    requires
        value.finite(),
        value.root().finite(),
        value.root().magnitude() >= 8388608,
    ensures
        value.value() >= 0real,
        value.root().value() > 0real,
        8real * value.value() <= 9real * (value.root().value() * value.root().value()),
{
    reveal(Float32::root);
    let format = Format::Binary32;
    assert(!value.negative() && value.magnitude() > 0) by {
        if value.magnitude() == 0 {
            assert(false);
        }
    }
    let unit = pow2(149);
    lemma_pow2_pos(149);
    let v = format.scaled_value(value.magnitude());
    let square = v * unit;
    lemma_nearest_root_exists(square, 0);
    assert(is_nearest_root(square, nearest_root(square)));
    lemma_root_is_close(square);
    let r = format.scaled_value(nearest_root(square));
    lemma_scaled_is_positive(nearest_root(square));
    lemma_scaled_is_positive(value.magnitude());
    assert(8 * square <= 9 * (r * r));
    let (x, y, p) = (v as real, r as real, unit as real);
    lemma_cast_product(v as int, unit as int);
    lemma_cast_product(r as int, r as int);
    assert(8real * (x * p) <= 9real * (y * y));
    lemma_value_of(false, nearest_root(square));
    assert(value.value() == x / p);
    assert(value.root().value() == y / p);
    lemma_root_ratio(x, y, p);
}

proof fn lemma_root_ratio(x: real, y: real, p: real)
    requires
        p > 0real,
        x >= 0real,
        y > 0real,
        8real * (x * p) <= 9real * (y * y),
    ensures
        x / p >= 0real,
        y / p > 0real,
        8real * (x / p) <= 9real * ((y / p) * (y / p)),
{
    let (a, b) = (x / p, y / p);
    assert(x == a * p && y == b * p && a >= 0real && b > 0real) by (nonlinear_arith)
        requires
            p > 0real,
            x >= 0real,
            y > 0real,
            a == x / p,
            b == y / p,
    ;
    assert(x * p == a * (p * p)) by (nonlinear_arith)
        requires
            x == a * p,
    ;
    assert(y * y == (b * b) * (p * p)) by (nonlinear_arith)
        requires
            y == b * p,
    ;
    let q = p * p;
    let c = b * b;
    assert(q > 0real) by (nonlinear_arith)
        requires
            p > 0real,
            q == p * p,
    ;
    if 8real * a > 9real * c {
        assert((8real * a - 9real * c) * q > 0real) by (nonlinear_arith)
            requires
                8real * a > 9real * c,
                q > 0real,
        ;
        assert((8real * a - 9real * c) * q == 8real * (a * q) - 9real * (c * q))
            by (nonlinear_arith);
        assert(false);
    }
}

/// A sum with a value that is not negative is not less.
proof fn lemma_sum_is_at_least(first: Float32, second: Float32)
    requires
        first.finite(),
        second.finite(),
        second.value() >= 0real,
        (first + second).finite(),
    ensures
        (first + second).value() >= first.value(),
{
    let zero = Float32 { bits: 0 };
    law_small_constants();
    law_values_keep_order(zero, second);
    law_sums_keep_order(zero, second, first);
    crate::arith::law_sums_commute(second, first);
    law_zeros_add_nothing(first, zero);
    let start = zero + first;
    if start != first {
        crate::arith::lemma_zero_is_nearest(1);
        assert(start.scaled() == 0 && first.scaled() == 0);
    }
    law_values_keep_order(start, first + second);
}

/// A square is not negative.
proof fn lemma_square(value: Float32)
    requires
        value.finite(),
        size(value.value()) <= 36028797018963968real,
    ensures
        (value * value).finite(),
        0real <= (value * value).value() <= 1298074214633706907132624082305024real * 2real,
        (value * value).value() >= value.value() * value.value() * (8388607real / 8388608real)
            - grain(),
{
    let x = value.value();
    lemma_product_is_bounded(x, x, 36028797018963968real, 36028797018963968real);
    assert(x * x >= 0real) by (nonlinear_arith);
    lemma_grain();
    law_products_are_close(value, value);
    reveal(Float32::times);
    lemma_pow2_pos(149);
    let m = Format::Binary32.scaled_value(value.magnitude());
    lemma_nearest_exists(Format::Binary32, m * m, pow2(298));
    let s = (value * value).scaled();
    assert(!(value * value).negative());
    assert(s >= 0);
    let (a, p) = (s as real, pow2(149) as real);
    assert(a / p >= 0real) by (nonlinear_arith)
        requires
            a >= 0real,
            p > 0real,
    ;
}

/// No coordinate is much longer than the length.
proof fn lemma_coordinate_is_short(x: real, sum: real, length: real, small: real)
    requires
        length > 1real / 8388608real,
        8real * sum <= 9real * (length * length),
        sum >= x * x * (8388607real / 8388608real) - small,
        0real <= small <= 1real / 1267650600228229401496703205376real,
    ensures
        size(x) <= 6real / 5real * length,
{
    let y = size(x);
    if y > 6real / 5real * length {
        let (a, b) = (x * x, length * length);
        assert(y * y == a) by (nonlinear_arith)
            requires
                y == x || y == -x,
                a == x * x,
        ;
        assert(y * y >= 36real / 25real * b) by (nonlinear_arith)
            requires
                y > 6real / 5real * length,
                length > 0real,
                b == length * length,
        ;
        assert(b >= 1real / 70368744177664real) by (nonlinear_arith)
            requires
                length > 1real / 8388608real,
                b == length * length,
        ;
        assert(false);
    }
}

/// The quotient of a coordinate by the length.
proof fn lemma_quotient_is_short(coordinate: Float32, length: Float32)
    requires
        coordinate.finite(),
        length.finite(),
        length.magnitude() > 0,
        length.value() > 0real,
        size(coordinate.value()) <= 6real / 5real * length.value(),
    ensures
        (coordinate / length).finite(),
        size((coordinate / length).value()) <= 5real / 4real,
{
    let (x, v) = (coordinate.value(), length.value());
    let q = x / v;
    assert(size(q) <= 6real / 5real) by {
        assert(q <= 6real / 5real && q >= -(6real / 5real)) by (nonlinear_arith)
            requires
                v > 0real,
                q == x / v,
                x <= 6real / 5real * v,
                x >= -(6real / 5real * v),
        ;
    }
    lemma_grain();
    law_quotients_are_close(coordinate, length);
}

/// The coordinates of a direction are hardly above one.
pub proof fn law_directions_are_short(vector: Vec3)
    requires
        vector.x.finite(),
        vector.y.finite(),
        vector.z.finite(),
        size(vector.x.value()) <= 36028797018963968real,
        size(vector.y.value()) <= 36028797018963968real,
        size(vector.z.value()) <= 36028797018963968real,
        vector.norm().finite(),
        !vector.norm().at_most(Float32 { bits: 0x3400_0000 }),
    ensures
        ({
            let direction = vector / vector.norm();
            &&& direction.x.finite() && size(direction.x.value()) <= 5real / 4real
            &&& direction.y.finite() && size(direction.y.value()) <= 5real / 4real
            &&& direction.z.finite() && size(direction.z.value()) <= 5real / 4real
        }),
{
    let length = vector.norm();
    let (a, b, c) = (vector.x * vector.x, vector.y * vector.y, vector.z * vector.z);
    lemma_square(vector.x);
    lemma_square(vector.y);
    lemma_square(vector.z);
    lemma_grain();
    law_sums_are_close(a, b);
    law_sums_are_close(a + b, c);
    let sum = a + b + c;
    crate::arith::law_sums_commute(a, b);
    crate::arith::law_sums_commute(a + b, c);
    lemma_sum_is_at_least(a, b);
    lemma_sum_is_at_least(b, a);
    lemma_sum_is_at_least(a + b, c);
    lemma_sum_is_at_least(c, a + b);
    assert(length.value() > 1real / 8388608real && length.magnitude() >= 8388608) by {
        lemma_smallest_length(length);
    }
    law_squares_of_roots_are_close(sum);
    let (s, v) = (sum.value(), length.value());
    lemma_coordinate_is_short(vector.x.value(), s, v, grain());
    lemma_coordinate_is_short(vector.y.value(), s, v, grain());
    lemma_coordinate_is_short(vector.z.value(), s, v, grain());
    lemma_quotient_is_short(vector.x, length);
    lemma_quotient_is_short(vector.y, length);
    lemma_quotient_is_short(vector.z, length);
}

proof fn lemma_smallest_length(length: Float32)
    requires
        length.finite(),
        !length.at_most(Float32 { bits: 0x3400_0000 }),
    ensures
        length.value() > 1real / 8388608real,
        length.magnitude() >= 8388608,
{
    let least = Float32 { bits: 0x3400_0000 };
    let format = Format::Binary32;
    law_values_keep_order(length, least);
    lemma_powers();
    lemma2_to64();
    lemma_pow2_pos(149);
    lemma_pow2_pos(126);
    assert(0x3400_0000nat / 0x80_0000nat == 104 && 0x3400_0000nat % 0x80_0000nat == 0);
    lemma_pow2_adds(23, 103);
    lemma_pow2_adds(23, 126);
    assert(format.scaled_value(0x3400_0000) == pow2(126));
    let (p, q) = (pow2(126) as real, pow2(149) as real);
    assert(q == 8388608real * p);
    assert(p / q == 1real / 8388608real) by (nonlinear_arith)
        requires
            q == 8388608real * p,
            p > 0real,
    ;
}

} // verus!
