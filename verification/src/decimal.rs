//! Decimal floating-point literals and the magnitudes that they round to.

use crate::bignat::BigNat;
use crate::rounding::{lemma_nearest, nearest, Format};
use vstd::arithmetic::power::{lemma_pow_adds, lemma_pow_positive, pow};
use vstd::arithmetic::power2::{
    lemma2_to64, lemma2_to64_rest, lemma_pow2_adds, lemma_pow2_pos,
    lemma_pow2_strictly_increases, pow2,
};
use vstd::prelude::*;

verus! {

/// What a decimal literal says.
pub enum Literal {
    /// The text is no literal.
    Invalid,
    /// A `nan`, in any case.
    NotANumber,
    /// An `inf` or `infinity`, in any case.
    Infinity,
    /// `digits` times ten to the power `places`.
    Number { digits: nat, places: int },
}

/// What a text reads as in some format.
#[derive(Clone, Copy, PartialEq, Eq, Structural, Debug)]
pub enum Reading {
    /// The text is no decimal literal.
    Invalid,
    /// The literal is not a number.
    NotANumber,
    /// The literal is infinite, or rounds to infinity.
    Infinite { negative: bool },
    /// The literal rounds to a finite value with this sign and these magnitude bits.
    Finite { negative: bool, magnitude: u64 },
}

pub open spec fn is_digit(c: char) -> bool {
    48 <= c as u32 <= 57
}

pub open spec fn digit_value(c: char) -> nat {
    (c as u32 - 48) as nat
}

/// The number that a sequence of decimal digits writes.
pub open spec fn digits_value(digits: Seq<char>) -> nat
    decreases digits.len(),
{
    if digits.len() == 0 {
        0
    } else {
        digits_value(digits.drop_last()) * 10 + digit_value(digits.last())
    }
}

/// Where the run of digits that starts at `start` ends.
pub open spec fn run_end(text: Seq<char>, start: int) -> int
    decreases text.len() - start,
{
    if 0 <= start < text.len() && is_digit(text[start]) {
        run_end(text, start + 1)
    } else {
        start
    }
}

pub open spec fn is_sign(c: char) -> bool {
    c == '+' || c == '-'
}

/// Whether `text` is `word`, which is in lower case, up to the case of ASCII letters.
pub open spec fn is_word(text: Seq<char>, word: Seq<char>) -> bool {
    &&& text.len() == word.len()
    &&& forall|i: int|
        0 <= i < text.len() ==> (#[trigger] text[i] == word[i] || text[i] as u32 + 32
            == word[i] as u32)
}

pub open spec fn is_nan_word(text: Seq<char>) -> bool {
    is_word(text, seq!['n', 'a', 'n'])
}

pub open spec fn is_infinity_word(text: Seq<char>) -> bool {
    ||| is_word(text, seq!['i', 'n', 'f'])
    ||| is_word(text, seq!['i', 'n', 'f', 'i', 'n', 'i', 't', 'y'])
}

/// Where the digits after the decimal point end, or those before it where there is no point.
pub open spec fn mantissa_end(text: Seq<char>) -> int {
    let whole = run_end(text, 0);
    if whole < text.len() && text[whole] == '.' {
        run_end(text, whole + 1)
    } else {
        whole
    }
}

/// The digits of the mantissa without its point.
pub open spec fn mantissa_digits(text: Seq<char>) -> Seq<char> {
    let whole = run_end(text, 0);
    let end = mantissa_end(text);
    if end > whole {
        text.subrange(0, whole) + text.subrange(whole + 1, end)
    } else {
        text.subrange(0, whole)
    }
}

/// How many digits stand after the decimal point.
pub open spec fn fraction_digits(text: Seq<char>) -> int {
    let whole = run_end(text, 0);
    let end = mantissa_end(text);
    if end > whole {
        end - whole - 1
    } else {
        0
    }
}

/// A literal without its sign: digits with an optional point, then an optional exponent.
pub open spec fn unsigned_literal(text: Seq<char>) -> Literal {
    let end = mantissa_end(text);
    let digits = mantissa_digits(text);
    let fraction = fraction_digits(text);
    if is_nan_word(text) {
        Literal::NotANumber
    } else if is_infinity_word(text) {
        Literal::Infinity
    } else if digits.len() == 0 {
        Literal::Invalid
    } else if end == text.len() {
        Literal::Number { digits: digits_value(digits), places: -fraction }
    } else if text[end] == 'e' || text[end] == 'E' {
        let sign = end + 1 < text.len() && is_sign(text[end + 1]);
        let start = if sign {
            end + 2
        } else {
            end + 1
        };
        if start >= text.len() || run_end(text, start) != text.len() {
            Literal::Invalid
        } else {
            let power = digits_value(text.subrange(start, text.len() as int)) as int;
            let signed = if sign && text[end + 1] == '-' {
                -power
            } else {
                power
            };
            Literal::Number { digits: digits_value(digits), places: signed - fraction }
        }
    } else {
        Literal::Invalid
    }
}

/// The text after its sign.
pub open spec fn unsigned_part(text: Seq<char>) -> Seq<char> {
    if text.len() > 0 && is_sign(text[0]) {
        text.subrange(1, text.len() as int)
    } else {
        text
    }
}

/// The magnitude nearest to `digits` times ten to the power `places`.
pub open spec fn decimal_magnitude(format: Format, digits: nat, places: int) -> nat {
    if places >= 0 {
        format.nearest((digits * pow(10, places as nat)) as nat, 1)
    } else {
        format.nearest(digits, pow(10, (-places) as nat) as nat)
    }
}

/// Whether a text begins with a minus.
pub open spec fn has_minus(text: Seq<char>) -> bool {
    text.len() > 0 && text[0] == '-'
}

/// What `text` reads as in `format`.
pub open spec fn reading(format: Format, text: Seq<char>) -> Reading {
    let negative = has_minus(text);
    match unsigned_literal(unsigned_part(text)) {
        Literal::Invalid => Reading::Invalid,
        Literal::NotANumber => Reading::NotANumber,
        Literal::Infinity => Reading::Infinite { negative },
        Literal::Number { digits, places } => {
            let magnitude = decimal_magnitude(format, digits, places);
            if magnitude >= format.infinity() {
                Reading::Infinite { negative }
            } else {
                Reading::Finite { negative, magnitude: magnitude as u64 }
            }
        },
    }
}

proof fn lemma_run_end(text: Seq<char>, start: int)
    requires
        0 <= start <= text.len(),
    ensures
        start <= run_end(text, start) <= text.len(),
        forall|i: int| start <= i < run_end(text, start) ==> is_digit(#[trigger] text[i]),
    decreases text.len() - start,
{
    if start < text.len() && is_digit(text[start]) {
        lemma_run_end(text, start + 1);
    }
}

/// Ten to a power is at least eight to it.
proof fn lemma_pow10_at_least_pow8(n: nat)
    ensures
        pow(10, n) >= pow2(3 * n),
        pow(10, n) > 0,
    decreases n,
{
    reveal(pow);
    lemma2_to64();
    if n > 0 {
        let before = (n - 1) as nat;
        lemma_pow10_at_least_pow8(before);
        lemma_pow2_adds(3, 3 * before);
        assert(pow(10, n) == 10 * pow(10, before));
        assert(3 * n == 3 + 3 * before);
    }
}

/// A product of powers of ten.
proof fn lemma_pow10_at_least(small: nat, large: nat)
    requires
        small <= large,
    ensures
        pow(10, small) <= pow(10, large),
    decreases large - small,
{
    reveal(pow);
    if small < large {
        lemma_pow10_at_least(small, (large - 1) as nat);
        lemma_pow_positive(10, (large - 1) as nat);
    }
}

proof fn lemma_digits_bound(digits: Seq<char>)
    requires
        forall|i: int| 0 <= i < digits.len() ==> is_digit(#[trigger] digits[i]),
    ensures
        digits_value(digits) < pow(10, digits.len()),
    decreases digits.len(),
{
    reveal(pow);
    if digits.len() > 0 {
        lemma_digits_bound(digits.drop_last());
        assert(is_digit(digits.last()));
    }
}

/// A literal whose power of ten is large enough is infinite.
proof fn lemma_huge(format: Format, digits: nat, places: int)
    requires
        digits > 0,
        places >= 400,
    ensures
        decimal_magnitude(format, digits, places) == format.infinity(),
{
    let numerator = (digits * pow(10, places as nat)) as nat;
    lemma_pow10_at_least(400, places as nat);
    lemma_pow10_at_least_pow8(400);
    let bits = (format.infinity() - 1) as nat;
    lemma2_to64();
    lemma2_to64_rest();
    assert(digits * pow(10, places as nat) >= pow2(1200)) by (nonlinear_arith)
        requires
            digits > 0,
            pow(10, places as nat) >= pow2(1200),
    ;
    let scale = format.scale();
    assert(numerator * pow2(scale + 1) >= pow2(1200) * pow2(scale + 1)) by (nonlinear_arith)
        requires
            numerator >= pow2(1200),
    ;
    lemma_pow2_adds(1200, scale + 1);
    match format {
        Format::Binary32 => {
            assert(bits / 0x80_0000 == 254 && bits % 0x80_0000 == 0x7f_ffff);
            assert(format.exponent_field(bits) == 254);
            assert(format.significand(bits) == 0xff_ffff);
            assert(format.exponent(bits) == 253);
            lemma_pow2_adds(25, 253);
            lemma_pow2_pos(253);
            assert(0x1ff_ffffnat * pow2(253) < 0x200_0000nat * pow2(253)) by (nonlinear_arith)
                requires
                    pow2(253) > 0,
            ;
            lemma_pow2_strictly_increases(278, 1350);
        },
        Format::Binary64 => {
            assert(bits / 0x10_0000_0000_0000 == 2046 && bits % 0x10_0000_0000_0000
                == 0xf_ffff_ffff_ffff);
            assert(format.exponent_field(bits) == 2046);
            assert(format.significand(bits) == 0x1f_ffff_ffff_ffff);
            assert(format.exponent(bits) == 2045);
            lemma_pow2_adds(54, 2045);
            lemma_pow2_pos(2045);
            assert(0x3f_ffff_ffff_ffffnat * pow2(2045) < 0x40_0000_0000_0000nat * pow2(2045))
                by (nonlinear_arith)
                requires
                    pow2(2045) > 0,
            ;
            lemma_pow2_strictly_increases(2099, 2275);
        },
    }
    lemma_nearest(format, numerator, 1, format.infinity());
}

proof fn lemma_zero_midpoint(format: Format)
    ensures
        format.doubled_midpoint(0) == 1,
{
    lemma2_to64();
    lemma_pow2_pos(format.fraction_bits());
    let unit = pow2(format.fraction_bits());
    assert(0nat / unit == 0 && 0nat % unit == 0) by (nonlinear_arith)
        requires
            unit > 0,
    ;
    assert(1 * pow2(0) == 1);
}

/// A literal whose power of ten is small enough is zero.
proof fn lemma_tiny(format: Format, digits: nat, count: nat, places: int)
    requires
        digits < pow(10, count),
        count + places <= -400,
    ensures
        decimal_magnitude(format, digits, places) == 0,
{
    let down = (-places) as nat;
    let scale = format.scale();
    lemma_zero_midpoint(format);
    lemma_pow10_at_least_pow8(400);
    lemma_pow10_at_least_pow8(count);
    lemma_pow2_strictly_increases(scale + 1, 1200);
    lemma_pow_adds(10, count, 400);
    lemma_pow10_at_least(count + 400, down);
    lemma_pow2_pos(scale + 1);
    assert(digits * pow2(scale + 1) < pow(10, count) * pow(10, 400)) by (nonlinear_arith)
        requires
            digits < pow(10, count),
            pow2(scale + 1) < pow(10, 400),
            pow2(scale + 1) > 0,
    ;
    lemma_nearest(format, digits, pow(10, down) as nat, 0);
}

proof fn lemma_zero(format: Format, places: int)
    ensures
        decimal_magnitude(format, 0, places) == 0,
{
    lemma_zero_midpoint(format);
    if places >= 0 {
        assert(0 * pow(10, places as nat) == 0);
        lemma_nearest(format, 0, 1, 0);
    } else {
        lemma_pow_positive(10, (-places) as nat);
        lemma_nearest(format, 0, pow(10, (-places) as nat) as nat, 0);
    }
}

pub fn exec_is_digit(c: char) -> (result: bool)
    ensures
        result == is_digit(c),
{
    c as u32 >= 48 && c as u32 <= 57
}

fn find_run_end(text: &[char], start: usize) -> (end: usize)
    requires
        start <= text@.len(),
    ensures
        end == run_end(text@, start as int),
        start <= end <= text@.len(),
{
    let mut end: usize = start;
    while end < text.len() && exec_is_digit(text[end])
        invariant
            start <= end <= text@.len(),
            run_end(text@, start as int) == run_end(text@, end as int),
        decreases text@.len() - end,
    {
        end += 1;
    }
    end
}

fn is_word_ignoring_case(text: &[char], start: usize, word: &[char]) -> (result: bool)
    requires
        start <= text@.len(),
    ensures
        result == is_word(text@.subrange(start as int, text@.len() as int), word@),
{
    let ghost rest = text@.subrange(start as int, text@.len() as int);
    if text.len() - start != word.len() {
        return false;
    }
    let mut i: usize = 0;
    while i < word.len()
        invariant
            text@.len() <= usize::MAX,
            i <= word@.len(),
            start + word@.len() == text@.len(),
            rest == text@.subrange(start as int, text@.len() as int),
            forall|j: int|
                0 <= j < i ==> (#[trigger] rest[j] == word@[j] || rest[j] as u32 + 32
                    == word@[j] as u32),
        decreases word@.len() - i,
    {
        let c: char = text[start + i];
        assert(c == rest[i as int]);
        if c != word[i] && (c as u32) as u64 + 32 != (word[i] as u32) as u64 {
            return false;
        }
        i += 1;
    }
    true
}

fn check_nan_word(text: &[char]) -> (result: bool)
    ensures
        result == is_nan_word(text@),
{
    let nan: [char; 3] = ['n', 'a', 'n'];
    assert(nan@ =~= seq!['n', 'a', 'n']);
    assert(text@.subrange(0, text@.len() as int) =~= text@);
    is_word_ignoring_case(text, 0, &nan)
}

fn check_infinity_word(text: &[char]) -> (result: bool)
    ensures
        result == is_infinity_word(text@),
{
    let inf: [char; 3] = ['i', 'n', 'f'];
    let infinity: [char; 8] = ['i', 'n', 'f', 'i', 'n', 'i', 't', 'y'];
    assert(inf@ =~= seq!['i', 'n', 'f']);
    assert(infinity@ =~= seq!['i', 'n', 'f', 'i', 'n', 'i', 't', 'y']);
    assert(text@.subrange(0, text@.len() as int) =~= text@);
    is_word_ignoring_case(text, 0, &inf) || is_word_ignoring_case(text, 0, &infinity)
}

/// The run of digits in `text` from `start` to `end`, read on after the number `high`.
fn accumulate(high: BigNat, text: &[char], start: usize, end: usize, digits: Ghost<Seq<char>>) -> (result:
    BigNat)
    requires
        start <= end <= text@.len(),
        high@ == digits_value(digits@),
        forall|i: int| start <= i < end ==> is_digit(#[trigger] text@[i]),
    ensures
        result@ == digits_value(digits@ + text@.subrange(start as int, end as int)),
{
    let mut value: BigNat = high;
    let mut i: usize = start;
    assert(digits@ + text@.subrange(start as int, start as int) =~= digits@);
    while i < end
        invariant
            start <= i <= end <= text@.len(),
            value@ == digits_value(digits@ + text@.subrange(start as int, i as int)),
            forall|j: int| start <= j < end ==> is_digit(#[trigger] text@[j]),
        decreases end - i,
    {
        proof {
            let next = digits@ + text@.subrange(start as int, i + 1);
            assert(is_digit(text@[i as int]));
            assert(next.drop_last() =~= digits@ + text@.subrange(start as int, i as int));
            assert(next.last() == text@[i as int]);
        }
        value = value.mul_add(10, (text[i] as u32 - 48) as u64);
        i += 1;
    }
    value
}

/// The power that an exponent writes. All powers from this bound up read as it.
pub const EXPONENT_BOUND: i128 = 0x1_0000_0000_0000_0000_0000;

fn read_exponent(text: &[char], start: usize) -> (result: i128)
    requires
        start <= text@.len(),
        forall|i: int| start <= i < text@.len() ==> is_digit(#[trigger] text@[i]),
    ensures
        0 <= result <= EXPONENT_BOUND,
        result < EXPONENT_BOUND ==> result == digits_value(
            text@.subrange(start as int, text@.len() as int),
        ),
        result == EXPONENT_BOUND ==> digits_value(
            text@.subrange(start as int, text@.len() as int),
        ) >= EXPONENT_BOUND,
{
    let mut value: i128 = 0;
    let mut i: usize = start;
    assert(text@.subrange(start as int, start as int).len() == 0);
    while i < text.len()
        invariant
            start <= i <= text@.len(),
            forall|j: int| start <= j < text@.len() ==> is_digit(#[trigger] text@[j]),
            0 <= value <= EXPONENT_BOUND,
            value < EXPONENT_BOUND ==> value == digits_value(
                text@.subrange(start as int, i as int),
            ),
            value == EXPONENT_BOUND ==> digits_value(text@.subrange(start as int, i as int))
                >= EXPONENT_BOUND,
        decreases text@.len() - i,
    {
        proof {
            let next = text@.subrange(start as int, i + 1);
            assert(is_digit(text@[i as int]));
            assert(next.drop_last() =~= text@.subrange(start as int, i as int));
            assert(next.last() == text@[i as int]);
        }
        let digit: i128 = (text[i] as u32 - 48) as i128;
        let next: i128 = value * 10 + digit;
        value = if next > EXPONENT_BOUND {
            EXPONENT_BOUND
        } else {
            next
        };
        i += 1;
    }
    value
}

/// Ten to the power `n`.
fn power_of_ten(n: u128) -> (result: BigNat)
    ensures
        result@ == pow(10, n as nat),
        result@ > 0,
{
    let mut result: BigNat = BigNat::from_u64(1);
    proof {
        reveal(pow);
        assert(pow(10, 0) == 1);
    }
    let mut i: u128 = 0;
    while i < n
        invariant
            i <= n,
            result@ == pow(10, i as nat),
            result@ > 0,
        decreases n - i,
    {
        proof {
            reveal(pow);
            assert(pow(10, (i + 1) as nat) == 10 * pow(10, i as nat));
        }
        result = result.mul_add(10, 0);
        i += 1;
    }
    result
}

/// The number times ten to the power `n`.
fn times_power_of_ten(value: &BigNat, n: u128) -> (result: BigNat)
    ensures
        result@ == value@ * pow(10, n as nat),
{
    let mut result: BigNat = value.mul_add(1, 0);
    let mut i: u128 = 0;
    proof {
        reveal(pow);
        assert(value@ * pow(10, 0) == value@) by (nonlinear_arith)
            requires
                pow(10, 0) == 1,
        ;
    }
    while i < n
        invariant
            i <= n,
            result@ == value@ * pow(10, i as nat),
        decreases n - i,
    {
        proof {
            reveal(pow);
            let power = pow(10, i as nat);
            assert(pow(10, (i + 1) as nat) == 10 * power);
            let whole = value@;
            assert((whole * power) * 10 == whole * (10 * power)) by (nonlinear_arith);
        }
        result = result.mul_add(10, 0);
        i += 1;
    }
    result
}

/// The magnitude of a number with `count` digits.
fn find_magnitude(format: Format, digits: &BigNat, count: u64, places: i128) -> (result: u64)
    requires
        digits@ < pow(10, count as nat),
        -0x2_0000_0000_0000_0000_0000 <= places <= 0x2_0000_0000_0000_0000_0000,
    ensures
        result == decimal_magnitude(format, digits@, places as int),
{
    let zero: BigNat = BigNat::from_u64(0);
    if let crate::bignat::Comparison::Equal = digits.compare_with(&zero) {
        proof {
            lemma_zero(format, places as int);
        }
        return 0;
    }
    if places >= 400 {
        proof {
            lemma_huge(format, digits@, places as int);
        }
        return match format {
            Format::Binary32 => 0x7f80_0000,
            Format::Binary64 => 0x7ff0_0000_0000_0000,
        };
    }
    if places + count as i128 <= -400 {
        proof {
            lemma_tiny(format, digits@, count as nat, places as int);
        }
        return 0;
    }
    if places >= 0 {
        let one: BigNat = BigNat::from_u64(1);
        nearest(format, &times_power_of_ten(digits, places as u128), &one)
    } else {
        nearest(format, digits, &power_of_ten((-places) as u128))
    }
}

/// The magnitude of a number whose exponent is out of bounds.
fn beyond_bound(
    format: Format,
    digits: &BigNat,
    count: u64,
    fraction: u64,
    upward: bool,
    text: Ghost<Seq<char>>,
) -> (result: u64)
    requires
        digits@ < pow(10, count as nat),
        (unsigned_literal(text@) matches Literal::Number { digits: value, places } && value
            == digits@ && (if upward {
            places >= EXPONENT_BOUND - fraction
        } else {
            places <= -EXPONENT_BOUND - fraction
        })),
    ensures
        (unsigned_literal(text@) matches Literal::Number { digits: value, places } && result
            == decimal_magnitude(format, value, places)),
{
    let ghost places = unsigned_literal(text@)->places;
    let zero: BigNat = BigNat::from_u64(0);
    if let crate::bignat::Comparison::Equal = digits.compare_with(&zero) {
        proof {
            lemma_zero(format, places);
        }
        0
    } else if upward {
        proof {
            lemma_huge(format, digits@, places);
        }
        match format {
            Format::Binary32 => 0x7f80_0000,
            Format::Binary64 => 0x7ff0_0000_0000_0000,
        }
    } else {
        proof {
            lemma_tiny(format, digits@, count as nat, places);
        }
        0
    }
}

/// The mantissa of a literal: its digits, how many there are, how many of them stand after the
/// point, and where it ends.
fn read_mantissa(body: &[char]) -> (result: (BigNat, usize, usize, usize))
    ensures
        result.0@ == digits_value(mantissa_digits(body@)),
        result.0@ < pow(10, result.1 as nat),
        result.1 == mantissa_digits(body@).len(),
        result.2 == fraction_digits(body@),
        result.2 <= result.1,
        result.3 == mantissa_end(body@),
        result.3 <= body@.len(),
{
    let ghost rest = body@;
    let whole: usize = find_run_end(body, 0);
    let point: bool = whole < body.len() && body[whole] == '.';
    let end: usize = if point {
        find_run_end(body, whole + 1)
    } else {
        whole
    };
    let fraction: usize = if point {
        end - whole - 1
    } else {
        0
    };
    let count: usize = whole + fraction;
    proof {
        lemma_run_end(rest, 0);
        if point {
            lemma_run_end(rest, whole + 1);
        }
    }
    let mut digits: BigNat = accumulate(BigNat::from_u64(0), body, 0, whole, Ghost(Seq::empty()));
    assert(Seq::<char>::empty() + rest.subrange(0, whole as int) =~= rest.subrange(
        0,
        whole as int,
    ));
    if point {
        digits = accumulate(digits, body, whole + 1, end, Ghost(rest.subrange(0, whole as int)));
    }
    proof {
        let all = mantissa_digits(rest);
        assert forall|i: int| 0 <= i < all.len() implies is_digit(#[trigger] all[i]) by {
            if i < whole {
                assert(all[i] == rest[i]);
            } else {
                assert(all[i] == rest[i + 1]);
            }
        }
        lemma_digits_bound(all);
    }
    (digits, count, fraction, end)
}

/// The power of ten that the exponent after `end` writes, held to the bound. `None` where what
/// follows `end` is no exponent.
fn read_power(body: &[char], end: usize) -> (result: Option<i128>)
    requires
        end < body@.len(),
        end == mantissa_end(body@),
        mantissa_digits(body@).len() > 0,
        !is_nan_word(body@),
        !is_infinity_word(body@),
    ensures
        match result {
            None => unsigned_literal(body@) is Invalid,
            Some(power) => -EXPONENT_BOUND <= power <= EXPONENT_BOUND && (unsigned_literal(
                body@,
            ) matches Literal::Number { digits, places } && digits == digits_value(
                mantissa_digits(body@),
            ) && (if power == EXPONENT_BOUND {
                places >= power - fraction_digits(body@)
            } else if power == -EXPONENT_BOUND {
                places <= power - fraction_digits(body@)
            } else {
                places == power - fraction_digits(body@)
            })),
        },
{
    if body[end] != 'e' && body[end] != 'E' {
        return None;
    }
    let signed: bool = end + 1 < body.len() && (body[end + 1] == '+' || body[end + 1] == '-');
    let first: usize = if signed {
        end + 2
    } else {
        end + 1
    };
    if first >= body.len() || find_run_end(body, first) != body.len() {
        return None;
    }
    proof {
        lemma_run_end(body@, first as int);
    }
    let power: i128 = read_exponent(body, first);
    if signed && body[end + 1] == '-' {
        Some(-power)
    } else {
        Some(power)
    }
}

/// The magnitude of a literal without its sign. `None` where it is no number.
fn read_unsigned(format: Format, body: &[char]) -> (result: Option<u64>)
    requires
        !is_nan_word(body@),
        !is_infinity_word(body@),
    ensures
        match result {
            None => unsigned_literal(body@) is Invalid,
            Some(magnitude) => unsigned_literal(body@) matches Literal::Number { digits, places }
                && magnitude == decimal_magnitude(format, digits, places),
        },
{
    let (digits, count, fraction, end): (BigNat, usize, usize, usize) = read_mantissa(body);
    if count == 0 {
        return None;
    }
    if end == body.len() {
        return Some(find_magnitude(format, &digits, count as u64, -(fraction as i128)));
    }
    match read_power(body, end) {
        None => None,
        Some(power) => {
            if power == EXPONENT_BOUND || power == -EXPONENT_BOUND {
                Some(
                    beyond_bound(
                        format,
                        &digits,
                        count as u64,
                        fraction as u64,
                        power > 0,
                        Ghost(body@),
                    ),
                )
            } else {
                Some(find_magnitude(format, &digits, count as u64, power - fraction as i128))
            }
        },
    }
}

/// What `text` reads as in `format`.
pub fn read_decimal(format: Format, text: &[char]) -> (result: Reading)
    ensures
        result == reading(format, text@),
{
    let signed: bool = text.len() > 0 && (text[0] == '+' || text[0] == '-');
    let start: usize = if signed {
        1
    } else {
        0
    };
    let body: &[char] = vstd::slice::slice_subrange(text, start, text.len());
    assert(body@ =~= unsigned_part(text@));
    let negative: bool = text.len() > 0 && text[0] == '-';
    if check_nan_word(body) {
        return Reading::NotANumber;
    }
    if check_infinity_word(body) {
        return Reading::Infinite { negative };
    }
    match read_unsigned(format, body) {
        None => Reading::Invalid,
        Some(magnitude) => {
            let infinity: u64 = match format {
                Format::Binary32 => 0x7f80_0000,
                Format::Binary64 => 0x7ff0_0000_0000_0000,
            };
            if magnitude >= infinity {
                Reading::Infinite { negative }
            } else {
                Reading::Finite { negative, magnitude }
            }
        },
    }
}

} // verus!
