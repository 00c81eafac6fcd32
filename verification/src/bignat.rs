//! Natural numbers of any size, with the few operations that exact rounding needs.

use vstd::arithmetic::power2::{lemma2_to64, lemma_pow2_adds, pow2};
use vstd::prelude::*;

verus! {

/// One more than the largest limb.
pub const BASE: u64 = 0x1_0000_0000;

/// `BASE` to the power `n`.
pub open spec fn base_power(n: nat) -> nat
    decreases n,
{
    if n == 0 {
        1
    } else {
        (BASE * base_power((n - 1) as nat)) as nat
    }
}

/// Limb `i` of a number, zero above its highest limb.
pub open spec fn limb_at(limbs: Seq<u32>, i: nat) -> nat {
    if i < limbs.len() {
        limbs[i as int] as nat
    } else {
        0
    }
}

/// The number made of the `n` lowest limbs.
pub open spec fn low_value(limbs: Seq<u32>, n: nat) -> nat
    decreases n,
{
    if n == 0 {
        0
    } else {
        low_value(limbs, (n - 1) as nat) + limb_at(limbs, (n - 1) as nat) * base_power(
            (n - 1) as nat,
        )
    }
}

/// How two numbers compare.
#[derive(Clone, Copy, PartialEq, Eq, Structural, Debug)]
pub enum Comparison {
    Less,
    Equal,
    Greater,
}

/// A natural number, least significant limb first.
pub struct BigNat {
    limbs: Vec<u32>,
}

impl View for BigNat {
    type V = nat;

    closed spec fn view(&self) -> nat {
        low_value(self.limbs@, self.limbs@.len())
    }
}


/// The low limbs of a number are those of any longer number that starts with it.
proof fn lemma_low_value_prefix(short: Seq<u32>, long: Seq<u32>, n: nat)
    requires
        n <= short.len(),
        short.len() <= long.len(),
        forall|i: int| 0 <= i < n ==> short[i] == long[i],
    ensures
        low_value(short, n) == low_value(long, n),
    decreases n,
{
    if n > 0 {
        lemma_low_value_prefix(short, long, (n - 1) as nat);
    }
}

/// Limbs above the highest one add nothing.
proof fn lemma_low_value_beyond(limbs: Seq<u32>, n: nat)
    requires
        n >= limbs.len(),
    ensures
        low_value(limbs, n) == low_value(limbs, limbs.len()),
    decreases n,
{
    if n > limbs.len() {
        lemma_low_value_beyond(limbs, (n - 1) as nat);
        assert(limb_at(limbs, (n - 1) as nat) == 0);
        assert(0 * base_power((n - 1) as nat) == 0);
    }
}

proof fn lemma_low_value_bound(limbs: Seq<u32>, n: nat)
    ensures
        low_value(limbs, n) < base_power(n),
    decreases n,
{
    if n > 0 {
        lemma_low_value_bound(limbs, (n - 1) as nat);
        let below = low_value(limbs, (n - 1) as nat);
        let limb = limb_at(limbs, (n - 1) as nat);
        let power = base_power((n - 1) as nat);
        assert(below + limb * power < BASE * power) by (nonlinear_arith)
            requires
                below < power,
                limb < BASE,
                BASE == 0x1_0000_0000,
        ;
    }
}

/// Pushing a limb adds it at the next power.
proof fn lemma_low_value_push(limbs: Seq<u32>, limb: u32)
    ensures
        low_value(limbs.push(limb), limbs.len() + 1) == low_value(limbs, limbs.len()) + limb
            * base_power(limbs.len()),
{
    lemma_low_value_prefix(limbs, limbs.push(limb), limbs.len());
}

impl BigNat {
    /// The number `value`.
    pub fn from_u64(value: u64) -> (result: BigNat)
        ensures
            result@ == value,
    {
        let low: u32 = (value % 0x1_0000_0000) as u32;
        let high: u32 = (value / 0x1_0000_0000) as u32;
        let mut limbs: Vec<u32> = Vec::new();
        limbs.push(low);
        limbs.push(high);
        proof {
            reveal_with_fuel(low_value, 3);
            reveal_with_fuel(base_power, 3);
            assert(base_power(0) == 1 && base_power(1) == BASE);
            assert(low_value(limbs@, 1) == low * base_power(0));
            assert(low_value(limbs@, 2) == low + high * base_power(1));
            assert(high * base_power(1) == high * 0x1_0000_0000);
        }
        BigNat { limbs }
    }

    /// The number times `factor`, plus `addend`.
    pub fn mul_add(&self, factor: u64, addend: u64) -> (result: BigNat)
        ensures
            result@ == self@ * factor + addend,
    {
        let mut limbs: Vec<u32> = Vec::new();
        let mut carry: u64 = addend;
        let mut i: usize = 0;
        assert(carry * base_power(0) == carry && 0 * factor == 0) by (nonlinear_arith)
            requires
                base_power(0) == 1,
        ;
        while i < self.limbs.len()
            invariant
                i <= self.limbs@.len(),
                limbs@.len() == i,
                low_value(limbs@, i as nat) + carry * base_power(i as nat) == low_value(
                    self.limbs@,
                    i as nat,
                ) * factor + addend,
            decreases self.limbs@.len() - i,
        {
            let limb: u32 = self.limbs[i];
            assert(limb as u128 * factor as u128 + carry as u128 <= 0xffff_ffffu128
                * 0xffff_ffff_ffff_ffffu128 + 0xffff_ffff_ffff_ffffu128) by (nonlinear_arith)
                requires
                    limb <= 0xffff_ffffu32,
                    factor <= 0xffff_ffff_ffff_ffffu64,
                    carry <= 0xffff_ffff_ffff_ffffu64,
            ;
            assert(limb as u128 * factor as u128 <= 0xffff_ffffu128 * 0xffff_ffff_ffff_ffffu128)
                by (nonlinear_arith)
                requires
                    limb <= 0xffff_ffffu32,
                    factor <= 0xffff_ffff_ffff_ffffu64,
            ;
            let total: u128 = limb as u128 * factor as u128 + carry as u128;
            let low: u32 = (total % 0x1_0000_0000) as u32;
            let next: u64 = (total / 0x1_0000_0000) as u64;
            proof {
                lemma_low_value_push(limbs@, low);
                let power = base_power(i as nat);
                let done = low_value(limbs@, i as nat);
                let source = low_value(self.limbs@, i as nat);
                assert(low + next * BASE == limb * factor + carry);
                assert(done + low * power + next * (BASE * power) == (source + limb * power)
                    * factor + addend) by (nonlinear_arith)
                    requires
                        done + carry * power == source * factor + addend,
                        low + next * BASE == limb * factor + carry,
                ;
            }
            limbs.push(low);
            carry = next;
            i += 1;
        }
        let low: u32 = (carry % 0x1_0000_0000) as u32;
        let high: u32 = (carry / 0x1_0000_0000) as u32;
        proof {
            let power = base_power(limbs@.len());
            lemma_low_value_push(limbs@, low);
            lemma_low_value_push(limbs@.push(low), high);
            assert(low * power + high * (BASE * power) == carry * power) by (nonlinear_arith)
                requires
                    low + high * BASE == carry,
            ;
        }
        limbs.push(low);
        limbs.push(high);
        BigNat { limbs }
    }

    /// The number times two to the power `exponent`.
    pub fn mul_pow2(&self, exponent: u64) -> (result: BigNat)
        ensures
            result@ == self@ * pow2(exponent as nat),
    {
        let mut result: BigNat = self.mul_add(1, 0);
        let mut left: u64 = exponent;
        proof {
            lemma2_to64();
        }
        while left >= 32
            invariant
                left <= exponent,
                result@ * pow2(left as nat) == self@ * pow2(exponent as nat),
            decreases left,
        {
            proof {
                lemma2_to64();
                lemma_pow2_adds(32, (left - 32) as nat);
                let before = result@;
                let rest = pow2((left - 32) as nat);
                assert((before * 0x1_0000_0000) * rest == before * (0x1_0000_0000 * rest))
                    by (nonlinear_arith);
            }
            result = result.mul_add(0x1_0000_0000, 0);
            left -= 32;
        }
        while left > 0
            invariant
                left <= exponent,
                result@ * pow2(left as nat) == self@ * pow2(exponent as nat),
            decreases left,
        {
            proof {
                lemma2_to64();
                lemma_pow2_adds(1, (left - 1) as nat);
                let before = result@;
                let rest = pow2((left - 1) as nat);
                assert((before * 2) * rest == before * (2 * rest)) by (nonlinear_arith);
            }
            result = result.mul_add(2, 0);
            left -= 1;
        }
        proof {
            lemma2_to64();
            assert(result@ * pow2(0) == result@) by (nonlinear_arith)
                requires
                    pow2(0) == 1,
            ;
        }
        result
    }

    /// How the number compares with `other`.
    pub fn compare_with(&self, other: &BigNat) -> (result: Comparison)
        ensures
            result == (if self@ < other@ {
                Comparison::Less
            } else if self@ > other@ {
                Comparison::Greater
            } else {
                Comparison::Equal
            }),
    {
        let mut i: usize = if self.limbs.len() > other.limbs.len() {
            self.limbs.len()
        } else {
            other.limbs.len()
        };
        proof {
            lemma_low_value_beyond(self.limbs@, i as nat);
            lemma_low_value_beyond(other.limbs@, i as nat);
        }
        while i > 0
            invariant
                self@ - low_value(self.limbs@, i as nat) == other@ - low_value(
                    other.limbs@,
                    i as nat,
                ),
            decreases i,
        {
            i -= 1;
            let left: u32 = if i < self.limbs.len() {
                self.limbs[i]
            } else {
                0
            };
            let right: u32 = if i < other.limbs.len() {
                other.limbs[i]
            } else {
                0
            };
            let ghost power = base_power(i as nat);
            let ghost a = low_value(self.limbs@, i as nat);
            let ghost b = low_value(other.limbs@, i as nat);
            proof {
                lemma_low_value_bound(self.limbs@, i as nat);
                lemma_low_value_bound(other.limbs@, i as nat);
                assert(left == limb_at(self.limbs@, i as nat));
                assert(right == limb_at(other.limbs@, i as nat));
            }
            if left < right {
                assert(a + left * power < b + right * power) by (nonlinear_arith)
                    requires
                        a < power,
                        left < right,
                        b >= 0,
                ;
                return Comparison::Less;
            }
            if left > right {
                assert(b + right * power < a + left * power) by (nonlinear_arith)
                    requires
                        b < power,
                        right < left,
                        a >= 0,
                ;
                return Comparison::Greater;
            }
        }
        Comparison::Equal
    }

    /// The number minus a number that is not larger.
    pub fn minus(&self, other: &BigNat) -> (result: BigNat)
        requires
            other@ <= self@,
        ensures
            result@ == self@ - other@,
    {
        let length: usize = if self.limbs.len() > other.limbs.len() {
            self.limbs.len()
        } else {
            other.limbs.len()
        };
        let mut limbs: Vec<u32> = Vec::new();
        let mut borrow: u64 = 0;
        let mut i: usize = 0;
        while i < length
            invariant
                i <= length,
                limbs@.len() == i,
                borrow <= 1,
                low_value(limbs@, i as nat) + low_value(other.limbs@, i as nat) == low_value(
                    self.limbs@,
                    i as nat,
                ) + borrow * base_power(i as nat),
            decreases length - i,
        {
            let left: u64 = if i < self.limbs.len() {
                self.limbs[i] as u64
            } else {
                0
            };
            let right: u64 = (if i < other.limbs.len() {
                other.limbs[i] as u64
            } else {
                0
            }) + borrow;
            let (low, next): (u32, u64) = if left >= right {
                ((left - right) as u32, 0)
            } else {
                ((0x1_0000_0000 + left - right) as u32, 1)
            };
            proof {
                lemma_low_value_push(limbs@, low);
                let power = base_power(i as nat);
                let done = low_value(limbs@, i as nat);
                let a = low_value(self.limbs@, i as nat);
                let b = low_value(other.limbs@, i as nat);
                let limb = (right - borrow) as nat;
                assert(limb == limb_at(other.limbs@, i as nat));
                assert(left == limb_at(self.limbs@, i as nat));
                assert(done + low * power + (b + limb * power) == (a + left * power) + next * (BASE
                    * power)) by (nonlinear_arith)
                    requires
                        done + b == a + borrow * power,
                        low + limb + borrow == left + next * BASE,
                ;
            }
            limbs.push(low);
            borrow = next;
            i += 1;
        }
        proof {
            lemma_low_value_beyond(self.limbs@, length as nat);
            lemma_low_value_beyond(other.limbs@, length as nat);
            lemma_low_value_bound(limbs@, length as nat);
            let power = base_power(length as nat);
            assert(borrow == 0 || borrow * power >= power) by (nonlinear_arith)
                requires
                    power >= 0,
                    borrow >= 0,
            ;
            assert(0 * power == 0);
        }
        BigNat { limbs }
    }
}

} // verus!
