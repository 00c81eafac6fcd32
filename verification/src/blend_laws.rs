//! What holds of every blend: an opaque source hides its destination, and two clear pixels give
//! a clear one.

use crate::arith::{
    law_adding_a_signed_zero_keeps_the_value, law_differences_of_equal_values_vanish,
    law_dividing_by_one_changes_nothing, law_multiplying_by_one_changes_nothing,
    law_products_commute, law_products_with_shares_do_not_grow, law_products_with_zero_vanish,
    lemma_zero_is_nearest,
};
use crate::blend::{
    channel_over, encoded, encoded_pixel, is_encoding_table, opacity_byte, over, reached, FULL_CHANNEL,
};
use crate::fb::{channels_of, is_linear_table, lemma_packed, linear_pixel, LinearPixel};
use crate::float::{lemma_powers, Float32, ONE};
use crate::rounding::{
    law_representable_values_are_kept, law_rounding_keeps_order, law_values_grow_with_their_bits,
    Format,
};
use vstd::arithmetic::div_mod::lemma_fundamental_div_mod_converse;
use vstd::arithmetic::power2::{lemma2_to64, lemma_pow2_adds, lemma_pow2_pos, pow2};
use vstd::prelude::*;

verus! {

/// The bits of the largest channel value stand for it exactly.
proof fn lemma_full_channel()
    ensures
        Format::Binary32.scaled_value(FULL_CHANNEL as nat) == 255 * pow2(149),
        Format::Binary32.nearest(255, 1) == FULL_CHANNEL,
{
    let format = Format::Binary32;
    let bits = FULL_CHANNEL as nat;
    lemma2_to64();
    assert(pow2(23) == 0x80_0000);
    assert(0x437f_0000nat / 0x80_0000nat == 134 && 0x437f_0000nat % 0x80_0000nat == 0x7f_0000);
    assert(format.exponent_field(bits) == 134);
    assert(format.significand(bits) == 0xff_0000);
    lemma_pow2_adds(16, 133);
    let unit = pow2(133);
    assert(0xff_0000 * unit == 255 * (0x1_0000 * unit)) by (nonlinear_arith);
    assert(pow2(16) == 0x1_0000);
    assert(format.scaled_value(bits) == 255 * pow2(149));
    law_representable_values_are_kept(format, 255, 1, bits);
}

/// The opacity of a byte is a share between none and all.
proof fn lemma_opacity(alpha: u8)
    ensures
        ({
            let share = Float32::of_integer(false, alpha as nat).quotient(255);
            &&& share.magnitude() <= ONE
            &&& !share.negative()
            &&& alpha == 255 ==> share == (Float32 { bits: ONE })
            &&& alpha == 0 ==> share == (Float32 { bits: 0 })
        }),
{
    let format = Format::Binary32;
    let unit = pow2(149);
    lemma_full_channel();
    lemma_powers();
    lemma_pow2_pos(149);
    let bits = format.nearest(alpha as nat, 1);
    assert(alpha * unit <= 1 * (255 * unit)) by (nonlinear_arith)
        requires
            alpha <= 255,
    ;
    law_rounding_keeps_order(format, alpha as nat, 1, FULL_CHANNEL as nat);
    law_values_grow_with_their_bits(format, bits, FULL_CHANNEL as nat);
    let scaled = format.scaled_value(bits);
    let whole = 255 * unit;
    assert(scaled * unit <= whole * unit) by (nonlinear_arith)
        requires
            scaled <= whole,
    ;
    law_rounding_keeps_order(format, scaled, whole, ONE as nat);
    assert(Float32::of_integer(false, alpha as nat).magnitude() == bits);
    if alpha == 255 {
        law_representable_values_are_kept(format, whole, whole, ONE as nat);
    }
    if alpha == 0 {
        lemma_zero_is_nearest(1);
        lemma_zero_is_nearest(whole);
    }
}

/// The bytes of full and of no opacity.
proof fn lemma_opacity_bytes()
    ensures
        opacity_byte(Float32 { bits: ONE }) == 255,
        opacity_byte(Float32 { bits: 0 }) == 0,
{
    let one = Float32 { bits: ONE };
    let zero = Float32 { bits: 0 };
    let full = Float32 { bits: FULL_CHANNEL };
    let unit = pow2(149) as int;
    lemma_pow2_pos(149);
    lemma_pow2_adds(1, 149);
    lemma2_to64();
    lemma_full_channel();
    assert(pow2(150) == 2 * unit);
    assert(one.clamped_to_unit() == one);
    assert(zero.clamped_to_unit() == zero);
    law_multiplying_by_one_changes_nothing(full);
    law_products_commute(one, full);
    assert(2 * (255 * unit) + unit == 255 * (2 * unit) + unit);
    lemma_fundamental_div_mod_converse(2 * (255 * unit) + unit, 2 * unit, 255, unit);
    law_products_with_zero_vanish(full, zero);
    law_products_commute(zero, full);
    lemma_zero_is_nearest(1);
    lemma_fundamental_div_mod_converse(unit, 2 * unit, 0, unit);
}

/// Values with the same place in the order are encoded alike.
proof fn lemma_same_place_is_encoded_alike(
    starts: Seq<Float32>,
    first: Float32,
    second: Float32,
    index: int,
)
    requires
        first.same_value(second),
    ensures
        reached(starts, first, index) == reached(starts, second, index),
    decreases starts.len() - index,
{
    if 0 <= index < starts.len() && starts[index].at_most(first) {
        lemma_same_place_is_encoded_alike(starts, first, second, index + 1);
    }
}

/// Under an opaque channel there is nothing left of what is below.
proof fn lemma_opaque_channel(below: Float32, below_alpha: Float32, above: Float32)
    requires
        below.finite(),
        below_alpha.magnitude() <= ONE,
        above.finite(),
    ensures
        channel_over(
            Float32 { bits: ONE },
            below,
            below_alpha,
            above,
            Float32 { bits: ONE },
        ).same_value(above),
{
    let one = Float32 { bits: ONE };
    let rest = one - one;
    law_differences_of_equal_values_vanish(one);
    law_products_with_shares_do_not_grow(below, below_alpha);
    law_products_with_zero_vanish(below * below_alpha, rest);
    law_multiplying_by_one_changes_nothing(above);
    law_adding_a_signed_zero_keeps_the_value(above, below * below_alpha * rest);
    let sum = above + below * below_alpha * rest;
    law_dividing_by_one_changes_nothing(sum);
}

/// What an opaque pixel gives over another one has the light of the opaque pixel.
proof fn lemma_opaque_pixel(below: LinearPixel, above: LinearPixel)
    requires
        below.red.finite(),
        below.green.finite(),
        below.blue.finite(),
        below.alpha.magnitude() <= ONE,
        above.red.finite(),
        above.green.finite(),
        above.blue.finite(),
        above.alpha == (Float32 { bits: ONE }),
    ensures
        over(below, above).alpha == above.alpha,
        over(below, above).red.same_value(above.red),
        over(below, above).green.same_value(above.green),
        over(below, above).blue.same_value(above.blue),
{
    let one = Float32 { bits: ONE };
    law_differences_of_equal_values_vanish(one);
    law_products_with_zero_vanish(below.alpha, one - one);
    law_adding_a_signed_zero_keeps_the_value(one, below.alpha * (one - one));
    lemma_opaque_channel(below.red, below.alpha, above.red);
    lemma_opaque_channel(below.green, below.alpha, above.green);
    lemma_opaque_channel(below.blue, below.alpha, above.blue);
}

/// An opaque source hides its destination: the blend is the source, decoded and encoded again,
/// whatever it is drawn over.
pub proof fn law_opaque_sources_hide_their_destination(
    table: Seq<Float32>,
    starts: Seq<Float32>,
    destination: u32,
    source: u32,
)
    requires
        is_linear_table(table),
        channels_of(source).0 == 255,
    ensures
        encoded_pixel(
            starts,
            over(linear_pixel(table, destination), linear_pixel(table, source)),
        ) == encoded_pixel(starts, linear_pixel(table, source)),
        channels_of(
            encoded_pixel(
                starts,
                over(linear_pixel(table, destination), linear_pixel(table, source)),
            ),
        ).0 == 255,
{
    let below = linear_pixel(table, destination);
    let above = linear_pixel(table, source);
    lemma_opacity(channels_of(destination).0);
    lemma_opacity(channels_of(source).0);
    lemma_opaque_pixel(below, above);
    lemma_opacity_bytes();
    let blended = over(below, above);
    lemma_same_place_is_encoded_alike(starts, blended.red, above.red, 0);
    lemma_same_place_is_encoded_alike(starts, blended.green, above.green, 0);
    lemma_same_place_is_encoded_alike(starts, blended.blue, above.blue, 0);
    lemma_packed(
        255,
        encoded(starts, above.red),
        encoded(starts, above.green),
        encoded(starts, above.blue),
    );
}

/// A clear source over a clear destination gives a clear pixel without light.
pub proof fn law_clear_pixels_give_nothing(
    table: Seq<Float32>,
    starts: Seq<Float32>,
    destination: u32,
    source: u32,
)
    requires
        is_encoding_table(starts),
        channels_of(destination).0 == 0,
        channels_of(source).0 == 0,
    ensures
        encoded_pixel(
            starts,
            over(linear_pixel(table, destination), linear_pixel(table, source)),
        ) == 0,
{
    let zero = Float32 { bits: 0 };
    let one = Float32 { bits: ONE };
    lemma_opacity(0);
    lemma_opacity_bytes();
    let below = linear_pixel(table, destination);
    let above = linear_pixel(table, source);
    let rest = one - zero;
    assert(rest == one) by {
        reveal(Float32::minus);
        law_adding_a_signed_zero_keeps_the_value(one, zero.opposite());
    }
    law_multiplying_by_one_changes_nothing(zero);
    law_adding_a_signed_zero_keeps_the_value(zero, zero);
    assert(over(below, above).alpha.magnitude() == 0);
    assert(zero + zero == zero) by {
        reveal(Float32::plus);
        lemma_zero_is_nearest(1);
    }
    assert(encoded(starts, zero) == 0);
}

} // verus!
