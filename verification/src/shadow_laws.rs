//! Where shadow maps are looked up: at the place that a point was drawn to.

use crate::arith::{law_products_commute, law_sums_commute};
use crate::cascade_state::CascadeShadowState;
use crate::csm::TENTH;
use crate::culling::greatest;
use crate::float::{Float32, HALF, ONE, TWO};
use crate::math::{Vec3, Vec4};
use crate::qem::THOUSANDTH;
use crate::reals::{
    close, law_opposites_divide_alike, law_products_keep_order, law_quotients_are_close,
    law_quotients_keep_order, law_small_constants, law_small_sums, law_sums_keep_order,
    law_values_go_into_themselves_once, law_values_keep_order, lemma_close_product,
    lemma_close_start, lemma_close_sum, lemma_grain, size,
};
use vstd::prelude::*;

verus! {

/// Where the light of a cascade projects a point.
pub open spec fn projected(state: CascadeShadowState, index: int, position: Vec3) -> Vec4 {
    state.light_view_projections@[index].applied(
        Vec4 { x: position.x, y: position.y, z: position.z, w: Float32 { bits: ONE } },
    )
}

/// Whether the light of a cascade sees a point: it lies before the light, at finite places.
pub open spec fn is_seen(clip: Vec4) -> bool {
    &&& clip.x.finite()
    &&& clip.y.finite()
    &&& clip.z.finite()
    &&& clip.w.finite()
    &&& clip.w.rank() > 0
}

/// A point that the light sees is looked up, and one that lies behind the light is not.
pub proof fn law_seen_points_are_looked_up(
    state: CascadeShadowState,
    index: int,
    position: Vec3,
    normal: Vec3,
    light_direction: Vec3,
)
    ensures
        is_seen(projected(state, index, position)) ==> state.sample_of(
            index,
            position,
            normal,
            light_direction,
        ) is Some,
        projected(state, index, position).w.rank() <= 0 && !projected(
            state,
            index,
            position,
        ).w.not_a_number() ==> state.sample_of(index, position, normal, light_direction) is None,
{
}

/// Points at the edges of the light's view are looked up at the edges of the map: at the upper edge
/// the second coordinate is nothing, at the lower edge one, at the left edge the first coordinate is
/// nothing, at the right edge one.
pub proof fn law_edges_are_looked_up_at_edges(
    state: CascadeShadowState,
    index: int,
    position: Vec3,
    normal: Vec3,
    light_direction: Vec3,
)
    requires
        is_seen(projected(state, index, position)),
    ensures
        state.sample_of(index, position, normal, light_direction) matches Some(sample) && {
            let clip = projected(state, index, position);
            let zero = Float32 { bits: 0 };
            let one = Float32 { bits: ONE };
            &&& clip.y == clip.w ==> sample.uv.y == zero
            &&& clip.y == clip.w.opposite() ==> sample.uv.y == one
            &&& clip.x == clip.w.opposite() ==> sample.uv.x == zero
            &&& clip.x == clip.w ==> sample.uv.x == one
            &&& clip.z == clip.w ==> sample.depth == one
            &&& clip.z == clip.w.opposite() ==> sample.depth == one.opposite()
        },
{
    let clip = projected(state, index, position);
    let one = Float32 { bits: ONE };
    law_values_go_into_themselves_once(clip.w);
    law_small_sums();
    assert(one.opposite().opposite() == one);
    assert(one - one.opposite() == one + one) by {
        reveal(Float32::minus);
    }
    assert(one.opposite() + one == one - one) by {
        reveal(Float32::minus);
        law_sums_commute(one.opposite(), one);
    }
}

/// Of two points at the same distance the one that the light sees higher is not looked up lower, the
/// one further to the right not further to the left, and the deeper one not less deep.
pub proof fn law_lookups_keep_order(
    state: CascadeShadowState,
    index: int,
    first: Vec3,
    second: Vec3,
    normal: Vec3,
    light_direction: Vec3,
)
    requires
        is_seen(projected(state, index, first)),
        is_seen(projected(state, index, second)),
        projected(state, index, first).w == projected(state, index, second).w,
        (projected(state, index, first).x / projected(state, index, first).w).finite(),
        (projected(state, index, second).x / projected(state, index, second).w).finite(),
        (projected(state, index, first).y / projected(state, index, first).w).finite(),
        (projected(state, index, second).y / projected(state, index, second).w).finite(),
        ({
            let one = Float32 { bits: ONE };
            &&& (one - projected(state, index, first).y / projected(
                state,
                index,
                first,
            ).w).finite()
            &&& (one - projected(state, index, second).y / projected(
                state,
                index,
                second,
            ).w).finite()
            &&& (projected(state, index, first).x / projected(state, index, first).w
                + one).finite()
            &&& (projected(state, index, second).x / projected(state, index, second).w
                + one).finite()
        }),
    ensures
        ({
            let a = projected(state, index, first);
            let b = projected(state, index, second);
            let p = state.sample_of(index, first, normal, light_direction)->0;
            let q = state.sample_of(index, second, normal, light_direction)->0;
            &&& a.y.at_most(b.y) ==> q.uv.y.at_most(p.uv.y)
            &&& a.x.at_most(b.x) ==> p.uv.x.at_most(q.uv.x)
            &&& a.z.at_most(b.z) ==> p.depth.at_most(q.depth)
        }),
{
    let a = projected(state, index, first);
    let b = projected(state, index, second);
    let one = Float32 { bits: ONE };
    let half = Float32 { bits: HALF };
    if a.y.at_most(b.y) {
        law_quotients_keep_order(a.y, b.y, a.w);
        let (m, n) = (a.y / a.w, b.y / b.w);
        law_sums_keep_order(n.opposite(), m.opposite(), one);
        law_sums_commute(n.opposite(), one);
        law_sums_commute(m.opposite(), one);
        assert(one - m == one + m.opposite() && one - n == one + n.opposite()) by {
            reveal(Float32::minus);
        }
        law_products_keep_order(one - n, one - m, half);
    }
    if a.x.at_most(b.x) {
        law_quotients_keep_order(a.x, b.x, a.w);
        law_sums_keep_order(a.x / a.w, b.x / b.w, one);
        law_products_keep_order(a.x / a.w + one, b.x / b.w + one, half);
    }
    if a.z.at_most(b.z) {
        law_quotients_keep_order(a.z, b.z, a.w);
    }
}

/// What is seen as far up as another point is seen to the left is looked up at a second coordinate
/// that equals the other's first one.
pub proof fn law_lookups_treat_both_axes_alike(
    state: CascadeShadowState,
    index: int,
    first: Vec3,
    second: Vec3,
    normal: Vec3,
    light_direction: Vec3,
)
    requires
        is_seen(projected(state, index, first)),
        is_seen(projected(state, index, second)),
        projected(state, index, first).w == projected(state, index, second).w,
        projected(state, index, first).y == projected(state, index, second).x.opposite(),
    ensures
        state.sample_of(index, first, normal, light_direction)->0.uv.y == state.sample_of(
            index,
            second,
            normal,
            light_direction,
        )->0.uv.x,
{
    let a = projected(state, index, first);
    let b = projected(state, index, second);
    let one = Float32 { bits: ONE };
    law_opposites_divide_alike(b.x, b.w);
    let q = b.x / b.w;
    assert(q.opposite().opposite() == q);
    assert(one - q.opposite() == one + q) by {
        reveal(Float32::minus);
    }
    law_sums_commute(one, q);
}

/// A quotient of a value that is no larger than the divisor.
proof fn lemma_close_quotient(value: Float32, divisor: Float32)
    requires
        value.finite(),
        divisor.finite(),
        divisor.rank() > 0,
        size(value.value()) <= divisor.value(),
    ensures
        divisor.value() > 0real,
        close(value / divisor, value.value() / divisor.value(), 1real, 2),
{
    let zero = Float32 { bits: 0 };
    law_small_constants();
    law_values_keep_order(zero, divisor);
    let (a, d) = (value.value(), divisor.value());
    let q = a / d;
    assert(size(q) <= 1real) by {
        assert(-1real <= q && q <= 1real) by (nonlinear_arith)
            requires
                d > 0real,
                -d <= a,
                a <= d,
                q == a / d,
        ;
    }
    law_quotients_are_close(value, divisor);
    lemma_grain();
    assert((2int as real) * 1real == 2real) by (nonlinear_arith);
}

/// The place at which a point inside the light's view is looked up: as far from the left edge as the
/// point is seen from there, and as far from the upper edge, up to rounding.
pub proof fn law_lookups_are_where_points_are_seen(
    state: CascadeShadowState,
    index: int,
    position: Vec3,
    normal: Vec3,
    light_direction: Vec3,
)
    requires
        is_seen(projected(state, index, position)),
        size(projected(state, index, position).x.value()) <= projected(
            state,
            index,
            position,
        ).w.value(),
        size(projected(state, index, position).y.value()) <= projected(
            state,
            index,
            position,
        ).w.value(),
    ensures
        state.sample_of(index, position, normal, light_direction) matches Some(sample) && {
            let clip = projected(state, index, position);
            let right = clip.x.value() / clip.w.value();
            let up = clip.y.value() / clip.w.value();
            &&& close(sample.uv.x, (right + 1real) * (1real / 2real), 2real, 6)
            &&& close(sample.uv.y, (1real - up) * (1real / 2real), 2real, 6)
        },
{
    let clip = projected(state, index, position);
    let one = Float32 { bits: ONE };
    let half = Float32 { bits: HALF };
    law_small_constants();
    lemma_close_quotient(clip.x, clip.w);
    lemma_close_quotient(clip.y, clip.w);
    lemma_close_start(one, 1real);
    lemma_close_start(half, 1real);
    let right = clip.x.value() / clip.w.value();
    let up = clip.y.value() / clip.w.value();
    lemma_close_sum(clip.x / clip.w, right, 1real, 2, one, 1real, 1real, 0, 2);
    assert(2real * 1real == 2real) by (nonlinear_arith);
    assert(1real + 1real == 2real);
    lemma_close_product(
        clip.x / clip.w + one,
        right + 1real,
        2real,
        4,
        half,
        1real / 2real,
        1real,
        0,
    );
    crate::reals::lemma_close_opposite(clip.y / clip.w, up, 1real, 2);
    let down = (clip.y / clip.w).opposite();
    lemma_close_sum(one, 1real, 1real, 0, down, -up, 1real, 2, 2);
    assert(one - clip.y / clip.w == one + down) by {
        reveal(Float32::minus);
    }
    assert(1real + (-up) == 1real - up);
    lemma_close_product(
        one - clip.y / clip.w,
        1real - up,
        2real,
        4,
        half,
        1real / 2real,
        1real,
        0,
    );
}

/// How squarely a light falls on a surface, from nothing to one.
pub open spec fn facing_of(normal: Vec3, light_direction: Vec3) -> Float32 {
    normal.unit().dot_product(light_direction.unit()).clamped_to_unit()
}

/// How far, in texels, a lookup is moved for a surface that a light falls on so squarely.
pub open spec fn texels_moved(state: CascadeShadowState, facing: Float32) -> Float32 {
    state.constant_bias + state.slope_bias * ((Float32 { bits: ONE }) - facing)
}

/// The parts of a finite sum and of a finite product are finite.
proof fn lemma_finite_parts(first: Float32, second: Float32)
    ensures
        (first + second).finite() ==> first.finite() && second.finite(),
        (first * second).finite() ==> first.finite() && second.finite(),
{
    reveal(Float32::plus);
    reveal(Float32::times);
}

/// A surface that the light grazes is moved at least as far as one that it falls on squarely.
proof fn lemma_grazing(state: CascadeShadowState, grazing: Float32, square: Float32)
    requires
        grazing.at_most(square),
        grazing.finite() && square.finite(),
        texels_moved(state, grazing).finite(),
        texels_moved(state, square).finite(),
        !state.slope_bias.negative(),
    ensures
        texels_moved(state, square).at_most(texels_moved(state, grazing)),
{
    let one = Float32 { bits: ONE };
    let (a, b) = (one - square, one - grazing);
    reveal(Float32::minus);
    lemma_finite_parts(state.constant_bias, state.slope_bias * a);
    lemma_finite_parts(state.constant_bias, state.slope_bias * b);
    lemma_finite_parts(state.slope_bias, a);
    lemma_finite_parts(state.slope_bias, b);
    assert(square.opposite().at_most(grazing.opposite()));
    law_sums_keep_order(square.opposite(), grazing.opposite(), one);
    crate::arith::law_sums_commute(square.opposite(), one);
    crate::arith::law_sums_commute(grazing.opposite(), one);
    assert(a.at_most(b));
    law_products_keep_order(a, b, state.slope_bias);
    crate::arith::law_products_commute(a, state.slope_bias);
    crate::arith::law_products_commute(b, state.slope_bias);
    law_sums_keep_order(state.slope_bias * a, state.slope_bias * b, state.constant_bias);
    crate::arith::law_sums_commute(state.slope_bias * a, state.constant_bias);
    crate::arith::law_sums_commute(state.slope_bias * b, state.constant_bias);
}

/// The bias of a lookup lies between nothing and a tenth, and the less squarely the light falls on
/// a surface, the greater it is.
pub proof fn law_grazing_light_has_more_bias(
    state: CascadeShadowState,
    index: int,
    normal: Vec3,
    other_normal: Vec3,
    light_direction: Vec3,
)
    requires
        state.valid(),
        0 <= index < state.split_depths@.len(),
        facing_of(normal, light_direction).at_most(facing_of(other_normal, light_direction)),
        facing_of(normal, light_direction).finite(),
        facing_of(other_normal, light_direction).finite(),
        !state.slope_bias.negative(),
        !state.world_texels@[index].negative(),
        state.depth_ranges@[index].finite(),
        (state.world_texels@[index] * texels_moved(state, facing_of(normal, light_direction)) * (
        Float32 { bits: TWO })).finite(),
        (state.world_texels@[index] * texels_moved(state, facing_of(other_normal, light_direction))
            * (Float32 { bits: TWO })).finite(),
    ensures
        state.bias_for(index, other_normal, light_direction).at_most(
            state.bias_for(index, normal, light_direction),
        ),
        (Float32 { bits: 0 }).at_most(state.bias_for(index, normal, light_direction)),
        state.bias_for(index, normal, light_direction).at_most(Float32 { bits: TENTH }),
{
    let two = Float32 { bits: TWO };
    let texel = state.world_texels@[index];
    let (f, g) = (
        facing_of(other_normal, light_direction),
        facing_of(normal, light_direction),
    );
    let (a, b) = (texels_moved(state, f), texels_moved(state, g));
    lemma_finite_parts(texel * a, two);
    lemma_finite_parts(texel * b, two);
    lemma_finite_parts(texel, a);
    lemma_finite_parts(texel, b);
    lemma_grazing(state, g, f);
    law_products_keep_order(a, b, texel);
    crate::arith::law_products_commute(a, texel);
    crate::arith::law_products_commute(b, texel);
    law_products_keep_order(texel * a, texel * b, two);
    let range = greatest(state.depth_ranges@[index], Float32 { bits: THOUSANDTH });
    law_quotients_keep_order(texel * a * two, texel * b * two, range);
}

} // verus!
