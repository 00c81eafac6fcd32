//! How the maps of image-based lighting are made from a surrounding light.
//!
//! Every sample follows from its index: nothing is random. The sines and cosines of the angles
//! that samples are turned by come from outside, one pair for each sample.

use crate::culling::{greatest, maximum};
use crate::derived::nothing;
use crate::float::{Float32, HALF, ONE, TWO};
use crate::ibl::{
    cube_face, direction_through, face_at, face_direction, radical_inverse_vdc, reversed_digits,
    CubeFace, EnvironmentBrdfLut, FloatCube, IblSettings, PrefilteredEnvironment, LAST_DIGIT,
};
use crate::math::{Vec2, Vec3};
use crate::qem::THOUSANDTH;
use vstd::prelude::*;

verus! {

/// The bits of a millionth.
pub const MILLIONTH: u32 = 0x3586_37bd;

/// The bits of nine hundred and ninety-nine thousandths.
pub const ALMOST_ALONG: u32 = 0x3f7f_be77;

/// The bits of a full turn, in radians.
pub const FULL_TURN: u32 = 0x40c9_0fdb;

/// The cosine and the sine of an angle.
#[derive(Clone, Copy, Debug, PartialEq)]
pub struct Angle {
    pub cosine: Float32,
    pub sine: Float32,
}

/// A point of the sequence that samples are taken by.
pub open spec fn sequence_point(index: int, count: nat) -> Vec2 {
    Vec2 {
        x: (Float32::of_integer(false, index as nat) + (Float32 { bits: HALF }))
            / Float32::of_integer(false, count),
        y: Float32::of_integer(false, reversed_digits((index % 0x1_0000_0000) as nat, 32)) * (
        Float32 { bits: LAST_DIGIT }),
    }
}

/// A point of the sequence that samples are taken by. Both coordinates lie between zero and one,
/// and the points are spread evenly.
pub fn hammersley(index: usize, count: usize) -> (result: Vec2)
    ensures
        result == sequence_point(index as int, count as nat),
{
    let short: u32 = (index as u64 % 0x1_0000_0000) as u32;
    Vec2 {
        x: (Float32::from_integer(false, index as u64) + Float32 { bits: HALF })
            / Float32::from_integer(false, count as u64),
        y: radical_inverse_vdc(short),
    }
}

/// The angle that a sample of the irradiance is turned by: as much of a full turn as the second
/// coordinate of its point says.
pub fn lambert_turn(index: usize, count: usize) -> (result: Float32)
    ensures
        result == (Float32 { bits: FULL_TURN }) * sequence_point(index as int, count as nat).y,
{
    Float32 { bits: FULL_TURN } * hammersley(index, count).y
}

/// The angle that a sample of a gloss or of the reflection is turned by: as much of a full turn as
/// the first coordinate of its point says.
pub fn gloss_turn(index: usize, count: usize) -> (result: Float32)
    ensures
        result == (Float32 { bits: FULL_TURN }) * sequence_point(index as int, count as nat).x,
{
    Float32 { bits: FULL_TURN } * hammersley(index, count).x
}

/// Two directions across a normal.
pub open spec fn across(normal: Vec3) -> (Vec3, Vec3) {
    let zero = Float32 { bits: 0 };
    let one = Float32 { bits: ONE };
    let up = if normal.z.absolute().less(Float32 { bits: ALMOST_ALONG }) {
        Vec3 { x: zero, y: zero, z: one }
    } else {
        Vec3 { x: zero, y: one, z: zero }
    };
    let tangent = up.cross_product(normal).unit();
    (tangent, normal.cross_product(tangent).unit())
}

/// Two directions across a normal.
pub fn basis(normal: Vec3) -> (result: (Vec3, Vec3))
    ensures
        result == across(normal),
{
    let zero: Float32 = Float32 { bits: 0 };
    let one: Float32 = Float32 { bits: ONE };
    let up: Vec3 = if normal.z.abs().is_less(Float32 { bits: ALMOST_ALONG }) {
        Vec3 { x: zero, y: zero, z: one }
    } else {
        Vec3 { x: zero, y: one, z: zero }
    };
    let tangent: Vec3 = up.cross(normal).normalize();
    (tangent, normal.cross(tangent).normalize())
}

/// A coordinate on a face, from minus one to one, of the center of a pixel.
pub open spec fn face_coordinate(index: int, size: nat) -> Float32 {
    ((Float32::of_integer(false, index as nat) + (Float32 { bits: HALF })) / Float32::of_integer(
        false,
        size,
    )) * (Float32 { bits: TWO }) - (Float32 { bits: ONE })
}

fn find_face_coordinate(index: usize, size: usize) -> (result: Float32)
    ensures
        result == face_coordinate(index as int, size as nat),
{
    ((Float32::from_integer(false, index as u64) + Float32 { bits: HALF }) / Float32::from_integer(
        false,
        size as u64,
    )) * Float32 { bits: TWO } - Float32 { bits: ONE }
}

/// The direction through the center of a pixel.
pub open spec fn texel_direction(face: CubeFace, x: int, y: int, size: nat) -> Vec3 {
    direction_through(face, face_coordinate(x, size), face_coordinate(y, size)).unit()
}

/// The direction through the center of a pixel.
pub fn direction_for_texel(face: CubeFace, x: usize, y: usize, size: usize) -> (result: Vec3)
    ensures
        result == texel_direction(face, x as int, y as int, size as nat),
{
    face_direction(
        face,
        find_face_coordinate(x, size),
        find_face_coordinate(y, size),
    ).normalize()
}

/// A roughness as it enters the distribution of the facets of a surface: its square, which is
/// never nothing.
pub open spec fn facet_spread(roughness: Float32) -> Float32 {
    let least_rough = greatest(roughness.clamped_to_unit(), Float32 { bits: THOUSANDTH });
    least_rough * least_rough
}

/// A direction halfway between view and light: facets of a rough surface that face this way are
/// as many as the share of samples that fall there.
pub open spec fn facet_direction(
    share: Float32,
    angle: Angle,
    roughness: Float32,
    normal: Vec3,
    tangent: Vec3,
    bitangent: Vec3,
) -> Vec3 {
    let one = Float32 { bits: ONE };
    let spread = facet_spread(roughness);
    let cosine = ((one - share) / (one + (spread * spread - one) * share)).root();
    let sine = greatest(one - cosine * cosine, Float32 { bits: 0 }).root();
    (tangent * (sine * angle.cosine) + bitangent * (sine * angle.sine) + normal * cosine).unit()
}

/// A direction halfway between view and light, for a point of the sequence whose second
/// coordinate is `share` and whose first turns by `angle`.
pub fn importance_sample_ggx(
    share: Float32,
    angle: Angle,
    roughness: Float32,
    normal: Vec3,
    tangent: Vec3,
    bitangent: Vec3,
) -> (result: Vec3)
    ensures
        result == facet_direction(share, angle, roughness, normal, tangent, bitangent),
{
    let one: Float32 = Float32 { bits: ONE };
    let rough: Float32 = maximum(roughness.clamp_to_unit(), Float32 { bits: THOUSANDTH });
    let spread: Float32 = rough * rough;
    let cosine: Float32 = ((one - share) / (one + (spread * spread - one) * share)).sqrt();
    let sine: Float32 = maximum(one - cosine * cosine, Float32 { bits: 0 }).sqrt();
    (tangent * (sine * angle.cosine) + bitangent * (sine * angle.sine) + normal * cosine).normalize()
}

/// The direction that a view is mirrored to.
pub open spec fn mirrored(view: Vec3, half_vector: Vec3) -> Vec3 {
    (half_vector * ((Float32 { bits: TWO }) * view.dot_product(half_vector)) - view).unit()
}

fn mirror(view: Vec3, half_vector: Vec3) -> (result: Vec3)
    ensures
        result == mirrored(view, half_vector),
{
    (half_vector * (Float32 { bits: TWO } * view.dot(half_vector)) - view).normalize()
}

/// How much of the light between two facets is not blocked, in one direction.
pub open spec fn open_share(n_dot: Float32, k: Float32) -> Float32 {
    n_dot / greatest(
        n_dot * ((Float32 { bits: ONE }) - k) + k,
        Float32 { bits: MILLIONTH },
    )
}

/// How much of the light between two facets is not blocked.
pub open spec fn unblocked(n_dot_l: Float32, n_dot_v: Float32, roughness: Float32) -> Float32 {
    let rough = roughness.clamped_to_unit();
    let k = rough * rough * (Float32 { bits: HALF });
    open_share(n_dot_l, k) * open_share(n_dot_v, k)
}

fn find_open_share(n_dot: Float32, k: Float32) -> (result: Float32)
    ensures
        result == open_share(n_dot, k),
{
    n_dot / maximum(n_dot * (Float32 { bits: ONE } - k) + k, Float32 { bits: MILLIONTH })
}

/// How much of the light between two facets is not blocked.
pub fn smith_visibility(n_dot_l: Float32, n_dot_v: Float32, roughness: Float32) -> (result: Float32)
    ensures
        result == unblocked(n_dot_l, n_dot_v, roughness),
{
    let rough: Float32 = roughness.clamp_to_unit();
    let k: Float32 = rough * rough * Float32 { bits: HALF };
    find_open_share(n_dot_l, k) * find_open_share(n_dot_v, k)
}

/// The fifth power.
pub open spec fn fifth(value: Float32) -> Float32 {
    let square = value * value;
    value * (square * square)
}

/// What one sample adds to the reflection of a surface: a share that the color at normal view
/// scales, and a share that it does not.
pub open spec fn reflection_of(
    index: int,
    angles: Seq<Angle>,
    n_dot_v: Float32,
    roughness: Float32,
) -> Vec2 {
    let zero = Float32 { bits: 0 };
    let one = Float32 { bits: ONE };
    let view = Vec3 { x: (one - n_dot_v * n_dot_v).root(), y: zero, z: n_dot_v };
    let half_vector = facet_direction(
        sequence_point(index, angles.len()).y,
        angles[index],
        roughness,
        Vec3 { x: zero, y: zero, z: one },
        Vec3 { x: one, y: zero, z: zero },
        Vec3 { x: zero, y: one, z: zero },
    );
    let n_dot_l = greatest(mirrored(view, half_vector).z, zero);
    let n_dot_h = greatest(half_vector.z, zero);
    let v_dot_h = greatest(view.dot_product(half_vector), zero);
    let visible = unblocked(n_dot_l, n_dot_v, roughness) * v_dot_h / greatest(
        n_dot_h * n_dot_v,
        Float32 { bits: MILLIONTH },
    );
    let grazing = fifth(one - v_dot_h);
    Vec2 { x: (one - grazing) * visible, y: grazing * visible }
}

/// Whether a sample adds to the reflection: where light, facet and view lie above the surface.
pub open spec fn reflects(
    index: int,
    angles: Seq<Angle>,
    n_dot_v: Float32,
    roughness: Float32,
) -> bool {
    let zero = Float32 { bits: 0 };
    let one = Float32 { bits: ONE };
    let view = Vec3 { x: (one - n_dot_v * n_dot_v).root(), y: zero, z: n_dot_v };
    let half_vector = facet_direction(
        sequence_point(index, angles.len()).y,
        angles[index],
        roughness,
        Vec3 { x: zero, y: zero, z: one },
        Vec3 { x: one, y: zero, z: zero },
        Vec3 { x: zero, y: one, z: zero },
    );
    zero.less(greatest(mirrored(view, half_vector).z, zero)) && zero.less(
        greatest(half_vector.z, zero),
    ) && zero.less(n_dot_v)
}

/// What the first samples add to the reflection.
pub open spec fn reflection_sum(
    angles: Seq<Angle>,
    n_dot_v: Float32,
    roughness: Float32,
    count: int,
) -> Vec2
    decreases count,
{
    if count <= 0 {
        Vec2 { x: Float32 { bits: 0 }, y: Float32 { bits: 0 } }
    } else {
        let before = reflection_sum(angles, n_dot_v, roughness, count - 1);
        if reflects(count - 1, angles, n_dot_v, roughness) {
            before + reflection_of(count - 1, angles, n_dot_v, roughness)
        } else {
            before
        }
    }
}

/// The reflection of a surface at an angle of view and a roughness.
pub open spec fn reflection(angles: Seq<Angle>, n_dot_v: Float32, roughness: Float32) -> Vec2 {
    reflection_sum(angles, n_dot_v.clamped_to_unit(), roughness, angles.len() as int)
        / Float32::of_integer(false, angles.len())
}

/// The reflection of a surface at an angle of view and a roughness. Each sample is turned by the
/// angle that belongs to the first coordinate of its point.
pub fn integrate_brdf(n_dot_v: Float32, roughness: Float32, angles: &[Angle]) -> (result: Vec2)
    ensures
        result == reflection(angles@, n_dot_v, roughness),
{
    let zero: Float32 = Float32 { bits: 0 };
    let one: Float32 = Float32 { bits: ONE };
    let n_dot_v: Float32 = n_dot_v.clamp_to_unit();
    let view: Vec3 = Vec3 { x: (one - n_dot_v * n_dot_v).sqrt(), y: zero, z: n_dot_v };
    let normal: Vec3 = Vec3 { x: zero, y: zero, z: one };
    let tangent: Vec3 = Vec3 { x: one, y: zero, z: zero };
    let bitangent: Vec3 = Vec3 { x: zero, y: one, z: zero };
    let count: usize = angles.len();
    let mut sum: Vec2 = Vec2 { x: zero, y: zero };
    let mut i: usize = 0;
    while i < count
        invariant
            i <= count,
            count == angles@.len(),
            zero == (Float32 { bits: 0 }),
            one == (Float32 { bits: ONE }),
            view == (Vec3 { x: (one - n_dot_v * n_dot_v).root(), y: zero, z: n_dot_v }),
            normal == (Vec3 { x: zero, y: zero, z: one }),
            tangent == (Vec3 { x: one, y: zero, z: zero }),
            bitangent == (Vec3 { x: zero, y: one, z: zero }),
            sum == reflection_sum(angles@, n_dot_v, roughness, i as int),
        decreases count - i,
    {
        let half_vector: Vec3 = importance_sample_ggx(
            hammersley(i, count).y,
            angles[i],
            roughness,
            normal,
            tangent,
            bitangent,
        );
        let light: Vec3 = mirror(view, half_vector);
        let n_dot_l: Float32 = maximum(light.z, zero);
        let n_dot_h: Float32 = maximum(half_vector.z, zero);
        let v_dot_h: Float32 = maximum(view.dot(half_vector), zero);
        if zero.is_less(n_dot_l) && zero.is_less(n_dot_h) && zero.is_less(n_dot_v) {
            let visible: Float32 = smith_visibility(n_dot_l, n_dot_v, roughness) * v_dot_h
                / maximum(n_dot_h * n_dot_v, Float32 { bits: MILLIONTH });
            let rest: Float32 = one - v_dot_h;
            let square: Float32 = rest * rest;
            let grazing: Float32 = rest * (square * square);
            sum = sum + Vec2 { x: (one - grazing) * visible, y: grazing * visible };
        }
        i += 1;
    }
    sum / Float32::from_integer(false, count as u64)
}

/// The share of a way at a step: one step after the other up to the last, and `alone` where there
/// is only one.
pub open spec fn step_share(step: int, count: nat, alone: Float32) -> Float32 {
    if count == 1 {
        alone
    } else {
        Float32::of_integer(false, step as nat) / Float32::of_integer(false, (count - 1) as nat)
    }
}

fn find_step_share(step: usize, count: usize, alone: Float32) -> (result: Float32)
    requires
        count >= 1,
    ensures
        result == step_share(step as int, count as nat, alone),
{
    if count == 1 {
        alone
    } else {
        Float32::from_integer(false, step as u64) / Float32::from_integer(false, (count - 1) as u64)
    }
}

/// The table of reflections, by the cosine of the angle of view across and the roughness down.
pub fn bake_brdf_lut(size: usize, angles: &[Angle]) -> (result: EnvironmentBrdfLut)
    requires
        size >= 1,
        size * size <= usize::MAX,
    ensures
        result@.sound(),
        result@.size == size,
        result@.pixels == Seq::new(
            (size * size) as nat,
            |i: int|
                reflection(
                    angles@,
                    step_share(i % size as int, size as nat, Float32 { bits: ONE }),
                    step_share(i / size as int, size as nat, Float32 { bits: 0 }),
                ),
        ),
{
    let mut pixels: Vec<Vec2> = Vec::new();
    let count: usize = size * size;
    let ghost wanted = Seq::new(
        (size * size) as nat,
        |i: int|
            reflection(
                angles@,
                step_share(i % size as int, size as nat, Float32 { bits: ONE }),
                step_share(i / size as int, size as nat, Float32 { bits: 0 }),
            ),
    );
    let mut i: usize = 0;
    while i < count
        invariant
            i <= count,
            size >= 1,
            count == size * size,
            wanted == Seq::new(
                (size * size) as nat,
                |k: int|
                    reflection(
                        angles@,
                        step_share(k % size as int, size as nat, Float32 { bits: ONE }),
                        step_share(k / size as int, size as nat, Float32 { bits: 0 }),
                    ),
            ),
            pixels@ =~= wanted.take(i as int),
        decreases count - i,
    {
        let entry: Vec2 = integrate_brdf(
            find_step_share(i % size, size, Float32 { bits: ONE }),
            find_step_share(i / size, size, Float32 { bits: 0 }),
            angles,
        );
        assert(entry == wanted[i as int]);
        pixels.push(entry);
        i += 1;
    }
    assert(pixels@ =~= wanted);
    EnvironmentBrdfLut::of_square(size, pixels)
}

/// The direction of a sample for a normal: more samples lie close to it, as many as the cosine of
/// the angle between them says.
pub open spec fn lambert_direction(index: int, angles: Seq<Angle>, normal: Vec3) -> Vec3 {
    let point = sequence_point(index, angles.len());
    let radius = point.x.root();
    let (tangent, bitangent) = across(normal);
    (tangent * (radius * angles[index].cosine) + bitangent * (radius * angles[index].sine) + normal
        * ((Float32 { bits: ONE }) - point.x).root()).unit()
}

/// Whether these are colors that a light shows in these directions.
pub open spec fn are_shown<S: Fn(Vec3) -> Vec3>(
    sample: S,
    directions: Seq<Vec3>,
    colors: Seq<Vec3>,
) -> bool {
    &&& colors.len() == directions.len()
    &&& forall|i: int|
        0 <= i < directions.len() ==> call_ensures(sample, (directions[i],), #[trigger] colors[i])
}

/// The sum of the first colors.
pub open spec fn color_sum(colors: Seq<Vec3>, count: int) -> Vec3
    decreases count,
{
    if count <= 0 {
        nothing()
    } else {
        color_sum(colors, count - 1) + colors[count - 1]
    }
}

/// The directions of all samples for a normal.
pub open spec fn lambert_directions(angles: Seq<Angle>, normal: Vec3) -> Seq<Vec3> {
    Seq::new(angles.len(), |i: int| lambert_direction(i, angles, normal))
}

/// Whether a color is the mean of what a light shows in the directions of the samples.
pub open spec fn is_irradiance<S: Fn(Vec3) -> Vec3>(
    sample: S,
    normal: Vec3,
    angles: Seq<Angle>,
    color: Vec3,
) -> bool {
    exists|colors: Seq<Vec3>| #[trigger]
        are_shown(sample, lambert_directions(angles, normal), colors) && color == color_sum(
            colors,
            colors.len() as int,
        ) / Float32::of_integer(false, angles.len())
}

/// The mean of what a light shows around a normal. Each sample is turned by the angle that
/// belongs to the second coordinate of its point.
pub fn integrate_irradiance<S: Fn(Vec3) -> Vec3>(
    sample: &S,
    normal: Vec3,
    angles: &[Angle],
) -> (result: Vec3)
    requires
        forall|direction: Vec3| #[trigger] call_requires(*sample, (direction,)),
    ensures
        is_irradiance(*sample, normal, angles@, result),
{
    let one: Float32 = Float32 { bits: ONE };
    let zero: Float32 = Float32 { bits: 0 };
    let (tangent, bitangent): (Vec3, Vec3) = basis(normal);
    let count: usize = angles.len();
    let mut sum: Vec3 = Vec3 { x: zero, y: zero, z: zero };
    let ghost directions = lambert_directions(angles@, normal);
    let ghost mut colors: Seq<Vec3> = Seq::empty();
    let mut i: usize = 0;
    while i < count
        invariant
            i <= count,
            count == angles@.len(),
            one == (Float32 { bits: ONE }),
            (tangent, bitangent) == across(normal),
            directions == lambert_directions(angles@, normal),
            forall|direction: Vec3| #[trigger] call_requires(*sample, (direction,)),
            colors.len() == i,
            forall|k: int|
                0 <= k < i ==> call_ensures(*sample, (directions[k],), #[trigger] colors[k]),
            sum == color_sum(colors, i as int),
        decreases count - i,
    {
        let point: Vec2 = hammersley(i, count);
        let radius: Float32 = point.x.sqrt();
        let direction: Vec3 = (tangent * (radius * angles[i].cosine) + bitangent * (radius
            * angles[i].sine) + normal * (one - point.x).sqrt()).normalize();
        assert(direction == directions[i as int]);
        let color: Vec3 = sample(direction);
        proof {
            lemma_sum_keeps(colors, color, i as int);
            colors = colors.push(color);
        }
        sum = sum + color;
        i += 1;
    }
    assert(are_shown(*sample, directions, colors));
    sum / Float32::from_integer(false, count as u64)
}

proof fn lemma_sum_keeps(colors: Seq<Vec3>, color: Vec3, count: int)
    requires
        0 <= count <= colors.len(),
    ensures
        color_sum(colors.push(color), count) == color_sum(colors, count),
    decreases count,
{
    if count > 0 {
        lemma_sum_keeps(colors, color, count - 1);
    }
}

/// The direction that light comes from for a sample, seen along the normal.
pub open spec fn gloss_direction(
    index: int,
    angles: Seq<Angle>,
    normal: Vec3,
    roughness: Float32,
) -> Vec3 {
    let (tangent, bitangent) = across(normal);
    mirrored(
        normal,
        facet_direction(
            sequence_point(index, angles.len()).y,
            angles[index],
            roughness,
            normal,
            tangent,
            bitangent,
        ),
    )
}

/// How much a sample weighs: the cosine of its angle to the normal.
pub open spec fn gloss_weight(
    index: int,
    angles: Seq<Angle>,
    normal: Vec3,
    roughness: Float32,
) -> Float32 {
    greatest(
        normal.dot_product(gloss_direction(index, angles, normal, roughness)),
        Float32 { bits: 0 },
    )
}

/// The weighted sum of the first colors, and the sum of their weights. Samples without weight are
/// left out.
pub open spec fn gloss_sum(
    angles: Seq<Angle>,
    normal: Vec3,
    roughness: Float32,
    colors: Seq<Vec3>,
    count: int,
) -> (Vec3, Float32)
    decreases count,
{
    if count <= 0 {
        (nothing(), Float32 { bits: 0 })
    } else {
        let before = gloss_sum(angles, normal, roughness, colors, count - 1);
        let weight = gloss_weight(count - 1, angles, normal, roughness);
        if (Float32 { bits: 0 }).less(weight) {
            (before.0 + colors[count - 1] * weight, before.1 + weight)
        } else {
            before
        }
    }
}

/// Whether these are colors that a light shows for the samples that have weight.
pub open spec fn are_glossy<S: Fn(Vec3) -> Vec3>(
    sample: S,
    angles: Seq<Angle>,
    normal: Vec3,
    roughness: Float32,
    colors: Seq<Vec3>,
) -> bool {
    &&& colors.len() == angles.len()
    &&& forall|i: int|
        0 <= i < angles.len() && (Float32 { bits: 0 }).less(
            gloss_weight(i, angles, normal, roughness),
        ) ==> call_ensures(
            sample,
            (gloss_direction(i, angles, normal, roughness),),
            #[trigger] colors[i],
        )
}

/// Whether a color is the weighted mean of what a light shows to a surface of some roughness, and
/// what it shows along the normal where no sample has weight.
pub open spec fn is_gloss<S: Fn(Vec3) -> Vec3>(
    sample: S,
    normal: Vec3,
    roughness: Float32,
    angles: Seq<Angle>,
    color: Vec3,
) -> bool {
    exists|colors: Seq<Vec3>| #[trigger]
        are_glossy(sample, angles, normal, roughness, colors) && {
            let sum = gloss_sum(angles, normal, roughness, colors, angles.len() as int);
            if (Float32 { bits: 0 }).less(sum.1) {
                color == sum.0 / sum.1
            } else {
                call_ensures(sample, (normal,), color)
            }
        }
}

/// The weighted mean of what a light shows to a surface of some roughness, seen along the normal.
/// Each sample is turned by the angle that belongs to the first coordinate of its point.
pub fn integrate_gloss<S: Fn(Vec3) -> Vec3>(
    sample: &S,
    normal: Vec3,
    roughness: Float32,
    angles: &[Angle],
) -> (result: Vec3)
    requires
        forall|direction: Vec3| #[trigger] call_requires(*sample, (direction,)),
    ensures
        is_gloss(*sample, normal, roughness, angles@, result),
{
    let zero: Float32 = Float32 { bits: 0 };
    let (tangent, bitangent): (Vec3, Vec3) = basis(normal);
    let count: usize = angles.len();
    let mut sum: Vec3 = Vec3 { x: zero, y: zero, z: zero };
    let mut weights: Float32 = zero;
    let ghost mut colors: Seq<Vec3> = Seq::empty();
    let mut i: usize = 0;
    while i < count
        invariant
            i <= count,
            count == angles@.len(),
            zero == (Float32 { bits: 0 }),
            (tangent, bitangent) == across(normal),
            forall|direction: Vec3| #[trigger] call_requires(*sample, (direction,)),
            colors.len() == i,
            forall|k: int|
                0 <= k < i && zero.less(gloss_weight(k, angles@, normal, roughness))
                    ==> call_ensures(
                    *sample,
                    (gloss_direction(k, angles@, normal, roughness),),
                    #[trigger] colors[k],
                ),
            (sum, weights) == gloss_sum(angles@, normal, roughness, colors, i as int),
        decreases count - i,
    {
        let half_vector: Vec3 = importance_sample_ggx(
            hammersley(i, count).y,
            angles[i],
            roughness,
            normal,
            tangent,
            bitangent,
        );
        let light: Vec3 = mirror(normal, half_vector);
        assert(light == gloss_direction(i as int, angles@, normal, roughness));
        let weight: Float32 = maximum(normal.dot(light), zero);
        assert(weight == gloss_weight(i as int, angles@, normal, roughness));
        if zero.is_less(weight) {
            let color: Vec3 = sample(light);
            proof {
                lemma_gloss_keeps(angles@, normal, roughness, colors, color, i as int);
                colors = colors.push(color);
            }
            sum = sum + color * weight;
            weights = weights + weight;
        } else {
            proof {
                lemma_gloss_keeps(angles@, normal, roughness, colors, nothing(), i as int);
                colors = colors.push(nothing());
            }
        }
        i += 1;
    }
    assert(are_glossy(*sample, angles@, normal, roughness, colors));
    if zero.is_less(weights) {
        sum / weights
    } else {
        sample(normal)
    }
}

proof fn lemma_gloss_keeps(
    angles: Seq<Angle>,
    normal: Vec3,
    roughness: Float32,
    colors: Seq<Vec3>,
    color: Vec3,
    count: int,
)
    requires
        0 <= count <= colors.len(),
    ensures
        gloss_sum(angles, normal, roughness, colors.push(color), count) == gloss_sum(
            angles,
            normal,
            roughness,
            colors,
            count,
        ),
    decreases count,
{
    if count > 0 {
        lemma_gloss_keeps(angles, normal, roughness, colors, color, count - 1);
    }
}

/// The direction through the pixel at a place of a face.
pub open spec fn place_direction(face: int, place: int, size: nat) -> Vec3 {
    texel_direction(face_at(face), place % size as int, place / size as int, size)
}

/// What is made of a light for each pixel of a cube.
#[derive(Clone, Copy, Debug, PartialEq)]
pub enum Bake {
    /// What a matte surface shows.
    Irradiance,
    /// What a glossy surface of this roughness shows.
    Gloss(Float32),
}

/// Whether a color is what is made of a light around a normal.
pub open spec fn is_baked<S: Fn(Vec3) -> Vec3>(
    sample: S,
    bake: Bake,
    normal: Vec3,
    angles: Seq<Angle>,
    color: Vec3,
) -> bool {
    match bake {
        Bake::Irradiance => is_irradiance(sample, normal, angles, color),
        Bake::Gloss(roughness) => is_gloss(sample, normal, roughness, angles, color),
    }
}

fn bake_face<S: Fn(Vec3) -> Vec3>(
    sample: &S,
    bake: Bake,
    face: usize,
    size: usize,
    angles: &[Angle],
) -> (result: Vec<Vec3>)
    requires
        face < 6,
        size >= 1,
        size * size <= usize::MAX,
        forall|direction: Vec3| #[trigger] call_requires(*sample, (direction,)),
    ensures
        result@.len() == size * size,
        forall|i: int|
            0 <= i < result@.len() ==> is_baked(
                *sample,
                bake,
                place_direction(face as int, i, size as nat),
                angles@,
                #[trigger] result@[i],
            ),
{
    let count: usize = size * size;
    let mut colors: Vec<Vec3> = Vec::new();
    let mut i: usize = 0;
    while i < count
        invariant
            i <= count,
            face < 6,
            size >= 1,
            count == size * size,
            forall|direction: Vec3| #[trigger] call_requires(*sample, (direction,)),
            colors@.len() == i,
            forall|k: int|
                0 <= k < i ==> is_baked(
                    *sample,
                    bake,
                    place_direction(face as int, k, size as nat),
                    angles@,
                    #[trigger] colors@[k],
                ),
        decreases count - i,
    {
        let normal: Vec3 = direction_for_texel(cube_face(face), i % size, i / size, size);
        assert(normal == place_direction(face as int, i as int, size as nat));
        let color: Vec3 = match bake {
            Bake::Irradiance => integrate_irradiance(sample, normal, angles),
            Bake::Gloss(roughness) => integrate_gloss(sample, normal, roughness, angles),
        };
        colors.push(color);
        i += 1;
    }
    colors
}

/// Whether every pixel of a cube is what is made of a light in its direction.
pub open spec fn is_baked_cube<S: Fn(Vec3) -> Vec3>(
    sample: S,
    bake: Bake,
    angles: Seq<Angle>,
    size: usize,
    cube: crate::ibl::CubeModel,
) -> bool {
    &&& cube.sound()
    &&& cube.size == size
    &&& forall|face: int, i: int|
        0 <= face < 6 && 0 <= i < size * size ==> is_baked(
            sample,
            bake,
            place_direction(face, i, size as nat),
            angles,
            #[trigger] cube.faces[face][i],
        )
}

/// What is made of a light, for every pixel of a cube.
pub fn bake_cube<S: Fn(Vec3) -> Vec3>(sample: &S, bake: Bake, size: usize, angles: &[Angle]) -> (
    result: FloatCube)
    requires
        size >= 1,
        size * size <= usize::MAX,
        forall|direction: Vec3| #[trigger] call_requires(*sample, (direction,)),
    ensures
        is_baked_cube(*sample, bake, angles@, size, result@),
{
    let mut faces: Vec<Vec<Vec3>> = Vec::new();
    let mut f: usize = 0;
    while f < 6
        invariant
            f <= 6,
            size >= 1,
            size * size <= usize::MAX,
            forall|direction: Vec3| #[trigger] call_requires(*sample, (direction,)),
            faces@.len() == f,
            forall|face: int| 0 <= face < f ==> (#[trigger] faces@[face])@.len() == size * size,
            forall|face: int, i: int|
                0 <= face < f && 0 <= i < size * size ==> is_baked(
                    *sample,
                    bake,
                    place_direction(face, i, size as nat),
                    angles@,
                    #[trigger] faces@[face]@[i],
                ),
        decreases 6 - f,
    {
        let face: Vec<Vec3> = bake_face(sample, bake, f, size, angles);
        faces.push(face);
        f += 1;
    }
    FloatCube::of_squares(size, faces)
}

/// What is made of a light for glossy surfaces, one cube for each of some roughnesses, from the
/// smoothest to the roughest.
pub fn bake_prefiltered<S: Fn(Vec3) -> Vec3>(
    sample: &S,
    size: usize,
    levels: usize,
    angles: &[Angle],
) -> (result: PrefilteredEnvironment)
    requires
        size >= 1,
        size * size <= usize::MAX,
        levels >= 1,
        forall|direction: Vec3| #[trigger] call_requires(*sample, (direction,)),
    ensures
        result@.len() == levels,
        forall|i: int|
            0 <= i < levels ==> is_baked_cube(
                *sample,
                Bake::Gloss(step_share(i, levels as nat, Float32 { bits: 0 })),
                angles@,
                size,
                #[trigger] result@[i],
            ),
{
    let mut made: Vec<FloatCube> = Vec::new();
    let mut level: usize = 0;
    while level < levels
        invariant
            level <= levels,
            levels >= 1,
            size >= 1,
            size * size <= usize::MAX,
            forall|direction: Vec3| #[trigger] call_requires(*sample, (direction,)),
            made@.len() == level,
            forall|i: int|
                0 <= i < level ==> is_baked_cube(
                    *sample,
                    Bake::Gloss(step_share(i, levels as nat, Float32 { bits: 0 })),
                    angles@,
                    size,
                    (#[trigger] made@[i])@,
                ),
        decreases levels - level,
    {
        let roughness: Float32 = find_step_share(level, levels, Float32 { bits: 0 });
        made.push(bake_cube(sample, Bake::Gloss(roughness), size, angles));
        level += 1;
    }
    let ghost cubes = made@;
    let result: PrefilteredEnvironment = PrefilteredEnvironment::new(made);
    assert forall|i: int| 0 <= i < levels implies is_baked_cube(
        *sample,
        Bake::Gloss(step_share(i, levels as nat, Float32 { bits: 0 })),
        angles@,
        size,
        #[trigger] result@[i],
    ) by {
        assert(result@[i] == cubes[i]@);
    }
    result
}

/// The angles that the samples of each map are turned by.
#[derive(Debug)]
pub struct BakeAngles {
    pub irradiance: Vec<Angle>,
    pub prefilter: Vec<Angle>,
    pub brdf: Vec<Angle>,
}

/// The maps that a surface is lit by.
#[derive(Debug)]
pub struct IblMaps {
    pub irradiance: FloatCube,
    pub prefiltered: PrefilteredEnvironment,
    pub brdf_lut: EnvironmentBrdfLut,
    pub settings: IblSettings,
}

impl IblMaps {
    /// All maps of a surrounding light.
    pub fn from_sampler<S: Fn(Vec3) -> Vec3>(
        sample: &S,
        settings: IblSettings,
        angles: &BakeAngles,
    ) -> (result: IblMaps)
        requires
            settings.usable().irradiance_size * settings.usable().irradiance_size <= usize::MAX,
            settings.usable().prefilter_size * settings.usable().prefilter_size <= usize::MAX,
            settings.usable().brdf_size * settings.usable().brdf_size <= usize::MAX,
            angles.irradiance@.len() == settings.usable().irradiance_samples,
            angles.prefilter@.len() == settings.usable().prefilter_samples,
            angles.brdf@.len() == settings.usable().brdf_samples,
            forall|direction: Vec3| #[trigger] call_requires(*sample, (direction,)),
        ensures
            result.settings == settings.usable(),
            is_baked_cube(
                *sample,
                Bake::Irradiance,
                angles.irradiance@,
                settings.usable().irradiance_size,
                result.irradiance@,
            ),
            result.prefiltered@.len() == settings.usable().prefilter_levels,
            forall|i: int|
                0 <= i < result.prefiltered@.len() ==> is_baked_cube(
                    *sample,
                    Bake::Gloss(
                        step_share(i, result.prefiltered@.len(), Float32 { bits: 0 }),
                    ),
                    angles.prefilter@,
                    settings.usable().prefilter_size,
                    #[trigger] result.prefiltered@[i],
                ),
            result.brdf_lut@.sound(),
            result.brdf_lut@.size == settings.usable().brdf_size,
            forall|i: int|
                0 <= i < result.brdf_lut@.pixels.len() ==> #[trigger] result.brdf_lut@.pixels[i]
                    == reflection(
                    angles.brdf@,
                    step_share(
                        i % result.brdf_lut@.size as int,
                        result.brdf_lut@.size as nat,
                        Float32 { bits: ONE },
                    ),
                    step_share(
                        i / result.brdf_lut@.size as int,
                        result.brdf_lut@.size as nat,
                        Float32 { bits: 0 },
                    ),
                ),
    {
        let settings: IblSettings = settings.sanitized();
        let irradiance: FloatCube = bake_cube(
            sample,
            Bake::Irradiance,
            settings.irradiance_size,
            angles.irradiance.as_slice(),
        );
        let prefiltered: PrefilteredEnvironment = bake_prefiltered(
            sample,
            settings.prefilter_size,
            settings.prefilter_levels,
            angles.prefilter.as_slice(),
        );
        let brdf_lut: EnvironmentBrdfLut = bake_brdf_lut(settings.brdf_size, angles.brdf.as_slice());
        IblMaps { irradiance, prefiltered, brdf_lut, settings }
    }
}

} // verus!
