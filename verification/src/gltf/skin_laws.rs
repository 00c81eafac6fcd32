//! How a skin moves the vertices that its joints have.

use crate::arith::law_multiplying_by_one_changes_nothing;
use crate::derived::nothing;
use crate::float::{Float32, HALF, INFINITY, ONE};
use crate::gltf::model::PrimitiveModel;
use crate::gltf::pose::{
    influence, influences_of, joint_matrices, moved_by, normal_or_up, normalized, not_below_zero,
    skinned, skinned_vertex, skinned_vertices, sum_of, unbinding, WEIGHT_TOLERANCE,
};
use crate::gltf::skin::SkinModel;
use crate::lod_laws::is_finite_vector;
use crate::math::{Mat3, Mat4, Vec3, Vec4};
use crate::mesh::{MeshModel, MeshVertex};
use crate::reals::{
    alike, alike_vectors, law_arithmetic_keeps_likeness, law_directions_keep_likeness,
    law_halves_make_wholes, law_values_go_into_themselves_once,
    law_zeros_add_nothing,
};
use vstd::prelude::*;

verus! {

/// Whether a weight counts for nothing.
pub open spec fn is_no_weight(weight: Float32) -> bool {
    !(Float32 { bits: 0 }).less(weight)
}

/// Whether a weight is large enough to count alone.
pub open spec fn is_weight(weight: Float32) -> bool {
    weight.finite() && !weight.negative() && !weight.less(Float32 { bits: WEIGHT_TOLERANCE })
}

/// Whether the weight in one of the slots counts, and no other does.
pub open spec fn has_single_influence(weights: [Float32; 4], slot: int) -> bool {
    &&& 0 <= slot < 4
    &&& is_weight(weights[slot])
    &&& forall|i: int| 0 <= i < 4 && i != slot ==> is_no_weight(#[trigger] weights[i])
}

/// Whether the weights in two of the slots are equal and count, and no other does.
pub open spec fn has_equal_influences(weights: [Float32; 4], slot: int, other: int) -> bool {
    &&& 0 <= slot < other < 4
    &&& is_weight(weights[slot])
    &&& weights[slot].magnitude() < INFINITY - 0x80_0000
    &&& weights[other] == weights[slot]
    &&& forall|i: int|
        0 <= i < 4 && i != slot && i != other ==> is_no_weight(#[trigger] weights[i])
}

/// Where a matrix takes a point.
pub open spec fn image_of(matrix: Mat4, point: Vec3) -> Vec3 {
    let image = matrix.applied(
        Vec4 { x: point.x, y: point.y, z: point.z, w: Float32 { bits: ONE } },
    );
    Vec3 { x: image.x, y: image.y, z: image.z }
}

/// The transform of a joint of a skin: out of the space it was bound in, then into the world.
pub open spec fn joint_transform(worlds: Seq<Mat4>, skin: SkinModel, joint: int) -> Mat4 {
    worlds[skin.joints[joint] as int] * unbinding(skin, joint)
}

proof fn lemma_weights_without_size(weight: Float32)
    requires
        is_no_weight(weight),
    ensures
        not_below_zero(weight).magnitude() == 0,
{
}

proof fn lemma_counting_weights(weight: Float32)
    requires
        is_weight(weight),
    ensures
        not_below_zero(weight) == weight,
        weight.magnitude() > 0,
{
}

/// Adding zeros around one value.
pub proof fn lemma_sum_of_one(a: Float32, b: Float32, c: Float32, d: Float32, value: Float32)
    requires
        value.finite(),
        ({
            ||| a == value && b.magnitude() == 0 && c.magnitude() == 0 && d.magnitude() == 0
            ||| b == value && a.magnitude() == 0 && c.magnitude() == 0 && d.magnitude() == 0
            ||| c == value && a.magnitude() == 0 && b.magnitude() == 0 && d.magnitude() == 0
            ||| d == value && a.magnitude() == 0 && b.magnitude() == 0 && c.magnitude() == 0
        }),
    ensures
        alike(a + b + c + d, value),
{
    lemma_near(a, b);
    lemma_near(a + b, c);
    lemma_near(a + b + c, d);
}

/// Adding a zero to either side.
proof fn lemma_near(first: Float32, second: Float32)
    ensures
        first.finite() && second.magnitude() == 0 ==> alike(first + second, first),
        second.finite() && first.magnitude() == 0 ==> alike(first + second, second),
{
    if first.finite() && second.magnitude() == 0 {
        law_zeros_add_nothing(first, second);
    }
    if second.finite() && first.magnitude() == 0 {
        law_zeros_add_nothing(second, first);
    }
}

/// A weight that counts alone is the whole, whatever it is.
proof fn lemma_whole_weight(weights: [Float32; 4], slot: int)
    requires
        has_single_influence(weights, slot),
    ensures
        normalized(weights)[slot] == (Float32 { bits: ONE }),
        forall|i: int|
            0 <= i < 4 && i != slot ==> (#[trigger] normalized(weights)[i]).magnitude() == 0,
        !sum_of(normalized(weights)).same_value(Float32 { bits: 0 }),
{
    let w = weights[slot];
    let a = not_below_zero(weights[0]);
    let b = not_below_zero(weights[1]);
    let c = not_below_zero(weights[2]);
    let d = not_below_zero(weights[3]);
    lemma_counting_weights(w);
    assert forall|i: int| 0 <= i < 4 && i != slot implies not_below_zero(
        #[trigger] weights[i],
    ).magnitude() == 0 by {
        lemma_weights_without_size(weights[i]);
    }
    lemma_sum_of_one(a, b, c, d, w);
    assert(a + b + c + d == w);
    law_values_go_into_themselves_once(w);
    lemma_nothing_over(w);
    let one = Float32 { bits: ONE };
    let n = normalized(weights);
    lemma_sum_of_one(n[0], n[1], n[2], n[3], one);
}

/// Zero divided by a value.
proof fn lemma_nothing_over(value: Float32)
    requires
        value.finite(),
        value.magnitude() > 0,
    ensures
        forall|zero: Float32| zero.magnitude() == 0 ==> (#[trigger] (zero / value)).magnitude() == 0,
{
    reveal(Float32::over);
    crate::float::lemma_scaled_is_positive(value.magnitude());
    crate::arith::lemma_zero_is_nearest(
        crate::rounding::Format::Binary32.scaled_value(value.magnitude()),
    );
}

/// A vertex with a single influence goes where its joint goes: its position is the image of the
/// position under the transform of the joint, and its normal points along the image of the normal
/// under the matrix that the joint has for normals.
pub proof fn law_single_influences_move_vertices(
    vertex: MeshVertex,
    joints: [u16; 4],
    weights: [Float32; 4],
    matrices: Seq<(Mat4, Mat3)>,
    slot: int,
)
    requires
        has_single_influence(weights, slot),
        joints[slot] < matrices.len(),
        is_finite_vector(image_of(matrices[joints[slot] as int].0, vertex.position)),
        is_finite_vector(matrices[joints[slot] as int].1.applied(normal_or_up(vertex))),
    ensures
        ({
            let (matrix, turning) = matrices[joints[slot] as int];
            skinned_vertex(vertex, joints, weights, matrices) matches Ok(moved) && alike_vectors(
                moved.position,
                image_of(matrix, vertex.position),
            ) && moved.texcoord == vertex.texcoord && (moved.normal matches Some(normal)
                && alike_vectors(normal, turning.applied(normal_or_up(vertex)).unit()))
        }),
{
    let n = normalized(weights);
    let one = Float32 { bits: ONE };
    lemma_whole_weight(weights, slot);
    assert forall|i: int| 0 <= i < 4 implies (#[trigger] influence(joints, n, i) matches Some(
        joint,
    ) ==> joint < matrices.len()) by {
        if i != slot {
            assert(n[i].magnitude() == 0);
        }
    }
    let influences = influences_of(joints, n, matrices.len())->Ok_0;
    assert(influences[slot] == Some(joints[slot] as usize));
    assert forall|i: int| 0 <= i < 4 && i != slot implies #[trigger] influences[i] is None by {
        assert(n[i].magnitude() == 0);
        assert(influences[i] == influence(joints, n, i));
    }
    let (matrix, turning) = matrices[joints[slot] as int];
    let p = image_of(matrix, vertex.position);
    let q = turning.applied(normal_or_up(vertex));
    reveal_with_fuel(moved_by, 5);
    let moved = moved_by(vertex.position, normal_or_up(vertex), influences, n, matrices, 4);
    assert(moved == (nothing() + p * one, nothing() + q * one));
    lemma_from_nothing(p);
    lemma_from_nothing(q);
    law_directions_keep_likeness(nothing() + q * one, q);
}

proof fn lemma_from_nothing(vector: Vec3)
    requires
        is_finite_vector(vector),
    ensures
        alike_vectors(nothing() + vector * (Float32 { bits: ONE }), vector),
{
    law_multiplying_by_one_changes_nothing(vector.x);
    law_multiplying_by_one_changes_nothing(vector.y);
    law_multiplying_by_one_changes_nothing(vector.z);
    let zero = Float32 { bits: 0 };
    law_zeros_add_nothing(vector.x, zero);
    law_zeros_add_nothing(vector.y, zero);
    law_zeros_add_nothing(vector.z, zero);
}

/// Adding zeros around two equal values.
proof fn lemma_sum_of_two(values: [Float32; 4], slot: int, other: int)
    requires
        0 <= slot < other < 4,
        values[slot].finite(),
        (values[slot] + values[slot]).finite(),
        values[other] == values[slot],
        forall|i: int|
            0 <= i < 4 && i != slot && i != other ==> (#[trigger] values[i]).magnitude() == 0,
    ensures
        alike(values[0] + values[1] + values[2] + values[3], values[slot] + values[slot]),
{
    let (a, b, c, d) = (values[0], values[1], values[2], values[3]);
    let w = values[slot];
    lemma_near(a, b);
    lemma_near(a + b, c);
    lemma_near(a + b + c, d);
    if other == 2 {
        law_arithmetic_keeps_likeness(a + b, w, w, w);
    } else if other == 3 {
        law_arithmetic_keeps_likeness(a + b + c, w, w, w);
    }
}

/// Two equal weights are one half each.
proof fn lemma_half_weights(weights: [Float32; 4], slot: int, other: int)
    requires
        has_equal_influences(weights, slot, other),
    ensures
        normalized(weights)[slot] == (Float32 { bits: HALF }),
        normalized(weights)[other] == (Float32 { bits: HALF }),
        forall|i: int|
            0 <= i < 4 && i != slot && i != other ==> (#[trigger] normalized(
                weights,
            )[i]).magnitude() == 0,
        !sum_of(normalized(weights)).same_value(Float32 { bits: 0 }),
{
    let w = weights[slot];
    let a = not_below_zero(weights[0]);
    let b = not_below_zero(weights[1]);
    let c = not_below_zero(weights[2]);
    let d = not_below_zero(weights[3]);
    let kept = [a, b, c, d];
    lemma_counting_weights(w);
    assert forall|i: int| 0 <= i < 4 && i != slot && i != other implies (
    #[trigger] kept[i]).magnitude() == 0 by {
        lemma_weights_without_size(weights[i]);
    }
    law_halves_make_wholes(w);
    lemma_sum_of_two(kept, slot, other);
    let sum = w + w;
    assert(sum.magnitude() > 0) by {
        crate::float::lemma_scaled_is_positive(w.magnitude());
        if sum.magnitude() == 0 {
            crate::reals::law_small_constants();
            lemma_zero_is_unscaled(sum);
        }
    }
    assert(a + b + c + d == sum);
    assert(!sum.less(Float32 { bits: WEIGHT_TOLERANCE })) by {
        crate::reals::law_sums_keep_order(Float32 { bits: 0 }, w, w);
        law_zeros_add_nothing(w, Float32 { bits: 0 });
    }
    lemma_nothing_over(sum);
    let half = Float32 { bits: HALF };
    let n = normalized(weights);
    law_halves_make_wholes(half);
    lemma_sum_of_two(n, slot, other);
    crate::reals::law_small_sums();
    lemma_zero_is_unscaled(half + half);
    crate::float::lemma_scaled_is_positive(half.magnitude());
}

proof fn lemma_zero_is_unscaled(value: Float32)
    ensures
        value.magnitude() == 0 ==> value.scaled() == 0,
{
    crate::arith::lemma_zero_is_nearest(1);
}

/// A vertex with two equal influences goes halfway between where either joint takes it, and its
/// normal points halfway between where either joint turns it.
pub proof fn law_equal_influences_share_vertices(
    vertex: MeshVertex,
    joints: [u16; 4],
    weights: [Float32; 4],
    matrices: Seq<(Mat4, Mat3)>,
    slot: int,
    other: int,
)
    requires
        has_equal_influences(weights, slot, other),
        joints[slot] < matrices.len(),
        joints[other] < matrices.len(),
        is_finite_vector(image_of(matrices[joints[slot] as int].0, vertex.position)),
        is_finite_vector(image_of(matrices[joints[other] as int].0, vertex.position)),
        is_finite_vector(matrices[joints[slot] as int].1.applied(normal_or_up(vertex))),
        is_finite_vector(matrices[joints[other] as int].1.applied(normal_or_up(vertex))),
    ensures
        ({
            let half = Float32 { bits: HALF };
            let first = matrices[joints[slot] as int];
            let second = matrices[joints[other] as int];
            let normal = normal_or_up(vertex);
            skinned_vertex(vertex, joints, weights, matrices) matches Ok(moved) && alike_vectors(
                moved.position,
                image_of(first.0, vertex.position) * half + image_of(second.0, vertex.position)
                    * half,
            ) && (moved.normal matches Some(turned) && alike_vectors(
                turned,
                (first.1.applied(normal) * half + second.1.applied(normal) * half).unit(),
            ))
        }),
{
    let n = normalized(weights);
    let half = Float32 { bits: HALF };
    lemma_half_weights(weights, slot, other);
    assert forall|i: int| 0 <= i < 4 implies (#[trigger] influence(joints, n, i) matches Some(
        joint,
    ) ==> joint < matrices.len()) by {
        if i != slot && i != other {
            assert(n[i].magnitude() == 0);
        }
    }
    let influences = influences_of(joints, n, matrices.len())->Ok_0;
    assert(influences[slot] == Some(joints[slot] as usize));
    assert(influences[other] == Some(joints[other] as usize));
    assert forall|i: int|
        0 <= i < 4 && i != slot && i != other implies #[trigger] influences[i] is None by {
        assert(n[i].magnitude() == 0);
        assert(influences[i] == influence(joints, n, i));
    }
    let first = matrices[joints[slot] as int];
    let second = matrices[joints[other] as int];
    let normal = normal_or_up(vertex);
    let (p, q) = (image_of(first.0, vertex.position), image_of(second.0, vertex.position));
    let (r, s) = (first.1.applied(normal), second.1.applied(normal));
    reveal_with_fuel(moved_by, 5);
    let moved = moved_by(vertex.position, normal, influences, n, matrices, 4);
    assert(moved == (nothing() + p * half + q * half, nothing() + r * half + s * half));
    lemma_shared(p, q);
    lemma_shared(r, s);
    law_directions_keep_likeness(moved.1, r * half + s * half);
}

proof fn lemma_shared(first: Vec3, second: Vec3)
    requires
        is_finite_vector(first),
        is_finite_vector(second),
    ensures
        ({
            let half = Float32 { bits: HALF };
            alike_vectors(nothing() + first * half + second * half, first * half + second * half)
        }),
{
    lemma_shared_axis(first.x, second.x);
    lemma_shared_axis(first.y, second.y);
    lemma_shared_axis(first.z, second.z);
}

proof fn lemma_shared_axis(first: Float32, second: Float32)
    requires
        first.finite(),
    ensures
        ({
            let half = Float32 { bits: HALF };
            alike((Float32 { bits: 0 }) + first * half + second * half, first * half + second * half)
        }),
{
    let half = Float32 { bits: HALF };
    let zero = Float32 { bits: 0 };
    crate::arith::law_products_with_shares_do_not_grow(first, half);
    law_zeros_add_nothing(first * half, zero);
    law_arithmetic_keeps_likeness(
        zero + first * half,
        second * half,
        first * half,
        second * half,
    );
}

/// The matrices of the joints of a skin are their transforms, and what those do to normals.
proof fn lemma_joint_matrices(worlds: Seq<Mat4>, skin: SkinModel, count: int, joint: int)
    requires
        joint_matrices(worlds, skin, count) is Ok,
        0 <= joint < count,
    ensures
        joint_matrices(worlds, skin, count)->Ok_0.len() == count,
        joint_matrices(worlds, skin, count)->Ok_0[joint].0 == joint_transform(worlds, skin, joint),
        joint_transform(worlds, skin, joint).for_normals() == Some(
            joint_matrices(worlds, skin, count)->Ok_0[joint].1,
        ),
    decreases count,
{
    if joint < count - 1 {
        lemma_joint_matrices(worlds, skin, count - 1, joint);
    } else if joint > 0 {
        lemma_joint_matrices(worlds, skin, count - 1, joint - 1);
    }
}

proof fn lemma_skinned_vertices(
    vertices: Seq<MeshVertex>,
    joints: Seq<[u16; 4]>,
    weights: Seq<[Float32; 4]>,
    matrices: Seq<(Mat4, Mat3)>,
    count: int,
    index: int,
)
    requires
        0 <= index < count,
        skinned_vertices(vertices, joints, weights, matrices, count) is Ok,
    ensures
        skinned_vertices(vertices, joints, weights, matrices, count)->Ok_0.len() == count,
        skinned_vertex(vertices[index], joints[index], weights[index], matrices) == Ok::<
            MeshVertex,
            Seq<char>,
        >(skinned_vertices(vertices, joints, weights, matrices, count)->Ok_0[index]),
    decreases count,
{
    if index < count - 1 {
        lemma_skinned_vertices(vertices, joints, weights, matrices, count - 1, index);
    } else if index > 0 {
        lemma_skinned_vertices(vertices, joints, weights, matrices, count - 1, index - 1);
    }
}

/// A vertex of a skinned mesh that a single joint has goes where the joint goes: its position is
/// the image of the position under the transform of the joint, out of the space it was bound in and
/// into the world, and its normal points along the image of the normal under the inverse transpose
/// of that transform.
pub proof fn law_skinned_vertices_follow_their_joint(
    mesh: MeshModel,
    primitive: PrimitiveModel,
    skin: SkinModel,
    worlds: Seq<Mat4>,
    index: int,
    slot: int,
)
    requires
        0 <= index < mesh.vertices.len(),
        skinned(mesh, primitive, skin, worlds) is Ok,
        has_single_influence(primitive.weights[index], slot),
        primitive.joints[index][slot] < skin.joints.len(),
        ({
            let vertex = mesh.vertices[index];
            let matrix = joint_transform(worlds, skin, primitive.joints[index][slot] as int);
            is_finite_vector(image_of(matrix, vertex.position)) && (matrix.for_normals() matches Some(
                turning,
            ) ==> is_finite_vector(turning.applied(normal_or_up(vertex))))
        }),
    ensures
        ({
            let vertex = mesh.vertices[index];
            let matrix = joint_transform(worlds, skin, primitive.joints[index][slot] as int);
            let moved = skinned(mesh, primitive, skin, worlds)->Ok_0.vertices[index];
            &&& skinned(mesh, primitive, skin, worlds)->Ok_0.vertices.len() == mesh.vertices.len()
            &&& alike_vectors(moved.position, image_of(matrix, vertex.position))
            &&& matrix.for_normals() matches Some(turning) && (moved.normal matches Some(normal)
                && alike_vectors(normal, turning.applied(normal_or_up(vertex)).unit()))
        }),
{
    let joint = primitive.joints[index][slot] as int;
    let count = skin.joints.len() as int;
    lemma_joint_matrices(worlds, skin, count, joint);
    let matrices = joint_matrices(worlds, skin, count)->Ok_0;
    lemma_skinned_vertices(
        mesh.vertices,
        primitive.joints,
        primitive.weights,
        matrices,
        mesh.vertices.len() as int,
        index,
    );
    law_single_influences_move_vertices(
        mesh.vertices[index],
        primitive.joints[index],
        primitive.weights[index],
        matrices,
        slot,
    );
}

} // verus!
