//! Meshes as an animation deforms and places them.
//!
//! Morph targets are blended first, then the skin moves each vertex with its joints.

use crate::culling::{greatest, maximum};
use crate::derived::nothing;
use crate::arith::law_multiplying_by_one_changes_nothing;
use crate::float::{Float32, ONE};
use crate::gltf::animation::{AnimationModel, AnimationPath, GltfAnimation};
use crate::gltf::document::{AssetModel, GltfAsset};
use crate::gltf::error::{gives, yields, GltfError, Outcome};
use crate::gltf::forest::{
    acyclic, children_of, forest_of, hierarchy_order, law_accepted_nodes_make_a_forest,
    lists_all, parents_first, reaches_root,
};
use crate::gltf::model::{
    sanitize_morph_weight, sanitized, target_models, GltfPrimitive, MorphModel, MorphTarget,
    PrimitiveModel,
};
use crate::gltf::node::NodeModel;
use crate::gltf::sampling::{
    can_animate, can_weigh, has_sines, morph_weights_at, primitive_at, rest_transforms, transform_matrix,
    transforms_at, transforms_from, value_at, with_sample, NodeTransform, Sines,
};
use crate::gltf::skin::{GltfSkin, SkinModel};
use crate::math::{identity_matrix, Mat3, Mat4, Vec3, Vec4};
use crate::mesh::{copy_mesh, mesh_of, plain_vertex, Mesh, MeshModel, MeshVertex};
use crate::text::decimal_digits;
use vstd::prelude::*;

verus! {

/// The bits of the least sum of skin weights that counts, 1.0e-5.
pub const WEIGHT_TOLERANCE: u32 = 0x3727_c5ac;

/// Whether some weight counts.
pub open spec fn some_weight_counts(weights: Seq<Float32>) -> bool {
    exists|i: int| 0 <= i < weights.len() && sanitized(#[trigger] weights[i]).magnitude() != 0
}

/// What is wrong with the targets from `index` on for a mesh of `vertices` vertices.
pub open spec fn target_problem(targets: Seq<MorphModel>, vertices: nat, index: int) -> Option<
    Seq<char>,
>
    decreases targets.len() - index,
{
    if !(0 <= index < targets.len()) {
        None
    } else if targets[index].positions.len() != vertices {
        Some(
            "morph target "@ + decimal_digits(index as nat)
                + " position count does not match mesh"@,
        )
    } else if targets[index].normals matches Some(normals) && normals.len() != vertices {
        Some(
            "morph target "@ + decimal_digits(index as nat) + " normal count does not match mesh"@,
        )
    } else {
        target_problem(targets, vertices, index + 1)
    }
}

/// Whether a mesh of `vertices` vertices is deformed by these targets and weights.
pub open spec fn blend_needed(
    vertices: nat,
    targets: Seq<MorphModel>,
    weights: Seq<Float32>,
) -> Outcome<bool> {
    if targets.len() != weights.len() {
        Err("morph weight count does not match morph targets"@)
    } else if !some_weight_counts(weights) {
        Ok(false)
    } else {
        match target_problem(targets, vertices, 0) {
            Some(message) => Err(message),
            None => Ok(true),
        }
    }
}

fn check_blend(vertices: usize, targets: &[MorphTarget], weights: &[Float32]) -> (result:
    Result<bool, GltfError>)
    ensures
        gives(result, blend_needed(vertices as nat, target_models(targets@), weights@)),
{
    if targets.len() != weights.len() {
        return Err(GltfError::new("morph weight count does not match morph targets"));
    }
    let mut needed: bool = false;
    let mut i: usize = 0;
    while i < weights.len()
        invariant
            i <= weights@.len(),
            needed == (exists|j: int|
                0 <= j < i && sanitized(#[trigger] weights@[j]).magnitude() != 0),
        decreases weights@.len() - i,
    {
        let counts: bool = sanitize_morph_weight(weights[i]).parts().1 != 0;
        if counts {
            assert(sanitized(weights@[i as int]).magnitude() != 0);
        }
        needed = needed || counts;
        i += 1;
    }
    if !needed {
        return Ok(false);
    }
    let ghost all = target_models(targets@);
    let mut t: usize = 0;
    while t < targets.len()
        invariant
            t <= targets@.len(),
            all == target_models(targets@),
            targets@.len() == weights@.len(),
            some_weight_counts(weights@),
            target_problem(all, vertices as nat, 0) == target_problem(
                all,
                vertices as nat,
                t as int,
            ),
        decreases targets@.len() - t,
    {
        assert(all[t as int] == targets@[t as int]@);
        if targets[t].position_deltas.len() != vertices {
            return Err(
                GltfError::numbered("morph target ", t, " position count does not match mesh"),
            );
        }
        if let Some(normals) = &targets[t].normal_deltas {
            if normals.len() != vertices {
                return Err(
                    GltfError::numbered("morph target ", t, " normal count does not match mesh"),
                );
            }
        }
        t += 1;
    }
    Ok(true)
}

/// The normal of a vertex, straight along the third axis where it has none.
pub open spec fn normal_or_up(vertex: MeshVertex) -> Vec3 {
    match vertex.normal {
        Some(normal) => normal,
        None => Vec3 {
            x: Float32 { bits: 0 },
            y: Float32 { bits: 0 },
            z: Float32 { bits: ONE },
        },
    }
}

fn find_normal(vertex: MeshVertex) -> (result: Vec3)
    ensures
        result == normal_or_up(vertex),
{
    match vertex.normal {
        Some(normal) => normal,
        None => Vec3 {
            x: Float32 { bits: 0 },
            y: Float32 { bits: 0 },
            z: Float32 { bits: ONE },
        },
    }
}

/// The position and the normal of a vertex after the first `count` targets.
pub open spec fn blended_vertex(
    vertex: MeshVertex,
    targets: Seq<MorphModel>,
    weights: Seq<Float32>,
    index: int,
    count: int,
) -> (Vec3, Vec3)
    decreases count,
{
    if count <= 0 {
        (vertex.position, normal_or_up(vertex))
    } else {
        let before = blended_vertex(vertex, targets, weights, index, count - 1);
        let target = targets[count - 1];
        let weight = sanitized(weights[count - 1]);
        (
            before.0 + target.positions[index] * weight,
            match target.normals {
                Some(normals) => before.1 + normals[index] * weight,
                None => before.1,
            },
        )
    }
}

/// The vertices of a mesh after all targets.
pub open spec fn blended_vertices(
    vertices: Seq<MeshVertex>,
    targets: Seq<MorphModel>,
    weights: Seq<Float32>,
) -> Seq<MeshVertex> {
    Seq::new(
        vertices.len(),
        |i: int|
            {
                let (position, normal) = blended_vertex(
                    vertices[i],
                    targets,
                    weights,
                    i,
                    targets.len() as int,
                );
                plain_vertex(position, vertices[i].texcoord, Some(normal.unit()), false)
            },
    )
}

/// A mesh with its morph targets blended in.
pub open spec fn blended(mesh: MeshModel, targets: Seq<MorphModel>, weights: Seq<Float32>) -> Outcome<
    MeshModel,
> {
    match blend_needed(mesh.vertices.len(), targets, weights) {
        Err(message) => Err(message),
        Ok(false) => Ok(mesh),
        Ok(true) => Ok(
            mesh_of(blended_vertices(mesh.vertices, targets, weights), mesh.triangles),
        ),
    }
}

proof fn lemma_targets_fit(targets: Seq<MorphModel>, vertices: nat, index: int, at: int)
    requires
        0 <= index <= at < targets.len(),
        target_problem(targets, vertices, index) is None,
    ensures
        targets[at].positions.len() == vertices,
        targets[at].normals matches Some(normals) ==> normals.len() == vertices,
    decreases at - index,
{
    if index < at {
        lemma_targets_fit(targets, vertices, index + 1, at);
    }
}

fn blend_vertex(vertex: MeshVertex, targets: &[MorphTarget], weights: &[Float32], index: usize) -> (
result: MeshVertex)
    requires
        targets@.len() == weights@.len(),
        forall|t: int|
            0 <= t < targets@.len() ==> {
                &&& index < (#[trigger] targets@[t])@.positions.len()
                &&& targets@[t]@.normals matches Some(normals) ==> index < normals.len()
            },
    ensures
        ({
            let (position, normal) = blended_vertex(
                vertex,
                target_models(targets@),
                weights@,
                index as int,
                targets@.len() as int,
            );
            result == plain_vertex(position, vertex.texcoord, Some(normal.unit()), false)
        }),
{
    let ghost all = target_models(targets@);
    let mut position: Vec3 = vertex.position;
    let mut normal: Vec3 = find_normal(vertex);
    let mut t: usize = 0;
    while t < targets.len()
        invariant
            t <= targets@.len(),
            targets@.len() == weights@.len(),
            all == target_models(targets@),
            forall|t: int|
                0 <= t < targets@.len() ==> {
                    &&& index < (#[trigger] targets@[t])@.positions.len()
                    &&& targets@[t]@.normals matches Some(normals) ==> index < normals.len()
                },
            (position, normal) == blended_vertex(vertex, all, weights@, index as int, t as int),
        decreases targets@.len() - t,
    {
        let weight: Float32 = sanitize_morph_weight(weights[t]);
        let target: &MorphTarget = &targets[t];
        assert(all[t as int] == targets@[t as int]@);
        position = position + target.position_deltas[index] * weight;
        if let Some(normals) = &target.normal_deltas {
            normal = normal + normals[index] * weight;
        }
        t += 1;
    }
    MeshVertex::new(position, vertex.texcoord, Some(normal.normalize()))
}

/// Blends morph targets into a mesh.
pub fn blend_morph_targets(mesh: &Mesh, targets: &[MorphTarget], weights: &[Float32]) -> (result:
    Result<Mesh, GltfError>)
    ensures
        yields(
            result,
            blended(mesh@, target_models(targets@), weights@),
            |mesh: Mesh| mesh@,
        ),
{
    let ghost all = target_models(targets@);
    if !check_blend(mesh.vertices.len(), targets, weights)? {
        return Ok(copy_mesh(mesh));
    }
    let ghost count = mesh@.vertices.len();
    let mut vertices: Vec<MeshVertex> = Vec::new();
    let mut i: usize = 0;
    while i < mesh.vertices.len()
        invariant
            i <= mesh.vertices@.len(),
            all == target_models(targets@),
            count == mesh@.vertices.len(),
            targets@.len() == weights@.len(),
            target_problem(all, count, 0) is None,
            vertices@ =~= blended_vertices(mesh@.vertices, all, weights@).take(i as int),
        decreases mesh.vertices@.len() - i,
    {
        proof {
            assert forall|t: int| 0 <= t < targets@.len() implies {
                &&& i < (#[trigger] targets@[t])@.positions.len()
                &&& targets@[t]@.normals matches Some(normals) ==> i < normals.len()
            } by {
                lemma_targets_fit(all, count, 0, t);
                assert(all[t] == targets@[t]@);
            }
        }
        vertices.push(blend_vertex(mesh.vertices[i], targets, weights, i));
        i += 1;
    }
    assert(vertices@ =~= blended_vertices(mesh@.vertices, all, weights@));
    let triangles: Vec<[usize; 3]> = copy_corners(mesh);
    Ok(Mesh::new(vertices, triangles))
}

fn copy_corners(mesh: &Mesh) -> (result: Vec<[usize; 3]>)
    ensures
        result@ == mesh@.triangles,
{
    let mut copy: Vec<[usize; 3]> = Vec::new();
    let mut i: usize = 0;
    while i < mesh.triangles.len()
        invariant
            i <= mesh.triangles@.len(),
            copy@ =~= mesh.triangles@.take(i as int),
        decreases mesh.triangles@.len() - i,
    {
        copy.push(mesh.triangles[i]);
        i += 1;
    }
    assert(mesh.triangles@.take(mesh.triangles@.len() as int) =~= mesh.triangles@);
    copy
}

/// The value, or zero where it is less or not a number.
pub open spec fn not_below_zero(value: Float32) -> Float32 {
    greatest(value, Float32 { bits: 0 })
}

/// The sum of four values.
pub open spec fn sum_of(values: [Float32; 4]) -> Float32 {
    values[0] + values[1] + values[2] + values[3]
}

/// Skin weights that add up to one, none below zero: all zero where they are too small.
pub open spec fn normalized(weights: [Float32; 4]) -> [Float32; 4] {
    let a = not_below_zero(weights[0]);
    let b = not_below_zero(weights[1]);
    let c = not_below_zero(weights[2]);
    let d = not_below_zero(weights[3]);
    let sum = a + b + c + d;
    if sum.less(Float32 { bits: WEIGHT_TOLERANCE }) {
        let n = Float32 { bits: 0 };
        [n, n, n, n]
    } else {
        [a / sum, b / sum, c / sum, d / sum]
    }
}

/// Scales skin weights to add up to one.
pub fn normalize_weights(weights: [Float32; 4]) -> (result: [Float32; 4])
    ensures
        result == normalized(weights),
{
    let n: Float32 = Float32 { bits: 0 };
    let a: Float32 = maximum(weights[0], n);
    let b: Float32 = maximum(weights[1], n);
    let c: Float32 = maximum(weights[2], n);
    let d: Float32 = maximum(weights[3], n);
    let sum: Float32 = a + b + c + d;
    let result: [Float32; 4] = if sum.is_less(Float32 { bits: WEIGHT_TOLERANCE }) {
        [n, n, n, n]
    } else {
        [a / sum, b / sum, c / sum, d / sum]
    };
    assert(result@ =~= normalized(weights)@);
    assert(result =~= normalized(weights));
    result
}

/// Whether an animation drives a node that has a matrix.
pub open spec fn drives_matrix(asset: AssetModel, animation: Option<usize>) -> bool {
    animation matches Some(index) && index < asset.animations.len() && exists|c: int|
        0 <= c < asset.animations[index as int].channels.len()
            && asset.nodes[(#[trigger] asset.animations[index as int].channels[c]).node as int].matrix is Some
}

/// The matrix of a node: the one it has, or that of its transform.
pub open spec fn local_matrix(node: NodeModel, transform: NodeTransform) -> Mat4 {
    match node.matrix {
        Some(matrix) => matrix,
        None => transform_matrix(transform),
    }
}

/// The matrices of all nodes at some time, each relative to its parent.
pub open spec fn locals_at(
    asset: AssetModel,
    animation: Option<usize>,
    time: Float32,
    sines: Seq<Sines>,
) -> Outcome<Seq<Mat4>> {
    match transforms_at(asset, animation, time, sines) {
        Err(message) => Err(message),
        Ok(transforms) => if drives_matrix(asset, animation) {
            Err("animation channels targeting matrix nodes are unsupported"@)
        } else {
            Ok(Seq::new(asset.nodes.len(), |i: int| local_matrix(asset.nodes[i], transforms[i])))
        },
    }
}

/// The matrix that places a node in the world: those of its ancestors, from the root down, and
/// its own.
pub open spec fn world_of(
    locals: Seq<Mat4>,
    parents: Seq<Option<usize>>,
    node: int,
    steps: nat,
) -> Mat4
    decreases steps,
{
    match parents[node] {
        Some(parent) => if steps > 0 {
            world_of(locals, parents, parent as int, (steps - 1) as nat) * locals[node]
        } else {
            locals[node]
        },
        None => identity_matrix() * locals[node],
    }
}

/// The matrices that place all nodes in the world at some time.
pub open spec fn worlds_at(
    asset: AssetModel,
    animation: Option<usize>,
    time: Float32,
    sines: Seq<Sines>,
) -> Outcome<Seq<Mat4>> {
    match locals_at(asset, animation, time, sines) {
        Err(message) => Err(message),
        Ok(locals) => match forest_of(children_of(asset.nodes)) {
            Err(message) => Err(message),
            Ok(parents) => Ok(
                Seq::new(
                    asset.nodes.len(),
                    |i: int| world_of(locals, parents, i, asset.nodes.len()),
                ),
            ),
        },
    }
}

proof fn lemma_world_needs_few_steps(
    locals: Seq<Mat4>,
    parents: Seq<Option<usize>>,
    node: int,
    few: nat,
    many: nat,
)
    requires
        reaches_root(parents, node, few),
        few <= many,
    ensures
        world_of(locals, parents, node, few) == world_of(locals, parents, node, many),
    decreases few,
{
    if let Some(parent) = parents[node] {
        lemma_world_needs_few_steps(
            locals,
            parents,
            parent as int,
            (few - 1) as nat,
            (many - 1) as nat,
        );
    }
}

/// The worlds of the nodes, found in an order that has each node after its parent.
fn place_all(locals: &Vec<Mat4>, parents: &Vec<Option<usize>>, order: &Vec<usize>) -> (result: Vec<
    Mat4,
>)
    requires
        locals@.len() == parents@.len(),
        acyclic(parents@),
        parents_first(order@, parents@),
        lists_all(order@, parents@.len()),
    ensures
        result@ == Seq::new(
            parents@.len(),
            |i: int| world_of(locals@, parents@, i, parents@.len()),
        ),
{
    let ghost count = parents@.len();
    let mut worlds: Vec<Mat4> = Vec::new();
    let mut i: usize = 0;
    while i < locals.len()
        invariant
            i <= locals@.len(),
            worlds@.len() == i,
        decreases locals@.len() - i,
    {
        worlds.push(Mat4::identity());
        i += 1;
    }
    let mut k: usize = 0;
    while k < order.len()
        invariant
            k <= order@.len(),
            count == parents@.len(),
            locals@.len() == count,
            worlds@.len() == count,
            acyclic(parents@),
            parents_first(order@, parents@),
            forall|j: int|
                0 <= j < k ==> worlds@[#[trigger] order@[j] as int] == world_of(
                    locals@,
                    parents@,
                    order@[j] as int,
                    count,
                ),
        decreases order@.len() - k,
    {
        let node: usize = order[k];
        assert(order@[k as int] < parents@.len());
        let ghost before = worlds@;
        let base: Mat4 = match parents[node] {
            None => Mat4::identity(),
            Some(parent) => {
                proof {
                    assert(parents@[order@[k as int] as int] == Some(parent));
                    assert(order@.take(k as int).contains(parent));
                    let j = choose|j: int|
                        0 <= j < order@.take(k as int).len() && order@.take(k as int)[j] == parent;
                    assert(order@[j] == parent);
                    assert(order@[j] < parents@.len());
                    assert(reaches_root(parents@, node as int, count));
                    lemma_world_needs_few_steps(
                        locals@,
                        parents@,
                        parent as int,
                        (count - 1) as nat,
                        count,
                    );
                    assert(worlds@[parent as int] == world_of(
                        locals@,
                        parents@,
                        parent as int,
                        count,
                    ));
                }
                worlds[parent]
            },
        };
        worlds.set(node, base * locals[node]);
        proof {
            assert forall|j: int| 0 <= j < k + 1 implies worlds@[#[trigger] order@[j] as int]
                == world_of(locals@, parents@, order@[j] as int, count) by {
                if j < k {
                    assert(order@[j] != order@[k as int]);
                    assert(worlds@[order@[j] as int] == before[order@[j] as int]);
                }
            }
        }
        k += 1;
    }
    proof {
        assert forall|c: int| 0 <= c < count implies #[trigger] worlds@[c] == world_of(
            locals@,
            parents@,
            c,
            count,
        ) by {
            assert(order@.contains(c as usize));
            let j = choose|j: int| 0 <= j < order@.len() && order@[j] == c as usize;
            assert(worlds@[order@[j] as int] == world_of(
                locals@,
                parents@,
                order@[j] as int,
                count,
            ));
        }
        assert(worlds@ =~= Seq::new(count, |i: int| world_of(locals@, parents@, i, count)));
    }
    worlds
}

fn check_channels(asset: &GltfAsset, animation: &GltfAnimation) -> (result: bool)
    requires
        forall|c: int|
            0 <= c < animation@.channels.len() ==> (#[trigger] animation@.channels[c]).node
                < asset@.nodes.len(),
    ensures
        result == exists|c: int|
            0 <= c < animation@.channels.len()
                && asset@.nodes[(#[trigger] animation@.channels[c]).node as int].matrix is Some,
{
    let mut c: usize = 0;
    while c < animation.channels.len()
        invariant
            c <= animation.channels@.len(),
            forall|d: int|
                0 <= d < animation@.channels.len() ==> (#[trigger] animation@.channels[d]).node
                    < asset@.nodes.len(),
            forall|d: int|
                0 <= d < c
                    ==> asset@.nodes[(#[trigger] animation@.channels[d]).node as int].matrix is None,
        decreases animation.channels@.len() - c,
    {
        assert(animation@.channels[c as int].node < asset@.nodes.len());
        let node: usize = animation.channels[c].node;
        assert(asset@.nodes[node as int] == asset.nodes@[node as int]@);
        if asset.nodes[node].matrix.is_some() {
            assert(asset@.nodes[animation@.channels[c as int].node as int].matrix is Some);
            return true;
        }
        c += 1;
    }
    false
}

/// The joint of influence `i` of a vertex, where its weight counts.
pub open spec fn influence(joints: [u16; 4], weights: [Float32; 4], i: int) -> Option<usize> {
    if weights[i].magnitude() == 0 {
        None
    } else {
        Some(joints[i] as usize)
    }
}

/// The joints that move a vertex, for each of its four influences. All must exist.
pub open spec fn influences_of(joints: [u16; 4], weights: [Float32; 4], count: nat) -> Outcome<
    [Option<usize>; 4],
> {
    if forall|i: int|
        0 <= i < 4 ==> (#[trigger] influence(joints, weights, i) matches Some(joint) ==> joint
            < count) {
        Ok(
            [
                influence(joints, weights, 0),
                influence(joints, weights, 1),
                influence(joints, weights, 2),
                influence(joints, weights, 3),
            ],
        )
    } else {
        Err("vertex joint index is out of range"@)
    }
}

/// Finds the joints that move a vertex.
fn vertex_influences(joints: [u16; 4], weights: [Float32; 4], count: usize) -> (result: Result<
    [Option<usize>; 4],
    GltfError,
>)
    ensures
        gives(result, influences_of(joints, weights, count as nat)),
{
    let a: Option<usize> = find_influence(joints[0], weights[0]);
    let b: Option<usize> = find_influence(joints[1], weights[1]);
    let c: Option<usize> = find_influence(joints[2], weights[2]);
    let d: Option<usize> = find_influence(joints[3], weights[3]);
    assert(a == influence(joints, weights, 0));
    assert(b == influence(joints, weights, 1));
    assert(c == influence(joints, weights, 2));
    assert(d == influence(joints, weights, 3));
    if is_missing(a, count) || is_missing(b, count) || is_missing(c, count) || is_missing(
        d,
        count,
    ) {
        return Err(GltfError::new("vertex joint index is out of range"));
    }
    assert forall|i: int| 0 <= i < 4 implies (
    #[trigger] influence(joints, weights, i) matches Some(joint) ==> joint < count) by {
        assert(i == 0 || i == 1 || i == 2 || i == 3);
    }
    let found: [Option<usize>; 4] = [a, b, c, d];
    let ghost wanted = influences_of(joints, weights, count as nat)->Ok_0;
    assert(found@ =~= wanted@);
    assert(found =~= wanted);
    Ok(found)
}

fn find_influence(joint: u16, weight: Float32) -> (result: Option<usize>)
    ensures
        result == (if weight.magnitude() == 0 {
            None::<usize>
        } else {
            Some(joint as usize)
        }),
{
    if weight.parts().1 == 0 {
        None
    } else {
        Some(joint as usize)
    }
}

fn is_missing(joint: Option<usize>, count: usize) -> (result: bool)
    ensures
        result == (joint matches Some(index) && index >= count),
{
    match joint {
        Some(index) => index >= count,
        None => false,
    }
}

impl GltfAsset {
    /// The matrices of all nodes at some time, each relative to its parent.
    pub fn local_matrices(&self, animation: Option<usize>, time: Float32, sines: &[Sines]) -> (
    result: Result<Vec<Mat4>, GltfError>)
        requires
            can_animate(self@, animation, time),
            has_sines(self@, animation, sines@.len()),
        ensures
            yields(
                result,
                locals_at(self@, animation, time, sines@),
                |matrices: Vec<Mat4>| matrices@,
            ),
    {
        let transforms: Vec<NodeTransform> = self.sample_transforms(animation, time, sines)?;
        proof {
            lemma_transforms_keep_count(self@, animation, time, sines@);
        }
        if let Some(index) = animation {
            assert(self@.animations[index as int] == self.animations@[index as int]@);
            if check_channels(self, &self.animations[index]) {
                return Err(
                    GltfError::new("animation channels targeting matrix nodes are unsupported"),
                );
            }
        }
        let ghost wanted = Seq::new(
            self@.nodes.len(),
            |i: int| local_matrix(self@.nodes[i], transforms@[i]),
        );
        let mut matrices: Vec<Mat4> = Vec::new();
        let mut i: usize = 0;
        while i < self.nodes.len()
            invariant
                i <= self.nodes@.len(),
                transforms@.len() == self@.nodes.len(),
                wanted == Seq::new(
                    self@.nodes.len(),
                    |i: int| local_matrix(self@.nodes[i], transforms@[i]),
                ),
                matrices@ =~= wanted.take(i as int),
            decreases self.nodes@.len() - i,
        {
            assert(self@.nodes[i as int] == self.nodes@[i as int]@);
            let matrix: Mat4 = match self.nodes[i].matrix {
                Some(matrix) => matrix,
                None => transforms[i].matrix(),
            };
            matrices.push(matrix);
            i += 1;
        }
        assert(matrices@ =~= wanted);
        Ok(matrices)
    }

    /// The matrices that place all nodes in the world at some time.
    pub fn node_world_transforms(&self, animation: Option<usize>, time: Float32, sines: &[Sines]) -> (
    result: Result<Vec<Mat4>, GltfError>)
        requires
            can_animate(self@, animation, time),
            has_sines(self@, animation, sines@.len()),
        ensures
            yields(
                result,
                worlds_at(self@, animation, time, sines@),
                |matrices: Vec<Mat4>| matrices@,
            ),
    {
        let locals: Vec<Mat4> = self.local_matrices(animation, time, sines)?;
        let (order, parents): (Vec<usize>, Vec<Option<usize>>) = hierarchy_order(
            self.nodes.as_slice(),
        )?;
        assert(self.nodes.len() == self.nodes@.len());
        proof {
            law_accepted_nodes_make_a_forest(children_of(self@.nodes));
        }
        let worlds: Vec<Mat4> = place_all(&locals, &parents, &order);
        Ok(worlds)
    }
}

/// Sampling gives a transform for each node, and every channel drives one.
proof fn lemma_transforms_keep_count(
    asset: AssetModel,
    animation: Option<usize>,
    time: Float32,
    sines: Seq<Sines>,
)
    ensures
        transforms_at(asset, animation, time, sines) matches Ok(transforms) ==> {
            &&& transforms.len() == asset.nodes.len()
            &&& animation matches Some(index) ==> {
                &&& index < asset.animations.len()
                &&& forall|c: int|
                    0 <= c < asset.animations[index as int].channels.len() ==> (
                    #[trigger] asset.animations[index as int].channels[c]).node
                        < asset.nodes.len()
            }
        },
{
    if let Some(index) = animation {
        if index < asset.animations.len() {
            lemma_channels_drive_nodes(
                asset.animations[index as int],
                time,
                sines,
                0,
                rest_transforms(asset.nodes),
            );
        }
    }
}

proof fn lemma_channels_drive_nodes(
    animation: AnimationModel,
    time: Float32,
    sines: Seq<Sines>,
    index: int,
    transforms: Seq<NodeTransform>,
)
    requires
        0 <= index <= animation.channels.len(),
    ensures
        transforms_from(animation, time, sines, index, transforms) matches Ok(last) ==> {
            &&& last.len() == transforms.len()
            &&& forall|c: int|
                index <= c < animation.channels.len() ==> (
                #[trigger] animation.channels[c]).node < transforms.len()
        },
    decreases animation.channels.len() - index,
{
    if index < animation.channels.len() {
        let channel = animation.channels[index];
        if channel.node < transforms.len() && channel.sampler < animation.samplers.len() {
            if let Ok(value) = value_at(
                animation.samplers[channel.sampler as int],
                time,
                channel.path == AnimationPath::Rotation,
                sines[index],
            ) {
                lemma_channels_drive_nodes(
                    animation,
                    time,
                    sines,
                    index + 1,
                    transforms.update(
                        channel.node as int,
                        with_sample(transforms[channel.node as int], channel.path, value),
                    ),
                );
            }
        }
    }
}

/// The matrix that undoes the binding of a joint, the identity where there is none.
pub open spec fn unbinding(skin: SkinModel, joint: int) -> Mat4 {
    if joint < skin.inverse_bind_matrices.len() {
        skin.inverse_bind_matrices[joint]
    } else {
        identity_matrix()
    }
}

/// The matrices that the first `count` joints of a skin move positions and normals with.
pub open spec fn joint_matrices(worlds: Seq<Mat4>, skin: SkinModel, count: int) -> Outcome<
    Seq<(Mat4, Mat3)>,
>
    decreases count,
{
    if count <= 0 {
        Ok(Seq::empty())
    } else {
        match joint_matrices(worlds, skin, count - 1) {
            Err(message) => Err(message),
            Ok(before) => {
                let joint = skin.joints[count - 1];
                if joint >= worlds.len() {
                    Err("skin joint index is out of range"@)
                } else {
                    let matrix = worlds[joint as int] * unbinding(skin, count - 1);
                    match matrix.for_normals() {
                        None => Err("singular joint matrix cannot transform normals"@),
                        Some(normal) => Ok(before.push((matrix, normal))),
                    }
                }
            },
        }
    }
}

proof fn lemma_joint_errors_stay(worlds: Seq<Mat4>, skin: SkinModel, early: int, late: int)
    requires
        0 <= early <= late,
        joint_matrices(worlds, skin, early) is Err,
    ensures
        joint_matrices(worlds, skin, late) == joint_matrices(worlds, skin, early),
    decreases late - early,
{
    if early < late {
        lemma_joint_errors_stay(worlds, skin, early, late - 1);
    }
}

fn find_joint_matrices(worlds: &Vec<Mat4>, skin: &GltfSkin) -> (result: Result<
    Vec<(Mat4, Mat3)>,
    GltfError,
>)
    ensures
        yields(
            result,
            joint_matrices(worlds@, skin@, skin@.joints.len() as int),
            |matrices: Vec<(Mat4, Mat3)>| matrices@,
        ),
{
    let ghost count = skin@.joints.len() as int;
    let mut matrices: Vec<(Mat4, Mat3)> = Vec::new();
    let mut j: usize = 0;
    while j < skin.joints.len()
        invariant
            j <= skin.joints@.len(),
            count == skin@.joints.len(),
            joint_matrices(worlds@, skin@, j as int) == Ok::<Seq<(Mat4, Mat3)>, Seq<char>>(
                matrices@,
            ),
        decreases skin.joints@.len() - j,
    {
        let joint: usize = skin.joints[j];
        if joint >= worlds.len() {
            proof {
                assert(joint_matrices(worlds@, skin@, j + 1) is Err);
                lemma_joint_errors_stay(worlds@, skin@, j + 1, count);
            }
            return Err(GltfError::new("skin joint index is out of range"));
        }
        let inverse: Mat4 = if j < skin.inverse_bind_matrices.len() {
            skin.inverse_bind_matrices[j]
        } else {
            Mat4::identity()
        };
        let matrix: Mat4 = worlds[joint] * inverse;
        match matrix.normal_matrix() {
            None => {
                proof {
                    assert(joint_matrices(worlds@, skin@, j + 1) is Err);
                    lemma_joint_errors_stay(worlds@, skin@, j + 1, count);
                }
                return Err(GltfError::new("singular joint matrix cannot transform normals"));
            },
            Some(normal) => {
                matrices.push((matrix, normal));
            },
        }
        j += 1;
    }
    Ok(matrices)
}

/// A position as a matrix takes it.
pub open spec fn placed(matrix: Mat4, position: Vec3) -> Vec3 {
    let image = matrix.applied(
        Vec4 { x: position.x, y: position.y, z: position.z, w: Float32 { bits: ONE } },
    );
    Vec3 { x: image.x, y: image.y, z: image.z }
}

/// The position and the normal of a vertex after its first `count` influences.
pub open spec fn moved_by(
    position: Vec3,
    normal: Vec3,
    influences: [Option<usize>; 4],
    weights: [Float32; 4],
    matrices: Seq<(Mat4, Mat3)>,
    count: int,
) -> (Vec3, Vec3)
    decreases count,
{
    if count <= 0 {
        (nothing(), nothing())
    } else {
        let before = moved_by(position, normal, influences, weights, matrices, count - 1);
        match influences[count - 1] {
            None => before,
            Some(joint) => {
                let (matrix, turning) = matrices[joint as int];
                let weight = weights[count - 1];
                (
                    before.0 + placed(matrix, position) * weight,
                    before.1 + turning.applied(normal) * weight,
                )
            },
        }
    }
}

/// A vertex as the joints move it. One without weights stays.
pub open spec fn skinned_vertex(
    vertex: MeshVertex,
    joints: [u16; 4],
    given: [Float32; 4],
    matrices: Seq<(Mat4, Mat3)>,
) -> Outcome<MeshVertex> {
    let weights = normalized(given);
    match influences_of(joints, weights, matrices.len()) {
        Err(message) => Err(message),
        Ok(influences) => {
            let (position, normal) = if sum_of(weights).same_value(Float32 { bits: 0 }) {
                (vertex.position, normal_or_up(vertex))
            } else {
                moved_by(
                    vertex.position,
                    normal_or_up(vertex),
                    influences,
                    weights,
                    matrices,
                    4,
                )
            };
            Ok(plain_vertex(position, vertex.texcoord, Some(normal.unit()), false))
        },
    }
}

/// The first `count` vertices as the joints move them.
pub open spec fn skinned_vertices(
    vertices: Seq<MeshVertex>,
    joints: Seq<[u16; 4]>,
    weights: Seq<[Float32; 4]>,
    matrices: Seq<(Mat4, Mat3)>,
    count: int,
) -> Outcome<Seq<MeshVertex>>
    decreases count,
{
    if count <= 0 {
        Ok(Seq::empty())
    } else {
        match skinned_vertices(vertices, joints, weights, matrices, count - 1) {
            Err(message) => Err(message),
            Ok(before) => match skinned_vertex(
                vertices[count - 1],
                joints[count - 1],
                weights[count - 1],
                matrices,
            ) {
                Err(message) => Err(message),
                Ok(vertex) => Ok(before.push(vertex)),
            },
        }
    }
}

proof fn lemma_skin_errors_stay(
    vertices: Seq<MeshVertex>,
    joints: Seq<[u16; 4]>,
    weights: Seq<[Float32; 4]>,
    matrices: Seq<(Mat4, Mat3)>,
    early: int,
    late: int,
)
    requires
        0 <= early <= late,
        skinned_vertices(vertices, joints, weights, matrices, early) is Err,
    ensures
        skinned_vertices(vertices, joints, weights, matrices, late) == skinned_vertices(
            vertices,
            joints,
            weights,
            matrices,
            early,
        ),
    decreases late - early,
{
    if early < late {
        lemma_skin_errors_stay(vertices, joints, weights, matrices, early, late - 1);
    }
}

fn skin_vertex(
    vertex: MeshVertex,
    joints: [u16; 4],
    given: [Float32; 4],
    matrices: &Vec<(Mat4, Mat3)>,
) -> (result: Result<MeshVertex, GltfError>)
    ensures
        gives(result, skinned_vertex(vertex, joints, given, matrices@)),
{
    let weights: [Float32; 4] = normalize_weights(given);
    let influences: [Option<usize>; 4] = vertex_influences(joints, weights, matrices.len())?;
    let at: Vec3 = vertex.position;
    let along: Vec3 = find_normal(vertex);
    let sum: Float32 = weights[0] + weights[1] + weights[2] + weights[3];
    if sum.equals(Float32 { bits: 0 }) {
        return Ok(MeshVertex::new(at, vertex.texcoord, Some(along.normalize())));
    }
    let n: Float32 = Float32 { bits: 0 };
    let mut position: Vec3 = Vec3 { x: n, y: n, z: n };
    let mut normal: Vec3 = Vec3 { x: n, y: n, z: n };
    let mut i: usize = 0;
    while i < 4
        invariant
            i <= 4,
            influences_of(joints, weights, matrices@.len()) == Ok::<
                [Option<usize>; 4],
                Seq<char>,
            >(influences),
            (position, normal) == moved_by(at, along, influences, weights, matrices@, i as int),
        decreases 4 - i,
    {
        if let Some(joint) = influences[i] {
            proof {
                assert(influences[i as int] == influence(joints, weights, i as int));
                assert(influence(joints, weights, i as int) == Some(joint));
            }
            let (matrix, turning): (Mat4, Mat3) = matrices[joint];
            let image: Vec4 = matrix * Vec4 {
                x: at.x,
                y: at.y,
                z: at.z,
                w: Float32 { bits: ONE },
            };
            let weight: Float32 = weights[i];
            position = position + Vec3 { x: image.x, y: image.y, z: image.z } * weight;
            normal = normal + turning * along * weight;
        }
        i += 1;
    }
    Ok(MeshVertex::new(position, vertex.texcoord, Some(normal.normalize())))
}

/// A mesh as the joints of a skin move it.
pub open spec fn skinned(
    mesh: MeshModel,
    primitive: PrimitiveModel,
    skin: SkinModel,
    worlds: Seq<Mat4>,
) -> Outcome<MeshModel> {
    if primitive.joints.len() != mesh.vertices.len() || primitive.weights.len()
        != mesh.vertices.len() {
        Err("skin attributes do not match mesh vertices"@)
    } else {
        match joint_matrices(worlds, skin, skin.joints.len() as int) {
            Err(message) => Err(message),
            Ok(matrices) => match skinned_vertices(
                mesh.vertices,
                primitive.joints,
                primitive.weights,
                matrices,
                mesh.vertices.len() as int,
            ) {
                Err(message) => Err(message),
                Ok(vertices) => Ok(mesh_of(vertices, mesh.triangles)),
            },
        }
    }
}

fn skin_mesh(mesh: &Mesh, primitive: &GltfPrimitive, skin: &GltfSkin, worlds: &Vec<Mat4>) -> (
result: Result<Mesh, GltfError>)
    ensures
        yields(result, skinned(mesh@, primitive@, skin@, worlds@), |mesh: Mesh| mesh@),
{
    if primitive.joints.len() != mesh.vertices.len() || primitive.weights.len()
        != mesh.vertices.len() {
        return Err(GltfError::new("skin attributes do not match mesh vertices"));
    }
    let matrices: Vec<(Mat4, Mat3)> = find_joint_matrices(worlds, skin)?;
    let mut vertices: Vec<MeshVertex> = Vec::new();
    let mut i: usize = 0;
    while i < mesh.vertices.len()
        invariant
            i <= mesh.vertices@.len(),
            primitive@.joints.len() == mesh@.vertices.len(),
            primitive@.weights.len() == mesh@.vertices.len(),
            joint_matrices(worlds@, skin@, skin@.joints.len() as int) == Ok::<
                Seq<(Mat4, Mat3)>,
                Seq<char>,
            >(matrices@),
            skinned_vertices(
                mesh@.vertices,
                primitive@.joints,
                primitive@.weights,
                matrices@,
                i as int,
            ) == Ok::<Seq<MeshVertex>, Seq<char>>(vertices@),
        decreases mesh.vertices@.len() - i,
    {
        match skin_vertex(mesh.vertices[i], primitive.joints[i], primitive.weights[i], &matrices) {
            Err(error) => {
                proof {
                    assert(skinned_vertices(
                        mesh@.vertices,
                        primitive@.joints,
                        primitive@.weights,
                        matrices@,
                        i + 1,
                    ) == Err::<Seq<MeshVertex>, Seq<char>>(error.message@));
                    lemma_skin_errors_stay(
                        mesh@.vertices,
                        primitive@.joints,
                        primitive@.weights,
                        matrices@,
                        i + 1,
                        mesh@.vertices.len() as int,
                    );
                }
                return Err(error);
            },
            Ok(vertex) => {
                vertices.push(vertex);
            },
        }
        i += 1;
    }
    let triangles: Vec<[usize; 3]> = copy_corners(mesh);
    Ok(Mesh::new(vertices, triangles))
}

/// A primitive at a node, deformed by morph weights and by the skin of the node.
pub open spec fn posed(
    asset: AssetModel,
    mesh: usize,
    primitive: usize,
    node: usize,
    animation: Option<usize>,
    time: Float32,
    sines: Seq<Sines>,
    weights: Seq<Float32>,
) -> Outcome<MeshModel> {
    match primitive_at(asset, mesh, primitive) {
        Err(message) => Err(message),
        Ok(found) => if node >= asset.nodes.len() {
            Err("node index is out of range"@)
        } else {
            match blended(found.mesh, found.targets, weights) {
                Err(message) => Err(message),
                Ok(morphed) => match asset.nodes[node as int].skin {
                    None => Ok(morphed),
                    Some(skin) => match worlds_at(asset, animation, time, sines) {
                        Err(message) => Err(message),
                        Ok(worlds) => if skin >= asset.skins.len() {
                            Err("skin index is out of range"@)
                        } else {
                            skinned(morphed, found, asset.skins[skin as int], worlds)
                        },
                    },
                },
            }
        },
    }
}

impl GltfAsset {
    /// A primitive at a node at some time, deformed by morph weights and by the skin of the node.
    pub fn pose_mesh_with_weights(
        &self,
        mesh: usize,
        primitive: usize,
        node: usize,
        animation: Option<usize>,
        time: Float32,
        sines: &[Sines],
        morph_weights: &[Float32],
    ) -> (result: Result<Mesh, GltfError>)
        requires
            node < self@.nodes.len() && self@.nodes[node as int].skin is Some ==> can_animate(
                self@,
                animation,
                time,
            ),
            node < self@.nodes.len() && self@.nodes[node as int].skin is Some ==> has_sines(
                self@,
                animation,
                sines@.len(),
            ),
        ensures
            yields(
                result,
                posed(
                    self@,
                    mesh,
                    primitive,
                    node,
                    animation,
                    time,
                    sines@,
                    morph_weights@,
                ),
                |mesh: Mesh| mesh@,
            ),
    {
        let found: &GltfPrimitive = self.primitive(mesh, primitive)?;
        if node >= self.nodes.len() {
            return Err(GltfError::new("node index is out of range"));
        }
        assert(self@.nodes[node as int] == self.nodes@[node as int]@);
        let morphed: Mesh = blend_morph_targets(
            &found.mesh,
            found.morph_targets.as_slice(),
            morph_weights,
        )?;
        match self.nodes[node].skin {
            None => Ok(morphed),
            Some(skin) => {
                let worlds: Vec<Mat4> = self.node_world_transforms(animation, time, sines)?;
                if skin >= self.skins.len() {
                    return Err(GltfError::new("skin index is out of range"));
                }
                assert(self@.skins[skin as int] == self.skins@[skin as int]@);
                skin_mesh(&morphed, found, &self.skins[skin], &worlds)
            },
        }
    }

    /// A primitive at a node at some time, with the morph weights of that time.
    pub fn pose_mesh(
        &self,
        mesh: usize,
        primitive: usize,
        node: usize,
        animation: Option<usize>,
        time: Float32,
        sines: &[Sines],
    ) -> (result: Result<Mesh, GltfError>)
        requires
            can_weigh(self@, animation, time, node, mesh, primitive),
            node < self@.nodes.len() && self@.nodes[node as int].skin is Some ==> can_animate(
                self@,
                animation,
                time,
            ),
            node < self@.nodes.len() && self@.nodes[node as int].skin is Some ==> has_sines(
                self@,
                animation,
                sines@.len(),
            ),
        ensures
            yields(
                result,
                posed_now(self@, mesh, primitive, node, animation, time, sines@),
                |mesh: Mesh| mesh@,
            ),
    {
        let weights: Vec<Float32> = self.sample_morph_weights(
            animation,
            time,
            node,
            mesh,
            primitive,
        )?;
        self.pose_mesh_with_weights(
            mesh,
            primitive,
            node,
            animation,
            time,
            sines,
            weights.as_slice(),
        )
    }
}

/// A primitive at a node at some time, with the morph weights of that time.
pub open spec fn posed_now(
    asset: AssetModel,
    mesh: usize,
    primitive: usize,
    node: usize,
    animation: Option<usize>,
    time: Float32,
    sines: Seq<Sines>,
) -> Outcome<MeshModel> {
    match morph_weights_at(asset, animation, time, node, mesh, primitive) {
        Err(message) => Err(message),
        Ok(weights) => posed(asset, mesh, primitive, node, animation, time, sines, weights),
    }
}

/// Morph weights that are all zero leave a mesh as it is.
pub proof fn law_zero_weights_change_nothing(
    mesh: MeshModel,
    targets: Seq<MorphModel>,
    weights: Seq<Float32>,
)
    requires
        targets.len() == weights.len(),
        forall|i: int|
            0 <= i < weights.len() ==> sanitized(#[trigger] weights[i]).magnitude() == 0,
    ensures
        blended(mesh, targets, weights) == Ok::<MeshModel, Seq<char>>(mesh),
{
}

/// A morph target whose weight is one moves every vertex by exactly its delta.
pub proof fn law_full_weights_add_the_deltas(
    vertices: Seq<MeshVertex>,
    target: MorphModel,
    index: int,
)
    requires
        0 <= index < vertices.len(),
        target.positions.len() == vertices.len(),
        target.positions[index].x.finite(),
        target.positions[index].y.finite(),
        target.positions[index].z.finite(),
    ensures
        blended_vertices(vertices, seq![target], seq![Float32 { bits: ONE }])[index].position
            == vertices[index].position + target.positions[index],
{
    let one = Float32 { bits: ONE };
    let delta = target.positions[index];
    law_multiplying_by_one_changes_nothing(delta.x);
    law_multiplying_by_one_changes_nothing(delta.y);
    law_multiplying_by_one_changes_nothing(delta.z);
    assert(sanitized(one) == one);
    assert(delta * one == delta);
    reveal_with_fuel(blended_vertex, 2);
}

/// A node below another is placed by that one's matrix and then its own.
pub proof fn law_children_follow_their_parents(
    locals: Seq<Mat4>,
    parents: Seq<Option<usize>>,
    node: int,
)
    requires
        acyclic(parents),
        0 <= node < parents.len(),
    ensures
        parents[node] matches Some(parent) ==> world_of(locals, parents, node, parents.len())
            == world_of(locals, parents, parent as int, parents.len()) * locals[node],
        parents[node] is None ==> world_of(locals, parents, node, parents.len())
            == identity_matrix() * locals[node],
{
    if let Some(parent) = parents[node] {
        assert(reaches_root(parents, node, parents.len()));
        lemma_world_needs_few_steps(
            locals,
            parents,
            parent as int,
            (parents.len() - 1) as nat,
            parents.len(),
        );
    }
}

} // verus!
