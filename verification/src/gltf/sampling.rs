//! What an animation gives at some time.
//!
//! A rotation between two keyframes goes along the shorter arc. The sines that this takes are the
//! caller's: [`GltfAsset::turns`] tells the angles, and whatever needs a rotation takes the sines.

use crate::float::{Float32, ONE};
use crate::gltf::animation::{
    AnimationModel, AnimationPath, GltfAnimation, GltfAnimationChannel, GltfAnimationSampler,
    Interpolation, SamplerModel,
};
use crate::gltf::document::{AssetModel, GltfAsset};
use crate::gltf::error::{gives, yields, GltfError, Outcome};
use crate::gltf::model::{all_sanitized, sanitize_all, GltfPrimitive, PrimitiveModel};
use crate::gltf::node::{GltfNode, NodeModel};
use crate::math::{Mat4, Quat, Vec3};
use vstd::prelude::*;

verus! {

/// Which keyframes give the value at some time.
#[derive(Clone, Copy, PartialEq, Eq, Structural, Debug)]
pub enum KeySample {
    /// The value of this keyframe.
    Hold(usize),
    /// A value between this keyframe and the next.
    Between(usize),
}

/// The first keyframe from `index` on whose successor lies after `time`, or the last that has a
/// successor.
pub open spec fn interval_from(input: Seq<Float32>, time: Float32, index: int) -> int
    decreases input.len() - index,
{
    if index + 1 >= input.len() {
        input.len() - 2
    } else if time.less(input[index + 1]) {
        index
    } else {
        interval_from(input, time, index + 1)
    }
}

/// The keyframes that give the value of a sampler at some time.
pub open spec fn keys_at(sampler: SamplerModel, time: Float32) -> Outcome<KeySample> {
    let input = sampler.input;
    if input.len() == 0 || sampler.output.len() == 0 {
        Err("animation sampler has no keyframes"@)
    } else if time.at_most(input[0]) {
        Ok(KeySample::Hold(0))
    } else if input.last().at_most(time) {
        Ok(KeySample::Hold((input.len() - 1) as usize))
    } else {
        let index = interval_from(input, time, 0) as usize;
        Ok(
            match sampler.interpolation {
                Interpolation::Step => KeySample::Hold(index),
                Interpolation::Linear => KeySample::Between(index),
            },
        )
    }
}

/// Whether a sampler can be asked for its value at some time: the keyframes that give it have values.
/// A single keyframe gives none between itself and a time that it cannot be compared with.
pub open spec fn can_sample(sampler: SamplerModel, time: Float32) -> bool {
    let input = sampler.input;
    let count = sampler.output.len();
    if input.len() == 0 || count == 0 || time.at_most(input[0]) {
        true
    } else if input.last().at_most(time) {
        input.len() <= count
    } else {
        input.len() >= 2 && match sampler.interpolation {
            Interpolation::Step => interval_from(input, time, 0) < count,
            Interpolation::Linear => interval_from(input, time, 0) + 1 < count,
        }
    }
}

impl GltfAnimationSampler {
    /// The keyframe whose successor lies after a time.
    fn interval(&self, time: Float32) -> (result: usize)
        requires
            self.input@.len() >= 2,
        ensures
            result == interval_from(self.input@, time, 0),
            result + 1 < self.input@.len(),
    {
        assert(self.input.len() == self.input@.len());
        let mut index: usize = 0;
        while index + 1 < self.input.len() && !time.is_less(self.input[index + 1])
            invariant
                index < self.input@.len() <= usize::MAX,
                interval_from(self.input@, time, 0) == interval_from(
                    self.input@,
                    time,
                    index as int,
                ),
            decreases self.input@.len() - index,
        {
            index += 1;
        }
        if index + 1 >= self.input.len() {
            index = self.input.len() - 2;
        }
        index
    }

    /// Says whether the sampler can be asked for its value at some time.
    pub fn can_be_sampled(&self, time: Float32) -> (result: bool)
        ensures
            result == can_sample(self@, time),
    {
        if self.input.len() == 0 || self.output.len() == 0 || time.is_at_most(self.input[0]) {
            return true;
        }
        let last: usize = self.input.len() - 1;
        if self.input[last].is_at_most(time) {
            return self.input.len() <= self.output.len();
        }
        if self.input.len() < 2 {
            return false;
        }
        let index: usize = self.interval(time);
        match self.interpolation {
            Interpolation::Step => index < self.output.len(),
            Interpolation::Linear => index + 1 < self.output.len(),
        }
    }

    /// Chooses the keyframes that give the value at some time.
    pub fn keyframes(&self, time: Float32) -> (result: Result<KeySample, GltfError>)
        requires
            can_sample(self@, time),
        ensures
            gives(result, keys_at(self@, time)),
    {
        if self.input.len() == 0 || self.output.len() == 0 {
            return Err(GltfError::new("animation sampler has no keyframes"));
        }
        let last: usize = self.input.len() - 1;
        if time.is_at_most(self.input[0]) {
            return Ok(KeySample::Hold(0));
        }
        if self.input[last].is_at_most(time) {
            return Ok(KeySample::Hold(last));
        }
        let index: usize = self.interval(time);
        match self.interpolation {
            Interpolation::Step => Ok(KeySample::Hold(index)),
            Interpolation::Linear => Ok(KeySample::Between(index)),
        }
    }
}

/// The chosen keyframes exist and have values: a held one, and of the one between its successor
/// too.
pub proof fn law_chosen_keyframes_exist(sampler: SamplerModel, time: Float32)
    requires
        can_sample(sampler, time),
        sampler.input.len() <= usize::MAX,
    ensures
        match keys_at(sampler, time) {
            Ok(KeySample::Hold(index)) => index < sampler.input.len() && index
                < sampler.output.len(),
            Ok(KeySample::Between(index)) => index + 1 < sampler.input.len() && index + 1
                < sampler.output.len(),
            Err(_) => sampler.input.len() == 0 || sampler.output.len() == 0,
        },
{
    if sampler.input.len() >= 2 {
        lemma_interval_bounds(sampler.input, time, 0);
    }
}

/// Of two chosen keyframes the first is at or before the time and its successor after it.
pub proof fn law_chosen_interval_holds_the_time(sampler: SamplerModel, time: Float32)
    requires
        sampler.input.len() <= usize::MAX,
        !time.not_a_number(),
        forall|i: int|
            0 <= i < sampler.input.len() ==> !(#[trigger] sampler.input[i]).not_a_number(),
    ensures
        keys_at(sampler, time) matches Ok(KeySample::Between(index)) ==> sampler.input[index as int].at_most(
            time,
        ) && time.less(sampler.input[index + 1]),
{
    if let Ok(KeySample::Between(_)) = keys_at(sampler, time) {
        lemma_interval_holds(sampler.input, time, 0);
        lemma_interval_bounds(sampler.input, time, 0);
    }
}

/// A keyframe that is chosen has a successor.
pub proof fn lemma_interval_bounds(input: Seq<Float32>, time: Float32, index: int)
    requires
        0 <= index < input.len(),
        input.len() >= 2,
    ensures
        0 <= interval_from(input, time, index) <= input.len() - 2,
    decreases input.len() - index,
{
    if index + 1 < input.len() && !time.less(input[index + 1]) {
        lemma_interval_bounds(input, time, index + 1);
    }
}

proof fn lemma_interval_holds(input: Seq<Float32>, time: Float32, index: int)
    requires
        0 <= index < input.len(),
        input.len() >= 2,
        !time.not_a_number(),
        forall|i: int| 0 <= i < input.len() ==> !(#[trigger] input[i]).not_a_number(),
        input[index].at_most(time),
        !input.last().at_most(time),
    ensures
        input[interval_from(input, time, index)].at_most(time),
        time.less(input[interval_from(input, time, index) + 1]),
    decreases input.len() - index,
{
    if index + 1 >= input.len() {
        assert(input[index] == input.last());
    } else if !time.less(input[index + 1]) {
        lemma_interval_holds(input, time, index + 1);
    }
}

/// The bits of the cosine above which two rotations are mixed as if they were vectors.
pub const ALMOST_PARALLEL: u32 = 0x3f7f_df3b;

/// The sine of the angle between two rotations, and those of the parts before and after a moment
/// between them.
#[derive(Clone, Copy, PartialEq, Debug)]
pub struct Sines {
    pub whole: Float32,
    pub first: Float32,
    pub second: Float32,
}

/// The cosine of the angle between two rotations, and the share of it that a moment is past the
/// first.
#[derive(Clone, Copy, PartialEq, Debug)]
pub struct Turn {
    pub cosine: Float32,
    pub factor: Float32,
}

/// Four values as a quaternion.
pub open spec fn quat_of(value: [Float32; 4]) -> Quat {
    Quat { x: value[0], y: value[1], z: value[2], w: value[3] }
}

/// A quaternion as four values.
pub open spec fn quad_of(q: Quat) -> [Float32; 4] {
    [q.x, q.y, q.z, q.w]
}

fn make_quat(value: [Float32; 4]) -> (result: Quat)
    ensures
        result == quat_of(value),
{
    Quat { x: value[0], y: value[1], z: value[2], w: value[3] }
}

fn make_quad(q: Quat) -> (result: [Float32; 4])
    ensures
        result == quad_of(q),
{
    let result: [Float32; 4] = [q.x, q.y, q.z, q.w];
    assert(result@ =~= quad_of(q)@);
    assert(result =~= quad_of(q));
    result
}

/// The inner product of two quaternions.
pub open spec fn inner(a: Quat, b: Quat) -> Float32 {
    a.x * b.x + a.y * b.y + a.z * b.z + a.w * b.w
}

/// The quaternion with each component negated.
pub open spec fn opposed(q: Quat) -> Quat {
    Quat { x: q.x.opposite(), y: q.y.opposite(), z: q.z.opposite(), w: q.w.opposite() }
}

/// The quaternion for the same rotation that lies on the side of another one.
pub open spec fn nearer(a: Quat, b: Quat) -> Quat {
    if inner(a, b).less(Float32 { bits: 0 }) {
        opposed(b)
    } else {
        b
    }
}

/// The cosine of the angle from a quaternion to the nearer of the two for another rotation.
pub open spec fn cosine_between(a: Quat, b: Quat) -> Float32 {
    if inner(a, b).less(Float32 { bits: 0 }) {
        inner(a, b).opposite()
    } else {
        inner(a, b)
    }
}

/// The value a share of the way from one to another, component by component.
pub open spec fn mixed(a: Quat, b: Quat, factor: Float32) -> Quat {
    Quat {
        x: a.x + (b.x - a.x) * factor,
        y: a.y + (b.y - a.y) * factor,
        z: a.z + (b.z - a.z) * factor,
        w: a.w + (b.w - a.w) * factor,
    }
}

/// Two quaternions, each with a weight.
pub open spec fn weighted(a: Quat, first: Float32, b: Quat, second: Float32) -> Quat {
    Quat {
        x: a.x * first + b.x * second,
        y: a.y * first + b.y * second,
        z: a.z * first + b.z * second,
        w: a.w * first + b.w * second,
    }
}

/// Whether two rotations are so close that they are mixed as if they were vectors.
pub open spec fn almost_parallel(a: Quat, b: Quat) -> bool {
    (Float32 { bits: ALMOST_PARALLEL }).less(cosine_between(a, b))
}

/// The rotation a share of the way from one to another, along the shorter arc.
pub open spec fn slerped(a: Quat, b: Quat, factor: Float32, sines: Sines) -> Quat {
    let end = nearer(a, b);
    if almost_parallel(a, b) {
        mixed(a, end, factor).unit()
    } else {
        weighted(a, sines.first / sines.whole, end, sines.second / sines.whole).unit()
    }
}

/// The angle that is needed to go from one rotation to another, where one is.
pub open spec fn turn_between(a: Quat, b: Quat, factor: Float32) -> Option<Turn> {
    if almost_parallel(a, b) {
        None
    } else {
        Some(
            Turn {
                cosine: cosine_between(a, b).clamped(
                    (Float32 { bits: ONE }).opposite(),
                    Float32 { bits: ONE },
                ),
                factor,
            },
        )
    }
}

fn find_inner(a: Quat, b: Quat) -> (result: Float32)
    ensures
        result == inner(a, b),
{
    a.x * b.x + a.y * b.y + a.z * b.z + a.w * b.w
}

/// The nearer quaternion for a rotation and the cosine of the angle to it.
fn find_nearer(a: Quat, b: Quat) -> (result: (Quat, Float32))
    ensures
        result == (nearer(a, b), cosine_between(a, b)),
{
    let product: Float32 = find_inner(a, b);
    if product.is_less(Float32 { bits: 0 }) {
        let end: Quat = Quat {
            x: b.x.negate(),
            y: b.y.negate(),
            z: b.z.negate(),
            w: b.w.negate(),
        };
        (end, product.negate())
    } else {
        (b, product)
    }
}

fn mix(a: Quat, b: Quat, factor: Float32) -> (result: Quat)
    ensures
        result == mixed(a, b, factor),
{
    Quat {
        x: a.x + (b.x - a.x) * factor,
        y: a.y + (b.y - a.y) * factor,
        z: a.z + (b.z - a.z) * factor,
        w: a.w + (b.w - a.w) * factor,
    }
}

/// The rotation a share of the way from one to another, along the shorter arc.
pub fn slerp(a: Quat, b: Quat, factor: Float32, sines: Sines) -> (result: Quat)
    ensures
        result == slerped(a, b, factor, sines),
{
    let (end, cosine): (Quat, Float32) = find_nearer(a, b);
    if (Float32 { bits: ALMOST_PARALLEL }).is_less(cosine) {
        return mix(a, end, factor).normalized();
    }
    let first: Float32 = sines.first / sines.whole;
    let second: Float32 = sines.second / sines.whole;
    let sum: Quat = Quat {
        x: a.x * first + end.x * second,
        y: a.y * first + end.y * second,
        z: a.z * first + end.z * second,
        w: a.w * first + end.w * second,
    };
    sum.normalized()
}

/// The angle that is needed to go from one rotation to another, where one is.
pub fn slerp_turn(a: Quat, b: Quat, factor: Float32) -> (result: Option<Turn>)
    ensures
        result == turn_between(a, b, factor),
{
    let (_, cosine): (Quat, Float32) = find_nearer(a, b);
    if (Float32 { bits: ALMOST_PARALLEL }).is_less(cosine) {
        return None;
    }
    let one: Float32 = Float32 { bits: ONE };
    Some(Turn { cosine: cosine.clamp_between(one.negate(), one), factor })
}

/// How far a time is past a keyframe, as a share of the way to the next.
pub open spec fn factor_at(input: Seq<Float32>, time: Float32, index: int) -> Float32 {
    ((time - input[index]) / (input[index + 1] - input[index])).clamped_to_unit()
}

/// The value of a sampler between keyframes as chosen.
pub open spec fn value_of(
    sampler: SamplerModel,
    time: Float32,
    keys: KeySample,
    rotation: bool,
    sines: Sines,
) -> [Float32; 4] {
    match keys {
        KeySample::Hold(index) => sampler.output[index as int],
        KeySample::Between(index) => {
            let a = quat_of(sampler.output[index as int]);
            let b = quat_of(sampler.output[index + 1]);
            let factor = factor_at(sampler.input, time, index as int);
            quad_of(
                if rotation {
                    slerped(a, b, factor, sines)
                } else {
                    mixed(a, b, factor)
                },
            )
        },
    }
}

/// The value of a sampler at some time: a rotation, or else component by component.
pub open spec fn value_at(
    sampler: SamplerModel,
    time: Float32,
    rotation: bool,
    sines: Sines,
) -> Outcome<[Float32; 4]> {
    match keys_at(sampler, time) {
        Err(message) => Err(message),
        Ok(keys) => Ok(value_of(sampler, time, keys, rotation, sines)),
    }
}

/// The angle that a sampler needs at some time for a rotation, where it needs one.
pub open spec fn turn_at(sampler: SamplerModel, time: Float32) -> Option<Turn> {
    match keys_at(sampler, time) {
        Ok(KeySample::Between(index)) => if can_sample(sampler, time) {
            turn_between(
                quat_of(sampler.output[index as int]),
                quat_of(sampler.output[index + 1]),
                factor_at(sampler.input, time, index as int),
            )
        } else {
            None
        },
        _ => None,
    }
}

impl GltfAnimationSampler {
    /// The value at some time. One of four components is a rotation.
    pub fn sample(&self, time: Float32, sines: Sines) -> (result: Result<[Float32; 4], GltfError>)
        requires
            can_sample(self@, time),
        ensures
            gives(result, value_at(self@, time, self.output_components == 4, sines)),
    {
        self.sample_with_mode(time, self.output_components == 4, sines)
    }

    /// The value at some time: a rotation, or else component by component.
    pub fn sample_with_mode(&self, time: Float32, rotation: bool, sines: Sines) -> (result: Result<
        [Float32; 4],
        GltfError,
    >)
        requires
            can_sample(self@, time),
        ensures
            gives(result, value_at(self@, time, rotation, sines)),
    {
        let keys: KeySample = match self.keyframes(time) {
            Err(error) => {
                return Err(error);
            },
            Ok(keys) => keys,
        };
        proof {
            assert(self.input.len() == self.input@.len());
            law_chosen_keyframes_exist(self@, time);
        }
        match keys {
            KeySample::Hold(index) => Ok(self.output[index]),
            KeySample::Between(index) => {
                let factor: Float32 = self.factor(time, index);
                let a: Quat = make_quat(self.output[index]);
                let b: Quat = make_quat(self.output[index + 1]);
                if rotation {
                    Ok(make_quad(slerp(a, b, factor, sines)))
                } else {
                    Ok(make_quad(mix(a, b, factor)))
                }
            },
        }
    }

    fn factor(&self, time: Float32, index: usize) -> (result: Float32)
        requires
            index + 1 < self@.input.len(),
        ensures
            result == factor_at(self@.input, time, index as int),
    {
        assert(self.input.len() == self.input@.len());
        ((time - self.input[index]) / (self.input[index + 1] - self.input[index])).clamp_to_unit()
    }

    /// The angle that a rotation needs at some time, where it needs one.
    pub fn turn(&self, time: Float32) -> (result: Option<Turn>)
        ensures
            result == turn_at(self@, time),
    {
        if !self.can_be_sampled(time) {
            return None;
        }
        proof {
            assert(self.input.len() == self.input@.len());
            law_chosen_keyframes_exist(self@, time);
        }
        match self.keyframes(time) {
            Ok(KeySample::Between(index)) => {
                let factor: Float32 = self.factor(time, index);
                let a: Quat = make_quat(self.output[index]);
                let b: Quat = make_quat(self.output[index + 1]);
                slerp_turn(a, b, factor)
            },
            _ => None,
        }
    }
}

/// The transform of a node.
#[derive(Clone, Copy, PartialEq, Debug)]
pub struct NodeTransform {
    pub translation: Vec3,
    pub rotation: [Float32; 4],
    pub scale: Vec3,
}

/// The transform that a node has at rest.
pub open spec fn rest_transform(node: NodeModel) -> NodeTransform {
    NodeTransform { translation: node.translation, rotation: node.rotation, scale: node.scale }
}

/// The transforms that all nodes have at rest.
pub open spec fn rest_transforms(nodes: Seq<NodeModel>) -> Seq<NodeTransform> {
    Seq::new(nodes.len(), |i: int| rest_transform(nodes[i]))
}

/// The transform with one property replaced by a sampled value. Weights are no part of it.
pub open spec fn with_sample(
    transform: NodeTransform,
    path: AnimationPath,
    value: [Float32; 4],
) -> NodeTransform {
    match path {
        AnimationPath::Translation => NodeTransform {
            translation: Vec3 { x: value[0], y: value[1], z: value[2] },
            ..transform
        },
        AnimationPath::Rotation => NodeTransform { rotation: value, ..transform },
        AnimationPath::Scale => NodeTransform {
            scale: Vec3 { x: value[0], y: value[1], z: value[2] },
            ..transform
        },
        AnimationPath::Weights => transform,
    }
}

/// Whether four values are the rotation by nothing.
pub open spec fn is_unturned(value: [Float32; 4]) -> bool {
    let n = Float32 { bits: 0 };
    value[0].same_value(n) && value[1].same_value(n) && value[2].same_value(n)
        && value[3].same_value(Float32 { bits: ONE })
}

/// The matrix of a transform: it scales, turns and then moves.
pub open spec fn transform_matrix(transform: NodeTransform) -> Mat4 {
    if is_unturned(transform.rotation) {
        Mat4::translation(transform.translation) * Mat4::scaling(transform.scale)
    } else {
        (Mat4::translation(transform.translation) * quat_of(transform.rotation).rotation())
            * Mat4::scaling(transform.scale)
    }
}

impl NodeTransform {
    /// The transform that a node has at rest.
    pub fn from_node(node: &GltfNode) -> (result: NodeTransform)
        ensures
            result == rest_transform(node@),
    {
        NodeTransform { translation: node.translation, rotation: node.rotation, scale: node.scale }
    }

    /// Replaces one property by a sampled value.
    pub fn apply(&mut self, path: AnimationPath, value: [Float32; 4])
        ensures
            *final(self) == with_sample(*old(self), path, value),
    {
        match path {
            AnimationPath::Translation => {
                self.translation = Vec3 { x: value[0], y: value[1], z: value[2] };
            },
            AnimationPath::Rotation => {
                self.rotation = value;
            },
            AnimationPath::Scale => {
                self.scale = Vec3 { x: value[0], y: value[1], z: value[2] };
            },
            AnimationPath::Weights => {},
        }
    }

    /// The matrix of the transform.
    pub fn matrix(self) -> (result: Mat4)
        ensures
            result == transform_matrix(self),
    {
        let n: Float32 = Float32 { bits: 0 };
        let one: Float32 = Float32 { bits: ONE };
        let r: [Float32; 4] = self.rotation;
        let moving: Mat4 = Mat4::translate(self.translation);
        let scaling: Mat4 = Mat4::scale(self.scale);
        if r[0].equals(n) && r[1].equals(n) && r[2].equals(n) && r[3].equals(one) {
            moving * scaling
        } else {
            (moving * make_quat(r).to_mat4()) * scaling
        }
    }
}

/// Whether the channels from `index` on, up to the first that is at fault, can be asked for their
/// values at some time.
pub open spec fn can_sample_from(
    animation: AnimationModel,
    time: Float32,
    nodes: nat,
    index: int,
) -> bool
    decreases animation.channels.len() - index,
{
    if !(0 <= index < animation.channels.len()) {
        true
    } else {
        let channel = animation.channels[index];
        if channel.node >= nodes || channel.sampler >= animation.samplers.len() {
            true
        } else {
            let sampler = animation.samplers[channel.sampler as int];
            can_sample(sampler, time) && (keys_at(sampler, time) is Ok ==> can_sample_from(
                animation,
                time,
                nodes,
                index + 1,
            ))
        }
    }
}

/// Whether an asset's animation can be asked for its values at some time.
pub open spec fn can_animate(asset: AssetModel, animation: Option<usize>, time: Float32) -> bool {
    animation matches Some(index) ==> (index < asset.animations.len() ==> can_sample_from(
        asset.animations[index as int],
        time,
        asset.nodes.len(),
        0,
    ))
}

/// Whether there are sines for every channel of an asset's animation.
pub open spec fn has_sines(asset: AssetModel, animation: Option<usize>, count: nat) -> bool {
    animation matches Some(index) ==> (index < asset.animations.len()
        ==> asset.animations[index as int].channels.len() <= count)
}

/// The transforms after the channels from `index` on.
pub open spec fn transforms_from(
    animation: AnimationModel,
    time: Float32,
    sines: Seq<Sines>,
    index: int,
    transforms: Seq<NodeTransform>,
) -> Outcome<Seq<NodeTransform>>
    decreases animation.channels.len() - index,
{
    if !(0 <= index < animation.channels.len()) {
        Ok(transforms)
    } else {
        let channel = animation.channels[index];
        if channel.node >= transforms.len() {
            Err("animation node index is out of range"@)
        } else if channel.sampler >= animation.samplers.len() {
            Err("animation sampler index is out of range"@)
        } else {
            match value_at(
                animation.samplers[channel.sampler as int],
                time,
                channel.path == AnimationPath::Rotation,
                sines[index],
            ) {
                Err(message) => Err(message),
                Ok(value) => transforms_from(
                    animation,
                    time,
                    sines,
                    index + 1,
                    transforms.update(
                        channel.node as int,
                        with_sample(transforms[channel.node as int], channel.path, value),
                    ),
                ),
            }
        }
    }
}

/// The transforms of all nodes of an asset at some time.
pub open spec fn transforms_at(
    asset: AssetModel,
    animation: Option<usize>,
    time: Float32,
    sines: Seq<Sines>,
) -> Outcome<Seq<NodeTransform>> {
    match animation {
        None => Ok(rest_transforms(asset.nodes)),
        Some(index) => if index >= asset.animations.len() {
            Err("animation index is out of range"@)
        } else {
            transforms_from(
                asset.animations[index as int],
                time,
                sines,
                0,
                rest_transforms(asset.nodes),
            )
        },
    }
}

/// The angle that a channel needs at some time, where it needs one.
pub open spec fn channel_turn(animation: AnimationModel, time: Float32, index: int) -> Option<Turn> {
    let channel = animation.channels[index];
    if channel.path == AnimationPath::Rotation && channel.sampler < animation.samplers.len() {
        turn_at(animation.samplers[channel.sampler as int], time)
    } else {
        None
    }
}

/// The angles that the channels of an animation need at some time.
pub open spec fn turns_at(asset: AssetModel, animation: Option<usize>, time: Float32) -> Seq<
    Option<Turn>,
> {
    match animation {
        Some(index) if index < asset.animations.len() => Seq::new(
            asset.animations[index as int].channels.len(),
            |c: int| channel_turn(asset.animations[index as int], time, c),
        ),
        _ => Seq::empty(),
    }
}

/// The weights after the weight channels of `node` from `index` on; the last one counts.
pub open spec fn weights_from(
    animation: AnimationModel,
    time: Float32,
    node: usize,
    index: int,
    weights: Seq<Float32>,
) -> Outcome<Seq<Float32>>
    decreases animation.channels.len() - index,
{
    if !(0 <= index < animation.channels.len()) {
        Ok(weights)
    } else {
        let channel = animation.channels[index];
        if channel.node != node || channel.path != AnimationPath::Weights {
            weights_from(animation, time, node, index + 1, weights)
        } else if channel.sampler >= animation.samplers.len() {
            Err("animation sampler index is out of range"@)
        } else if animation.samplers[channel.sampler as int].output_components != weights.len() {
            Err("weights animation count does not match morph targets"@)
        } else {
            match value_at(
                animation.samplers[channel.sampler as int],
                time,
                false,
                no_sines(),
            ) {
                Err(message) => Err(message),
                Ok(value) => weights_from(
                    animation,
                    time,
                    node,
                    index + 1,
                    all_sanitized(value@.take(weights.len() as int)),
                ),
            }
        }
    }
}

/// The sines of no angle.
pub open spec fn no_sines() -> Sines {
    let n = Float32 { bits: 0 };
    Sines { whole: n, first: n, second: n }
}

/// The primitive with these indices.
pub open spec fn primitive_at(asset: AssetModel, mesh: usize, primitive: usize) -> Outcome<
    PrimitiveModel,
> {
    if mesh < asset.meshes.len() && primitive < asset.meshes[mesh as int].primitives.len() {
        Ok(asset.meshes[mesh as int].primitives[primitive as int])
    } else {
        Err("mesh primitive index is out of range"@)
    }
}

/// The morph weights of a primitive at some time: those of an animation, else those of the node,
/// else its own.
pub open spec fn morph_weights_at(
    asset: AssetModel,
    animation: Option<usize>,
    time: Float32,
    node: usize,
    mesh: usize,
    primitive: usize,
) -> Outcome<Seq<Float32>> {
    match primitive_at(asset, mesh, primitive) {
        Err(message) => Err(message),
        Ok(found) => if node >= asset.nodes.len() {
            Err("node index is out of range"@)
        } else {
            let base = weights_at_rest(asset.nodes[node as int], found);
            match animation {
                None => Ok(base),
                Some(index) => if index >= asset.animations.len() {
                    Err("animation index is out of range"@)
                } else {
                    weights_from(asset.animations[index as int], time, node, 0, base)
                },
            }
        },
    }
}

/// Whether the weight channels of `node` from `index` on, up to the first that is at fault, can be
/// asked for `count` weights at some time. A sample has room for four.
pub open spec fn can_weigh_from(
    animation: AnimationModel,
    time: Float32,
    node: usize,
    index: int,
    count: nat,
) -> bool
    decreases animation.channels.len() - index,
{
    if !(0 <= index < animation.channels.len()) {
        true
    } else {
        let channel = animation.channels[index];
        if channel.node != node || channel.path != AnimationPath::Weights {
            can_weigh_from(animation, time, node, index + 1, count)
        } else if channel.sampler >= animation.samplers.len()
            || animation.samplers[channel.sampler as int].output_components != count {
            true
        } else {
            let sampler = animation.samplers[channel.sampler as int];
            can_sample(sampler, time) && (keys_at(sampler, time) is Ok ==> count <= 4
                && can_weigh_from(animation, time, node, index + 1, count))
        }
    }
}

/// The weights that a primitive has at a node before any animation.
pub open spec fn weights_at_rest(node: NodeModel, primitive: PrimitiveModel) -> Seq<Float32> {
    match node.weights {
        Some(weights) => weights,
        None => primitive.morph_weights,
    }
}

/// Whether an asset can be asked for the morph weights of a primitive at some time.
pub open spec fn can_weigh(
    asset: AssetModel,
    animation: Option<usize>,
    time: Float32,
    node: usize,
    mesh: usize,
    primitive: usize,
) -> bool {
    animation matches Some(index) ==> (primitive_at(asset, mesh, primitive) matches Ok(found) ==> (
    node < asset.nodes.len() && index < asset.animations.len() ==> can_weigh_from(
        asset.animations[index as int],
        time,
        node,
        0,
        weights_at_rest(asset.nodes[node as int], found).len(),
    )))
}

fn copy_weights(weights: &Vec<Float32>) -> (result: Vec<Float32>)
    ensures
        result@ == weights@,
{
    let mut copy: Vec<Float32> = Vec::new();
    let mut i: usize = 0;
    while i < weights.len()
        invariant
            i <= weights@.len(),
            copy@ =~= weights@.take(i as int),
        decreases weights@.len() - i,
    {
        copy.push(weights[i]);
        i += 1;
    }
    assert(weights@.take(weights@.len() as int) =~= weights@);
    copy
}

fn sample_weights(
    animation: &GltfAnimation,
    time: Float32,
    node: usize,
    base: Vec<Float32>,
) -> (result: Result<Vec<Float32>, GltfError>)
    requires
        can_weigh_from(animation@, time, node, 0, base@.len()),
    ensures
        yields(
            result,
            weights_from(animation@, time, node, 0, base@),
            |weights: Vec<Float32>| weights@,
        ),
{
    let ghost start = base@;
    let mut weights: Vec<Float32> = base;
    let mut i: usize = 0;
    while i < animation.channels.len()
        invariant
            i <= animation.channels@.len(),
            can_weigh_from(animation@, time, node, i as int, weights@.len()),
            start == base@,
            weights_from(animation@, time, node, 0, start) == weights_from(
                animation@,
                time,
                node,
                i as int,
                weights@,
            ),
        decreases animation.channels@.len() - i,
    {
        let channel: GltfAnimationChannel = animation.channels[i];
        assert(animation@.channels[i as int] == channel);
        if channel.node == node && channel.path == AnimationPath::Weights {
            if channel.sampler >= animation.samplers.len() {
                return Err(GltfError::new("animation sampler index is out of range"));
            }
            let sampler: &GltfAnimationSampler = &animation.samplers[channel.sampler];
            assert(animation@.samplers[channel.sampler as int] == sampler@);
            if sampler.output_components != weights.len() {
                return Err(GltfError::new("weights animation count does not match morph targets"));
            }
            let n: Float32 = Float32 { bits: 0 };
            let none: Sines = Sines { whole: n, first: n, second: n };
            match sampler.sample_with_mode(time, false, none) {
                Err(error) => {
                    return Err(error);
                },
                Ok(value) => {
                    let count: usize = weights.len();
                    let mut taken: Vec<Float32> = Vec::new();
                    let mut k: usize = 0;
                    while k < count
                        invariant
                            k <= count <= 4,
                            taken@ =~= value@.take(k as int),
                        decreases count - k,
                    {
                        taken.push(value[k]);
                        k += 1;
                    }
                    weights = sanitize_all(taken.as_slice());
                },
            }
        }
        i += 1;
    }
    Ok(weights)
}

fn apply_channels(
    animation: &GltfAnimation,
    time: Float32,
    sines: &[Sines],
    transforms: Vec<NodeTransform>,
) -> (result: Result<Vec<NodeTransform>, GltfError>)
    requires
        can_sample_from(animation@, time, transforms@.len(), 0),
        animation@.channels.len() <= sines@.len(),
    ensures
        yields(
            result,
            transforms_from(animation@, time, sines@, 0, transforms@),
            |transforms: Vec<NodeTransform>| transforms@,
        ),
{
    let ghost start = transforms@;
    let mut current: Vec<NodeTransform> = transforms;
    let mut i: usize = 0;
    while i < animation.channels.len()
        invariant
            i <= animation.channels@.len(),
            animation@.channels.len() <= sines@.len(),
            can_sample_from(animation@, time, current@.len(), i as int),
            start == transforms@,
            transforms_from(animation@, time, sines@, 0, start) == transforms_from(
                animation@,
                time,
                sines@,
                i as int,
                current@,
            ),
        decreases animation.channels@.len() - i,
    {
        let channel: GltfAnimationChannel = animation.channels[i];
        assert(animation@.channels[i as int] == channel);
        if channel.node >= current.len() {
            return Err(GltfError::new("animation node index is out of range"));
        }
        if channel.sampler >= animation.samplers.len() {
            return Err(GltfError::new("animation sampler index is out of range"));
        }
        let sampler: &GltfAnimationSampler = &animation.samplers[channel.sampler];
        assert(animation@.samplers[channel.sampler as int] == sampler@);
        match sampler.sample_with_mode(time, channel.path == AnimationPath::Rotation, sines[i]) {
            Err(error) => {
                return Err(error);
            },
            Ok(value) => {
                let mut transform: NodeTransform = current[channel.node];
                transform.apply(channel.path, value);
                current.set(channel.node, transform);
            },
        }
        i += 1;
    }
    Ok(current)
}

fn find_turns(animation: &GltfAnimation, time: Float32) -> (result: Vec<Option<Turn>>)
    ensures
        result@ == Seq::new(
            animation@.channels.len(),
            |c: int| channel_turn(animation@, time, c),
        ),
{
    let mut turns: Vec<Option<Turn>> = Vec::new();
    let mut i: usize = 0;
    while i < animation.channels.len()
        invariant
            i <= animation.channels@.len(),
            turns@ =~= Seq::new(i as nat, |c: int| channel_turn(animation@, time, c)),
        decreases animation.channels@.len() - i,
    {
        let channel: GltfAnimationChannel = animation.channels[i];
        assert(animation@.channels[i as int] == channel);
        if channel.path == AnimationPath::Rotation && channel.sampler < animation.samplers.len() {
            let sampler: &GltfAnimationSampler = &animation.samplers[channel.sampler];
            assert(animation@.samplers[channel.sampler as int] == sampler@);
            turns.push(sampler.turn(time));
        } else {
            turns.push(None);
        }
        i += 1;
    }
    turns
}

fn check_channels(animation: &GltfAnimation, time: Float32, nodes: usize) -> (result: bool)
    ensures
        result == can_sample_from(animation@, time, nodes as nat, 0),
{
    let mut i: usize = 0;
    while i < animation.channels.len()
        invariant
            i <= animation.channels@.len(),
            can_sample_from(animation@, time, nodes as nat, 0) == can_sample_from(
                animation@,
                time,
                nodes as nat,
                i as int,
            ),
        decreases animation.channels@.len() - i,
    {
        let channel: GltfAnimationChannel = animation.channels[i];
        assert(animation@.channels[i as int] == channel);
        if channel.node >= nodes || channel.sampler >= animation.samplers.len() {
            return true;
        }
        let sampler: &GltfAnimationSampler = &animation.samplers[channel.sampler];
        assert(animation@.samplers[channel.sampler as int] == sampler@);
        if !sampler.can_be_sampled(time) {
            return false;
        }
        if sampler.keyframes(time).is_err() {
            return true;
        }
        i += 1;
    }
    true
}

fn check_weights(animation: &GltfAnimation, time: Float32, node: usize, count: usize) -> (result:
    bool)
    ensures
        result == can_weigh_from(animation@, time, node, 0, count as nat),
{
    let mut i: usize = 0;
    while i < animation.channels.len()
        invariant
            i <= animation.channels@.len(),
            can_weigh_from(animation@, time, node, 0, count as nat) == can_weigh_from(
                animation@,
                time,
                node,
                i as int,
                count as nat,
            ),
        decreases animation.channels@.len() - i,
    {
        let channel: GltfAnimationChannel = animation.channels[i];
        assert(animation@.channels[i as int] == channel);
        if channel.node == node && channel.path == AnimationPath::Weights {
            if channel.sampler >= animation.samplers.len() {
                return true;
            }
            let sampler: &GltfAnimationSampler = &animation.samplers[channel.sampler];
            assert(animation@.samplers[channel.sampler as int] == sampler@);
            if sampler.output_components != count {
                return true;
            }
            if !sampler.can_be_sampled(time) {
                return false;
            }
            if sampler.keyframes(time).is_err() {
                return true;
            }
            if count > 4 {
                return false;
            }
        }
        i += 1;
    }
    true
}

impl GltfAsset {
    /// The primitive with these indices.
    pub fn primitive(&self, mesh: usize, primitive: usize) -> (result: Result<
        &GltfPrimitive,
        GltfError,
    >)
        ensures
            yields(
                result,
                primitive_at(self@, mesh, primitive),
                |found: &GltfPrimitive| found@,
            ),
    {
        if mesh < self.meshes.len() && primitive < self.meshes[mesh].primitives.len() {
            Ok(&self.meshes[mesh].primitives[primitive])
        } else {
            Err(GltfError::new("mesh primitive index is out of range"))
        }
    }

    /// The morph weights of a primitive at some time.
    pub fn sample_morph_weights(
        &self,
        animation: Option<usize>,
        time: Float32,
        node: usize,
        mesh: usize,
        primitive: usize,
    ) -> (result: Result<Vec<Float32>, GltfError>)
        requires
            can_weigh(self@, animation, time, node, mesh, primitive),
        ensures
            yields(
                result,
                morph_weights_at(self@, animation, time, node, mesh, primitive),
                |weights: Vec<Float32>| weights@,
            ),
    {
        let found: &GltfPrimitive = self.primitive(mesh, primitive)?;
        if node >= self.nodes.len() {
            return Err(GltfError::new("node index is out of range"));
        }
        let base: Vec<Float32> = match &self.nodes[node].weights {
            Some(weights) => copy_weights(weights),
            None => copy_weights(&found.morph_weights),
        };
        assert(self@.nodes[node as int] == self.nodes@[node as int]@);
        match animation {
            None => Ok(base),
            Some(index) => {
                if index >= self.animations.len() {
                    return Err(GltfError::new("animation index is out of range"));
                }
                assert(self@.animations[index as int] == self.animations@[index as int]@);
                sample_weights(&self.animations[index], time, node, base)
            },
        }
    }

    /// The angles that the channels of an animation need at some time, one entry for each.
    pub fn turns(&self, animation: Option<usize>, time: Float32) -> (result: Vec<Option<Turn>>)
        ensures
            result@ == turns_at(self@, animation, time),
    {
        match animation {
            Some(index) => {
                if index < self.animations.len() {
                    assert(self@.animations[index as int] == self.animations@[index as int]@);
                    find_turns(&self.animations[index], time)
                } else {
                    Vec::new()
                }
            },
            None => Vec::new(),
        }
    }

    /// Says whether an animation can be asked for its values at some time.
    pub fn can_be_animated(&self, animation: Option<usize>, time: Float32) -> (result: bool)
        ensures
            result == can_animate(self@, animation, time),
    {
        match animation {
            Some(index) => {
                if index < self.animations.len() {
                    assert(self@.animations[index as int] == self.animations@[index as int]@);
                    check_channels(&self.animations[index], time, self.nodes.len())
                } else {
                    true
                }
            },
            None => true,
        }
    }

    /// Says whether the morph weights of a primitive can be asked for at some time.
    pub fn can_be_weighed(
        &self,
        animation: Option<usize>,
        time: Float32,
        node: usize,
        mesh: usize,
        primitive: usize,
    ) -> (result: bool)
        ensures
            result == can_weigh(self@, animation, time, node, mesh, primitive),
    {
        match animation {
            None => true,
            Some(index) => {
                if node >= self.nodes.len() || index >= self.animations.len() {
                    return true;
                }
                match self.primitive(mesh, primitive) {
                    Err(_) => true,
                    Ok(found) => {
                        assert(self@.nodes[node as int] == self.nodes@[node as int]@);
                        assert(self@.animations[index as int] == self.animations@[index as int]@);
                        let count: usize = match &self.nodes[node].weights {
                            Some(weights) => weights.len(),
                            None => found.morph_weights.len(),
                        };
                        check_weights(&self.animations[index], time, node, count)
                    },
                }
            },
        }
    }

    /// The transforms that all nodes have at rest.
    pub fn rest_pose(&self) -> (result: Vec<NodeTransform>)
        ensures
            result@ == rest_transforms(self@.nodes),
    {
        let mut transforms: Vec<NodeTransform> = Vec::new();
        let mut i: usize = 0;
        while i < self.nodes.len()
            invariant
                i <= self.nodes@.len(),
                transforms@ =~= rest_transforms(self@.nodes).take(i as int),
            decreases self.nodes@.len() - i,
        {
            transforms.push(NodeTransform::from_node(&self.nodes[i]));
            i += 1;
        }
        assert(transforms@ =~= rest_transforms(self@.nodes));
        transforms
    }

    /// The transforms of all nodes at some time of an animation.
    pub fn sample_animation(&self, animation: usize, time: Float32, sines: &[Sines]) -> (result:
        Result<Vec<NodeTransform>, GltfError>)
        requires
            can_animate(self@, Some(animation), time),
            has_sines(self@, Some(animation), sines@.len()),
        ensures
            yields(
                result,
                transforms_at(self@, Some(animation), time, sines@),
                |transforms: Vec<NodeTransform>| transforms@,
            ),
    {
        self.sample_transforms(Some(animation), time, sines)
    }

    /// The transforms of all nodes at some time.
    pub fn sample_transforms(&self, animation: Option<usize>, time: Float32, sines: &[Sines]) -> (
    result: Result<Vec<NodeTransform>, GltfError>)
        requires
            can_animate(self@, animation, time),
            has_sines(self@, animation, sines@.len()),
        ensures
            yields(
                result,
                transforms_at(self@, animation, time, sines@),
                |transforms: Vec<NodeTransform>| transforms@,
            ),
    {
        let transforms: Vec<NodeTransform> = self.rest_pose();
        match animation {
            None => Ok(transforms),
            Some(index) => {
                if index >= self.animations.len() {
                    return Err(GltfError::new("animation index is out of range"));
                }
                assert(self@.animations[index as int] == self.animations@[index as int]@);
                apply_channels(&self.animations[index], time, sines, transforms)
            },
        }
    }
}

/// Sampling the same moment asks for sines exactly where a rotation between two keyframes needs
/// them: elsewhere the sines do not matter.
pub proof fn law_sines_matter_only_for_turns(
    sampler: SamplerModel,
    time: Float32,
    first: Sines,
    second: Sines,
)
    requires
        can_sample(sampler, time),
        turn_at(sampler, time) is None,
    ensures
        value_at(sampler, time, true, first) == value_at(sampler, time, true, second),
{
}

} // verus!
