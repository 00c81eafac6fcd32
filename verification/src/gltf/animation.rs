//! Animations: samplers, channels and the choice of keyframes.

use crate::float::Float32;
use crate::gltf::buffers::{
    component_count, read_accessor, row_contents, Accessor, AccessorKind, FLOAT,
};
use crate::gltf::collect::{collected, lemma_collected_all, lemma_collected_next};
use crate::gltf::error::{yields, GltfError, Outcome};
use crate::gltf::fields::{
    array_or_empty, as_object, get_array, get_array_or_empty, get_object, get_optional_string,
    get_string, get_text_or_empty, get_usize, object_of, optional_text, required_array,
    required_object, required_text, required_usize, text_or_empty, Members,
};
use crate::gltf::model::{mesh_models, GltfMesh, GltfMeshModel};
use crate::gltf::node::{mesh_weight_count, node_models, GltfNode, NodeModel};
use crate::gltf::streams::{
    accessor_error, accessor_name, quads, source_rows, to_quads, Source, SourceModel,
};
use crate::json::{member_models, models, Model, Value};
use crate::text::same_text;
use vstd::prelude::*;

verus! {

/// How values between two keyframes are found.
#[derive(Clone, Copy, PartialEq, Eq, Structural, Debug)]
pub enum Interpolation {
    Linear,
    Step,
}

/// What a channel animates.
#[derive(Clone, Copy, PartialEq, Eq, Structural, Debug)]
pub enum AnimationPath {
    Translation,
    Rotation,
    Scale,
    Weights,
}

/// Keyframes: times and the values at them.
#[derive(Debug, PartialEq)]
pub struct GltfAnimationSampler {
    pub input: Vec<Float32>,
    pub output: Vec<[Float32; 4]>,
    pub output_components: usize,
    pub interpolation: Interpolation,
}

/// A sampler as mathematics.
#[verifier::ext_equal]
pub struct SamplerModel {
    pub input: Seq<Float32>,
    pub output: Seq<[Float32; 4]>,
    pub output_components: usize,
    pub interpolation: Interpolation,
}

impl View for GltfAnimationSampler {
    type V = SamplerModel;

    open spec fn view(&self) -> SamplerModel {
        SamplerModel {
            input: self.input@,
            output: self.output@,
            output_components: self.output_components,
            interpolation: self.interpolation,
        }
    }
}

/// The views of a list of samplers.
pub open spec fn sampler_models(samplers: Seq<GltfAnimationSampler>) -> Seq<SamplerModel> {
    Seq::new(samplers.len(), |i: int| samplers[i]@)
}

/// A sampler applied to one property of a node.
#[derive(Clone, Copy, PartialEq, Eq, Structural, Debug)]
pub struct GltfAnimationChannel {
    pub sampler: usize,
    pub node: usize,
    pub path: AnimationPath,
}

/// An animation of a document.
#[derive(Debug, PartialEq)]
pub struct GltfAnimation {
    pub name: String,
    pub samplers: Vec<GltfAnimationSampler>,
    pub channels: Vec<GltfAnimationChannel>,
    pub duration: Float32,
}

/// An animation as mathematics.
#[verifier::ext_equal]
pub struct AnimationModel {
    pub name: Seq<char>,
    pub samplers: Seq<SamplerModel>,
    pub channels: Seq<GltfAnimationChannel>,
    pub duration: Float32,
}

impl View for GltfAnimation {
    type V = AnimationModel;

    open spec fn view(&self) -> AnimationModel {
        AnimationModel {
            name: self.name@,
            samplers: sampler_models(self.samplers@),
            channels: self.channels@,
            duration: self.duration,
        }
    }
}

/// The views of a list of animations.
pub open spec fn animation_models(animations: Seq<GltfAnimation>) -> Seq<AnimationModel> {
    Seq::new(animations.len(), |i: int| animations[i]@)
}

/// The times of a sampler.
pub open spec fn times_of(source: SourceModel, index: int) -> Outcome<Seq<Float32>> {
    if !(0 <= index < source.accessors.len()) {
        Err(accessor_name("animation input"@, index) + " is out of range"@)
    } else {
        let accessor = source.accessors[index];
        if accessor.kind != AccessorKind::Scalar || accessor.component_type != FLOAT
            || accessor.normalized {
            Err(accessor_name("animation input"@, index) + " must be FLOAT SCALAR"@)
        } else {
            match source_rows(source, index, 1) {
                Err(message) => Err(message),
                Ok(rows) => Ok(Seq::new(rows.len(), |i: int| rows[i][0])),
            }
        }
    }
}

/// The values of a sampler, with how many components each has.
pub open spec fn values_of(source: SourceModel, index: int) -> Outcome<
    (Seq<[Float32; 4]>, usize),
> {
    if !(0 <= index < source.accessors.len()) {
        Err("animation output accessor is out of range"@)
    } else {
        let accessor = source.accessors[index];
        let components = accessor.kind.components();
        if components > 4 {
            Err(
                accessor_name("animation output"@, index)
                    + " must be SCALAR, VEC2, VEC3, or VEC4"@,
            )
        } else if accessor.component_type != FLOAT || accessor.normalized {
            Err(accessor_name("animation output"@, index) + " must use FLOAT"@)
        } else {
            match source_rows(source, index, components) {
                Err(message) => Err(message),
                Ok(rows) => Ok((quads(rows), components as usize)),
            }
        }
    }
}

/// The interpolation that a sampler names, linear where it names none.
pub open spec fn interpolation_of(o: Members) -> Outcome<Interpolation> {
    match optional_text(o, "interpolation"@) {
        Err(message) => Err(message),
        Ok(None) => Ok(Interpolation::Linear),
        Ok(Some(name)) => if name == "LINEAR"@ {
            Ok(Interpolation::Linear)
        } else if name == "STEP"@ {
            Ok(Interpolation::Step)
        } else if name == "CUBICSPLINE"@ {
            Err("CUBICSPLINE animation is unsupported"@)
        } else {
            Err("unsupported animation interpolation "@ + name)
        },
    }
}

pub open spec fn sampler_from(source: SourceModel, value: Model) -> Outcome<SamplerModel> {
    match object_of(value, "animation sampler"@) {
        Err(message) => Err(message),
        Ok(o) => match required_usize(o, "input"@) {
            Err(message) => Err(message),
            Ok(input_accessor) => match times_of(source, input_accessor as int) {
                Err(message) => Err(message),
                Ok(input) => match required_usize(o, "output"@) {
                    Err(message) => Err(message),
                    Ok(output_accessor) => match values_of(source, output_accessor as int) {
                        Err(message) => Err(message),
                        Ok((output, output_components)) => match interpolation_of(o) {
                            Err(message) => Err(message),
                            Ok(interpolation) => Ok(
                                SamplerModel { input, output, output_components, interpolation },
                            ),
                        },
                    },
                },
            },
        },
    }
}

/// The property that a path name stands for.
pub open spec fn path_named(name: Seq<char>) -> Outcome<AnimationPath> {
    if name == "translation"@ {
        Ok(AnimationPath::Translation)
    } else if name == "rotation"@ {
        Ok(AnimationPath::Rotation)
    } else if name == "scale"@ {
        Ok(AnimationPath::Scale)
    } else if name == "weights"@ {
        Ok(AnimationPath::Weights)
    } else {
        Err("unsupported animation target "@ + name)
    }
}

/// A channel that animates one of `nodes` nodes.
pub open spec fn channel_from(value: Model, nodes: nat) -> Outcome<GltfAnimationChannel> {
    match object_of(value, "animation channel"@) {
        Err(message) => Err(message),
        Ok(c) => match required_object(c, "target"@) {
            Err(message) => Err(message),
            Ok(target) => match required_usize(target, "node"@) {
                Err(message) => Err(message),
                Ok(node) => if node >= nodes {
                    Err("animation target node is out of range"@)
                } else {
                    match required_text(target, "path"@) {
                        Err(message) => Err(message),
                        Ok(name) => match path_named(name) {
                            Err(message) => Err(message),
                            Ok(path) => match required_usize(c, "sampler"@) {
                                Err(message) => Err(message),
                                Ok(sampler) => Ok(GltfAnimationChannel { sampler, node, path }),
                            },
                        },
                    }
                },
            },
        },
    }
}

/// How many morph weights a channel drives.
pub open spec fn driven_weights(
    channel: GltfAnimationChannel,
    nodes: Seq<NodeModel>,
    meshes: Seq<GltfMeshModel>,
) -> nat {
    if channel.node < nodes.len() {
        mesh_weight_count(nodes[channel.node as int].mesh, meshes)
    } else {
        0
    }
}

/// Component `i` of keyframe `frame` in a list that holds `count` scalars for each keyframe.
pub open spec fn grouped_component(
    flat: Seq<[Float32; 4]>,
    frame: int,
    count: int,
    i: int,
) -> Float32 {
    if i < count {
        flat[frame * count + i][0]
    } else {
        Float32 { bits: 0 }
    }
}

/// The `count` scalars of one keyframe.
pub open spec fn grouped_value(flat: Seq<[Float32; 4]>, frame: int, count: int) -> [Float32; 4] {
    [
        grouped_component(flat, frame, count, 0),
        grouped_component(flat, frame, count, 1),
        grouped_component(flat, frame, count, 2),
        grouped_component(flat, frame, count, 3),
    ]
}

/// A sampler of scalars as one of `count` values for each keyframe.
pub open spec fn grouped(sampler: SamplerModel, count: nat) -> SamplerModel {
    SamplerModel {
        output: Seq::new(
            sampler.input.len(),
            |frame: int| grouped_value(sampler.output, frame, count as int),
        ),
        output_components: count as usize,
        ..sampler
    }
}

/// Whether a sampler has the keyframes that a vector channel needs.
pub open spec fn fits_vector(sampler: SamplerModel, components: usize) -> bool {
    sampler.output_components == components && sampler.input.len() == sampler.output.len()
}

/// Whether a sampler has `count` scalars for each keyframe.
pub open spec fn fits_weights(sampler: SamplerModel, count: nat) -> bool {
    sampler.output_components == 1 && 1 <= count <= 4 && sampler.output.len()
        == sampler.input.len() * count
}

/// The samplers once channel `index` and the following ones have been fitted to their targets.
pub open spec fn fitted_from(
    channels: Seq<GltfAnimationChannel>,
    index: int,
    samplers: Seq<SamplerModel>,
    nodes: Seq<NodeModel>,
    meshes: Seq<GltfMeshModel>,
) -> Outcome<Seq<SamplerModel>>
    decreases channels.len() - index,
{
    if !(0 <= index < channels.len()) {
        Ok(samplers)
    } else {
        let channel = channels[index];
        let count = driven_weights(channel, nodes, meshes);
        if channel.sampler >= samplers.len() {
            Err("animation channel sampler is out of range"@)
        } else {
            let sampler = samplers[channel.sampler as int];
            let fits = match channel.path {
                AnimationPath::Translation | AnimationPath::Scale => fits_vector(sampler, 3),
                AnimationPath::Rotation => fits_vector(sampler, 4),
                AnimationPath::Weights => fits_weights(sampler, count),
            };
            if !fits {
                Err("animation output type does not match its target path"@)
            } else if channel.path == AnimationPath::Weights {
                fitted_from(
                    channels,
                    index + 1,
                    samplers.update(channel.sampler as int, grouped(sampler, count)),
                    nodes,
                    meshes,
                )
            } else {
                fitted_from(channels, index + 1, samplers, nodes, meshes)
            }
        }
    }
}

/// The later of two times, where the second counts only if it is a number.
pub open spec fn later(first: Float32, second: Float32) -> Float32 {
    if first.less(second) {
        second
    } else {
        first
    }
}

/// The latest of a list of times and `start`.
pub open spec fn latest(times: Seq<Float32>, start: Float32) -> Float32
    decreases times.len(),
{
    if times.len() == 0 {
        start
    } else {
        later(latest(times.drop_last(), start), times.last())
    }
}

/// The latest time of any sampler, zero where none is later.
pub open spec fn duration_of(samplers: Seq<SamplerModel>) -> Float32
    decreases samplers.len(),
{
    if samplers.len() == 0 {
        Float32 { bits: 0 }
    } else {
        latest(samplers.last().input, duration_of(samplers.drop_last()))
    }
}

pub open spec fn samplers_from(source: SourceModel, items: Seq<Model>) -> Outcome<
    Seq<SamplerModel>,
> {
    collected(items, |i: int, value: Model| sampler_from(source, value))
}

pub open spec fn channels_from(items: Seq<Model>, nodes: nat) -> Outcome<
    Seq<GltfAnimationChannel>,
> {
    collected(items, |i: int, value: Model| channel_from(value, nodes))
}

pub open spec fn animation_from(
    source: SourceModel,
    value: Model,
    nodes: Seq<NodeModel>,
    meshes: Seq<GltfMeshModel>,
) -> Outcome<AnimationModel> {
    match object_of(value, "animation"@) {
        Err(message) => Err(message),
        Ok(o) => match required_array(o, "samplers"@) {
            Err(message) => Err(message),
            Ok(sampler_items) => match samplers_from(source, sampler_items) {
                Err(message) => Err(message),
                Ok(raw) => match required_array(o, "channels"@) {
                    Err(message) => Err(message),
                    Ok(channel_items) => match channels_from(channel_items, nodes.len()) {
                        Err(message) => Err(message),
                        Ok(channels) => match fitted_from(channels, 0, raw, nodes, meshes) {
                            Err(message) => Err(message),
                            Ok(samplers) => match text_or_empty(o, "name"@) {
                                Err(message) => Err(message),
                                Ok(name) => Ok(
                                    AnimationModel {
                                        name,
                                        samplers,
                                        channels,
                                        duration: duration_of(samplers),
                                    },
                                ),
                            },
                        },
                    },
                },
            },
        },
    }
}

pub open spec fn animations_from(
    source: SourceModel,
    o: Members,
    nodes: Seq<NodeModel>,
    meshes: Seq<GltfMeshModel>,
) -> Outcome<Seq<AnimationModel>> {
    match array_or_empty(o, "animations"@) {
        Err(message) => Err(message),
        Ok(items) => collected(
            items,
            |i: int, value: Model| animation_from(source, value, nodes, meshes),
        ),
    }
}

fn read_times(source: &Source, index: usize) -> (result: Result<Vec<Float32>, GltfError>)
    ensures
        yields(result, times_of(source@, index as int), |times: Vec<Float32>| times@),
{
    if index >= source.accessors.len() {
        return Err(accessor_error("animation input", index, " is out of range"));
    }
    let accessor: Accessor = source.accessors[index];
    if accessor.kind != AccessorKind::Scalar || accessor.component_type != FLOAT
        || accessor.normalized {
        return Err(accessor_error("animation input", index, " must be FLOAT SCALAR"));
    }
    let rows: Vec<Vec<Float32>> = read_accessor(
        source.buffers,
        source.views,
        source.accessors,
        index,
        1,
    )?;
    let ghost all = row_contents(rows@);
    assert(forall|j: int| 0 <= j < all.len() ==> (#[trigger] all[j]).len() == 1);
    let mut times: Vec<Float32> = Vec::new();
    let mut i: usize = 0;
    while i < rows.len()
        invariant
            i <= rows@.len(),
            all == row_contents(rows@),
            forall|j: int| 0 <= j < all.len() ==> (#[trigger] all[j]).len() == 1,
            times@ =~= Seq::new(i as nat, |j: int| all[j][0]),
        decreases rows@.len() - i,
    {
        assert(all[i as int] == rows@[i as int]@);
        times.push(rows[i][0]);
        i += 1;
    }
    Ok(times)
}

fn read_values(source: &Source, index: usize) -> (result: Result<
    (Vec<[Float32; 4]>, usize),
    GltfError,
>)
    ensures
        yields(
            result,
            values_of(source@, index as int),
            |values: (Vec<[Float32; 4]>, usize)| (values.0@, values.1),
        ),
{
    if index >= source.accessors.len() {
        return Err(GltfError::new("animation output accessor is out of range"));
    }
    let accessor: Accessor = source.accessors[index];
    let components: usize = component_count(accessor.kind);
    if components > 4 {
        return Err(
            accessor_error("animation output", index, " must be SCALAR, VEC2, VEC3, or VEC4"),
        );
    }
    if accessor.component_type != FLOAT || accessor.normalized {
        return Err(accessor_error("animation output", index, " must use FLOAT"));
    }
    let rows: Vec<Vec<Float32>> = read_accessor(
        source.buffers,
        source.views,
        source.accessors,
        index,
        components,
    )?;
    Ok((to_quads(&rows), components))
}

fn get_interpolation(o: &[(String, Value)]) -> (result: Result<Interpolation, GltfError>)
    ensures
        yields(result, interpolation_of(member_models(o@)), |i: Interpolation| i),
{
    match get_optional_string(o, "interpolation")? {
        None => Ok(Interpolation::Linear),
        Some(name) => {
            if same_text(name, "LINEAR") {
                Ok(Interpolation::Linear)
            } else if same_text(name, "STEP") {
                Ok(Interpolation::Step)
            } else if same_text(name, "CUBICSPLINE") {
                Err(GltfError::new("CUBICSPLINE animation is unsupported"))
            } else {
                Err(GltfError::about("unsupported animation interpolation ", name))
            }
        },
    }
}

fn parse_sampler(source: &Source, value: &Value) -> (result: Result<
    GltfAnimationSampler,
    GltfError,
>)
    ensures
        yields(
            result,
            sampler_from(source@, value@),
            |sampler: GltfAnimationSampler| sampler@,
        ),
{
    let o: &[(String, Value)] = as_object(value, "animation sampler")?;
    let input_accessor: usize = get_usize(o, "input")?;
    let input: Vec<Float32> = read_times(source, input_accessor)?;
    let output_accessor: usize = get_usize(o, "output")?;
    let (output, output_components): (Vec<[Float32; 4]>, usize) = read_values(
        source,
        output_accessor,
    )?;
    let interpolation: Interpolation = get_interpolation(o)?;
    Ok(GltfAnimationSampler { input, output, output_components, interpolation })
}

fn parse_samplers(source: &Source, items: &[Value]) -> (result: Result<
    Vec<GltfAnimationSampler>,
    GltfError,
>)
    ensures
        yields(
            result,
            samplers_from(source@, models(items@)),
            |samplers: Vec<GltfAnimationSampler>| sampler_models(samplers@),
        ),
{
    let ghost all = models(items@);
    let ghost model = source@;
    let ghost read = |i: int, value: Model| sampler_from(model, value);
    let mut samplers: Vec<GltfAnimationSampler> = Vec::new();
    let mut i: usize = 0;
    proof {
        lemma_collected_all(all, read);
        assert(sampler_models(samplers@) =~= Seq::empty());
    }
    while i < items.len()
        invariant
            i <= items@.len(),
            all == models(items@),
            model == source@,
            read == (|i: int, value: Model| sampler_from(model, value)),
            collected(all.take(i as int), read) == Ok::<Seq<SamplerModel>, Seq<char>>(
                sampler_models(samplers@),
            ),
        decreases items@.len() - i,
    {
        proof {
            lemma_collected_next(all, read, i as int);
        }
        match parse_sampler(source, &items[i]) {
            Ok(sampler) => {
                let ghost before = sampler_models(samplers@);
                let ghost found = sampler@;
                samplers.push(sampler);
                assert(sampler_models(samplers@) =~= before.push(found));
            },
            Err(error) => {
                return Err(error);
            },
        }
        i += 1;
    }
    proof {
        lemma_collected_all(all, read);
    }
    Ok(samplers)
}

fn parse_path(name: &str) -> (result: Result<AnimationPath, GltfError>)
    ensures
        yields(result, path_named(name@), |path: AnimationPath| path),
{
    if same_text(name, "translation") {
        Ok(AnimationPath::Translation)
    } else if same_text(name, "rotation") {
        Ok(AnimationPath::Rotation)
    } else if same_text(name, "scale") {
        Ok(AnimationPath::Scale)
    } else if same_text(name, "weights") {
        Ok(AnimationPath::Weights)
    } else {
        Err(GltfError::about("unsupported animation target ", name))
    }
}

fn parse_channel(value: &Value, nodes: usize) -> (result: Result<GltfAnimationChannel, GltfError>)
    ensures
        yields(
            result,
            channel_from(value@, nodes as nat),
            |channel: GltfAnimationChannel| channel,
        ),
{
    let c: &[(String, Value)] = as_object(value, "animation channel")?;
    let target: &[(String, Value)] = get_object(c, "target")?;
    let node: usize = get_usize(target, "node")?;
    if node >= nodes {
        return Err(GltfError::new("animation target node is out of range"));
    }
    let path: AnimationPath = parse_path(get_string(target, "path")?)?;
    let sampler: usize = get_usize(c, "sampler")?;
    Ok(GltfAnimationChannel { sampler, node, path })
}

fn parse_channels(items: &[Value], nodes: usize) -> (result: Result<
    Vec<GltfAnimationChannel>,
    GltfError,
>)
    ensures
        yields(
            result,
            channels_from(models(items@), nodes as nat),
            |channels: Vec<GltfAnimationChannel>| channels@,
        ),
{
    let ghost all = models(items@);
    let ghost read = |i: int, value: Model| channel_from(value, nodes as nat);
    let mut channels: Vec<GltfAnimationChannel> = Vec::new();
    let mut i: usize = 0;
    proof {
        lemma_collected_all(all, read);
    }
    while i < items.len()
        invariant
            i <= items@.len(),
            all == models(items@),
            read == (|i: int, value: Model| channel_from(value, nodes as nat)),
            collected(all.take(i as int), read) == Ok::<Seq<GltfAnimationChannel>, Seq<char>>(
                channels@,
            ),
        decreases items@.len() - i,
    {
        proof {
            lemma_collected_next(all, read, i as int);
        }
        match parse_channel(&items[i], nodes) {
            Ok(channel) => {
                channels.push(channel);
            },
            Err(error) => {
                return Err(error);
            },
        }
        i += 1;
    }
    proof {
        lemma_collected_all(all, read);
    }
    Ok(channels)
}

fn count_driven_weights(
    channel: GltfAnimationChannel,
    nodes: &[GltfNode],
    meshes: &[GltfMesh],
) -> (result: usize)
    ensures
        result == driven_weights(channel, node_models(nodes@), mesh_models(meshes@)),
{
    if channel.node >= nodes.len() {
        return 0;
    }
    match nodes[channel.node].mesh {
        Some(index) => if index < meshes.len() {
            meshes[index].weights.len()
        } else {
            0
        },
        None => 0,
    }
}

fn scalar_or_zero(
    flat: &Vec<[Float32; 4]>,
    frame: usize,
    count: usize,
    i: usize,
) -> (result: Float32)
    requires
        i < 4,
        count <= 4,
        frame * count + count <= flat@.len() <= usize::MAX,
    ensures
        result == grouped_component(flat@, frame as int, count as int, i as int),
{
    if i < count {
        assert(0 <= frame * count) by (nonlinear_arith)
            requires
                frame >= 0,
                count >= 0,
        ;
        let value: [Float32; 4] = flat[frame * count + i];
        value[0]
    } else {
        Float32 { bits: 0 }
    }
}

/// Groups the scalars of a sampler, `count` for each keyframe.
fn group_sampler(sampler: &GltfAnimationSampler, count: usize) -> (result: Vec<[Float32; 4]>)
    requires
        fits_weights(sampler@, count as nat),
    ensures
        result@ == grouped(sampler@, count as nat).output,
{
    let frames: usize = sampler.input.len();
    let flat: &Vec<[Float32; 4]> = &sampler.output;
    let ghost expected = grouped(sampler@, count as nat).output;
    let mut output: Vec<[Float32; 4]> = Vec::new();
    let mut frame: usize = 0;
    assert(flat.len() == flat@.len());
    while frame < frames
        invariant
            frame <= frames,
            1 <= count <= 4,
            frames == sampler@.input.len(),
            flat@ == sampler@.output,
            flat@.len() == frames * count,
            flat@.len() <= usize::MAX,
            expected == grouped(sampler@, count as nat).output,
            output@ =~= expected.take(frame as int),
        decreases frames - frame,
    {
        assert(frame * count + count <= frames * count) by (nonlinear_arith)
            requires
                frame + 1 <= frames,
                count >= 0,
        ;
        let value: [Float32; 4] = [
            scalar_or_zero(flat, frame, count, 0),
            scalar_or_zero(flat, frame, count, 1),
            scalar_or_zero(flat, frame, count, 2),
            scalar_or_zero(flat, frame, count, 3),
        ];
        proof {
            let wanted = grouped_value(flat@, frame as int, count as int);
            assert(value@ =~= wanted@);
            assert(value =~= wanted);
        }
        output.push(value);
        frame += 1;
    }
    assert(output@ =~= expected);
    output
}

/// Whether there are `count` scalars for each of `frames` keyframes.
fn counts_fit(scalars: usize, frames: usize, count: usize) -> (result: bool)
    ensures
        result == (1 <= count <= 4 && scalars == frames * count),
{
    if count == 0 || count > 4 {
        return false;
    }
    assert(frames * count >= 0) by (nonlinear_arith)
        requires
            frames >= 0,
            count >= 0,
    ;
    match frames.checked_mul(count) {
        Some(total) => scalars == total,
        None => false,
    }
}

/// Fits the samplers to what their channels animate.
fn fit_channels(
    channels: &Vec<GltfAnimationChannel>,
    raw: Vec<GltfAnimationSampler>,
    nodes: &[GltfNode],
    meshes: &[GltfMesh],
) -> (result: Result<Vec<GltfAnimationSampler>, GltfError>)
    ensures
        yields(
            result,
            fitted_from(
                channels@,
                0,
                sampler_models(raw@),
                node_models(nodes@),
                mesh_models(meshes@),
            ),
            |fitted: Vec<GltfAnimationSampler>| sampler_models(fitted@),
        ),
{
    let ghost known_nodes = node_models(nodes@);
    let ghost known_meshes = mesh_models(meshes@);
    let ghost start = sampler_models(raw@);
    let mut samplers: Vec<GltfAnimationSampler> = raw;
    let mut i: usize = 0;
    while i < channels.len()
        invariant
            i <= channels@.len(),
            known_nodes == node_models(nodes@),
            known_meshes == mesh_models(meshes@),
            start == sampler_models(raw@),
            fitted_from(channels@, 0, start, known_nodes, known_meshes) == fitted_from(
                channels@,
                i as int,
                sampler_models(samplers@),
                known_nodes,
                known_meshes,
            ),
        decreases channels@.len() - i,
    {
        let channel: GltfAnimationChannel = channels[i];
        let count: usize = count_driven_weights(channel, nodes, meshes);
        let ghost before = sampler_models(samplers@);
        if channel.sampler >= samplers.len() {
            return Err(GltfError::new("animation channel sampler is out of range"));
        }
        let at: usize = channel.sampler;
        let components: usize = samplers[at].output_components;
        let inputs: usize = samplers[at].input.len();
        let outputs: usize = samplers[at].output.len();
        assert(before[at as int] == samplers@[at as int]@);
        let fits: bool = match channel.path {
            AnimationPath::Translation | AnimationPath::Scale => components == 3 && inputs
                == outputs,
            AnimationPath::Rotation => components == 4 && inputs == outputs,
            AnimationPath::Weights => components == 1 && counts_fit(outputs, inputs, count),
        };
        if !fits {
            return Err(GltfError::new("animation output type does not match its target path"));
        }
        if channel.path == AnimationPath::Weights {
            let output: Vec<[Float32; 4]> = group_sampler(&samplers[at], count);
            let input: Vec<Float32> = copy_times(&samplers[at].input);
            let interpolation: Interpolation = samplers[at].interpolation;
            let regrouped: GltfAnimationSampler = GltfAnimationSampler {
                input,
                output,
                output_components: count,
                interpolation,
            };
            let ghost wanted = grouped(before[at as int], count as nat);
            assert(regrouped@ =~= wanted);
            samplers.set(at, regrouped);
            assert(sampler_models(samplers@) =~= before.update(at as int, wanted));
        }
        i += 1;
    }
    Ok(samplers)
}

fn copy_times(times: &Vec<Float32>) -> (result: Vec<Float32>)
    ensures
        result@ == times@,
{
    let mut copy: Vec<Float32> = Vec::new();
    let mut i: usize = 0;
    while i < times.len()
        invariant
            i <= times@.len(),
            copy@ =~= times@.take(i as int),
        decreases times@.len() - i,
    {
        copy.push(times[i]);
        i += 1;
    }
    assert(times@.take(times@.len() as int) =~= times@);
    copy
}

fn find_latest(times: &Vec<Float32>, start: Float32) -> (result: Float32)
    ensures
        result == latest(times@, start),
{
    let mut found: Float32 = start;
    let mut i: usize = 0;
    assert(times@.take(0).len() == 0);
    while i < times.len()
        invariant
            i <= times@.len(),
            found == latest(times@.take(i as int), start),
        decreases times@.len() - i,
    {
        proof {
            let next = times@.take(i + 1);
            assert(next.drop_last() =~= times@.take(i as int));
            assert(next.last() == times@[i as int]);
        }
        if found.is_less(times[i]) {
            found = times[i];
        }
        i += 1;
    }
    assert(times@.take(times@.len() as int) =~= times@);
    found
}

fn find_duration(samplers: &Vec<GltfAnimationSampler>) -> (result: Float32)
    ensures
        result == duration_of(sampler_models(samplers@)),
{
    let ghost all = sampler_models(samplers@);
    let mut found: Float32 = Float32 { bits: 0 };
    let mut i: usize = 0;
    assert(all.take(0).len() == 0);
    while i < samplers.len()
        invariant
            i <= samplers@.len(),
            all == sampler_models(samplers@),
            found == duration_of(all.take(i as int)),
        decreases samplers@.len() - i,
    {
        proof {
            let next = all.take(i + 1);
            assert(next.drop_last() =~= all.take(i as int));
            assert(next.last() == samplers@[i as int]@);
        }
        found = find_latest(&samplers[i].input, found);
        i += 1;
    }
    assert(all.take(all.len() as int) =~= all);
    found
}

fn parse_animation(
    source: &Source,
    value: &Value,
    nodes: &[GltfNode],
    meshes: &[GltfMesh],
) -> (result: Result<GltfAnimation, GltfError>)
    ensures
        yields(
            result,
            animation_from(source@, value@, node_models(nodes@), mesh_models(meshes@)),
            |animation: GltfAnimation| animation@,
        ),
{
    let o: &[(String, Value)] = as_object(value, "animation")?;
    let sampler_items: &[Value] = get_array(o, "samplers")?;
    let raw: Vec<GltfAnimationSampler> = parse_samplers(source, sampler_items)?;
    let channel_items: &[Value] = get_array(o, "channels")?;
    let channels: Vec<GltfAnimationChannel> = parse_channels(channel_items, nodes.len())?;
    let samplers: Vec<GltfAnimationSampler> = fit_channels(&channels, raw, nodes, meshes)?;
    let duration: Float32 = find_duration(&samplers);
    let name: String = get_text_or_empty(o, "name")?;
    Ok(GltfAnimation { name, samplers, channels, duration })
}

/// Reads the animations of a document.
pub fn parse_animations(
    source: &Source,
    object: &[(String, Value)],
    nodes: &[GltfNode],
    meshes: &[GltfMesh],
) -> (result: Result<Vec<GltfAnimation>, GltfError>)
    ensures
        yields(
            result,
            animations_from(
                source@,
                member_models(object@),
                node_models(nodes@),
                mesh_models(meshes@),
            ),
            |animations: Vec<GltfAnimation>| animation_models(animations@),
        ),
{
    let items: &[Value] = get_array_or_empty(object, "animations")?;
    let ghost all = models(items@);
    let ghost model = source@;
    let ghost known_nodes = node_models(nodes@);
    let ghost known_meshes = mesh_models(meshes@);
    let ghost read = |i: int, value: Model|
        animation_from(model, value, known_nodes, known_meshes);
    let mut animations: Vec<GltfAnimation> = Vec::new();
    let mut i: usize = 0;
    proof {
        lemma_collected_all(all, read);
        assert(animation_models(animations@) =~= Seq::empty());
    }
    while i < items.len()
        invariant
            i <= items@.len(),
            all == models(items@),
            model == source@,
            known_nodes == node_models(nodes@),
            known_meshes == mesh_models(meshes@),
            read == (|i: int, value: Model|
                animation_from(model, value, known_nodes, known_meshes)),
            animations_from(source@, member_models(object@), known_nodes, known_meshes)
                == collected(all, read),
            collected(all.take(i as int), read) == Ok::<Seq<AnimationModel>, Seq<char>>(
                animation_models(animations@),
            ),
        decreases items@.len() - i,
    {
        proof {
            lemma_collected_next(all, read, i as int);
        }
        match parse_animation(source, &items[i], nodes, meshes) {
            Ok(animation) => {
                let ghost before = animation_models(animations@);
                let ghost found = animation@;
                animations.push(animation);
                assert(animation_models(animations@) =~= before.push(found));
            },
            Err(error) => {
                return Err(error);
            },
        }
        i += 1;
    }
    proof {
        lemma_collected_all(all, read);
    }
    Ok(animations)
}

proof fn lemma_latest_covers(times: Seq<Float32>, start: Float32, i: int)
    requires
        !start.not_a_number(),
    ensures
        !latest(times, start).not_a_number(),
        start.at_most(latest(times, start)),
        0 <= i < times.len() && !times[i].not_a_number() ==> times[i].at_most(
            latest(times, start),
        ),
    decreases times.len(),
{
    if times.len() > 0 {
        lemma_latest_covers(times.drop_last(), start, i);
    }
}

/// No keyframe lies after the end of its animation, and no animation ends before time zero.
pub proof fn law_duration_covers_all_keyframes(samplers: Seq<SamplerModel>, sampler: int, key: int)
    ensures
        !duration_of(samplers).not_a_number(),
        (Float32 { bits: 0 }).at_most(duration_of(samplers)),
        0 <= sampler < samplers.len() && 0 <= key < samplers[sampler].input.len()
            && !samplers[sampler].input[key].not_a_number()
            ==> samplers[sampler].input[key].at_most(duration_of(samplers)),
    decreases samplers.len(),
{
    if samplers.len() > 0 {
        law_duration_covers_all_keyframes(samplers.drop_last(), sampler, key);
        lemma_latest_covers(samplers.last().input, duration_of(samplers.drop_last()), key);
        if 0 <= sampler < samplers.len() - 1 {
            assert(samplers.drop_last()[sampler] == samplers[sampler]);
        }
    }
}

} // verus!
