//! Meshes, their primitives and their morph targets.

use crate::float::{Float32, ONE};
use crate::gltf::buffers::{or_default, AccessorKind};
use crate::gltf::collect::{collected, lemma_collected_all, lemma_collected_next};
use crate::gltf::error::{gives, yields, GltfError, Outcome};
use crate::gltf::fields::{
    array_or_empty, as_object, get_array, get_array_or_empty, get_object, get_optional_f32_array,
    get_optional_u32, get_text_or_empty, get_u32, object_of, optional_singles, optional_u32,
    required_array, required_object, required_u32, text_or_empty, values_of_optional, Members,
};
use crate::gltf::streams::{
    float_quads, indices_of, joints_of, read_float_accessor, read_indices, read_joints, Source,
    SourceModel,
};
use crate::json::{member_models, models, Model, Value};
use crate::math::{Vec2, Vec3};
use crate::mesh::{mesh_of, plain_vertex, Mesh, MeshModel, MeshVertex};
use vstd::prelude::*;

verus! {

/// Per-vertex morph deltas. They are added to the base values, not put in their place.
#[derive(Debug, PartialEq)]
pub struct MorphTarget {
    pub position_deltas: Vec<Vec3>,
    pub normal_deltas: Option<Vec<Vec3>>,
}

/// A morph target as mathematics.
#[verifier::ext_equal]
pub struct MorphModel {
    pub positions: Seq<Vec3>,
    pub normals: Option<Seq<Vec3>>,
}

impl View for MorphTarget {
    type V = MorphModel;

    open spec fn view(&self) -> MorphModel {
        MorphModel {
            positions: self.position_deltas@,
            normals: values_of_optional(self.normal_deltas),
        }
    }
}

impl MorphTarget {
    /// The target with these deltas, as many normals as positions where there are normals.
    pub fn new(position_deltas: Vec<Vec3>, normal_deltas: Option<Vec<Vec3>>) -> (result: Result<
        MorphTarget,
        GltfError,
    >)
        ensures
            match result {
                Ok(target) => target@ == (MorphModel {
                    positions: position_deltas@,
                    normals: values_of_optional(normal_deltas),
                }) && (normal_deltas matches Some(normals) ==> normals@.len()
                    == position_deltas@.len()),
                Err(error) => (normal_deltas matches Some(normals) && normals@.len()
                    != position_deltas@.len()) && error.says(
                    "morph normal deltas do not match position deltas"@,
                ),
            },
    {
        if let Some(normals) = &normal_deltas {
            if normals.len() != position_deltas.len() {
                return Err(GltfError::new("morph normal deltas do not match position deltas"));
            }
        }
        Ok(MorphTarget { position_deltas, normal_deltas })
    }
}

/// A morph weight as it is used: between zero and one, and zero where it is not finite.
pub open spec fn sanitized(value: Float32) -> Float32 {
    if value.finite() {
        value.clamped_to_unit()
    } else {
        Float32 { bits: 0 }
    }
}

/// Holds a morph weight between zero and one.
pub fn sanitize_morph_weight(value: Float32) -> (result: Float32)
    ensures
        result == sanitized(value),
{
    if value.is_finite() {
        value.clamp_to_unit()
    } else {
        Float32 { bits: 0 }
    }
}

/// Sanitizing twice does no more than sanitizing once, and gives a number from zero to one.
pub proof fn law_sanitizing_is_idempotent(value: Float32)
    ensures
        sanitized(sanitized(value)) == sanitized(value),
        (Float32 { bits: 0 }).at_most(sanitized(value)),
        sanitized(value).at_most(Float32 { bits: ONE }),
{
}

pub open spec fn all_sanitized(values: Seq<Float32>) -> Seq<Float32> {
    Seq::new(values.len(), |i: int| sanitized(values[i]))
}

pub fn sanitize_all(values: &[Float32]) -> (result: Vec<Float32>)
    ensures
        result@ == all_sanitized(values@),
{
    let mut result: Vec<Float32> = Vec::new();
    let mut i: usize = 0;
    while i < values.len()
        invariant
            i <= values@.len(),
            result@ =~= all_sanitized(values@).take(i as int),
        decreases values@.len() - i,
    {
        result.push(sanitize_morph_weight(values[i]));
        i += 1;
    }
    assert(result@ =~= all_sanitized(values@));
    result
}

/// A drawable part of a mesh.
#[derive(Debug, PartialEq)]
pub struct GltfPrimitive {
    pub mesh: Mesh,
    pub material: Option<usize>,
    pub joints: Vec<[u16; 4]>,
    pub weights: Vec<[Float32; 4]>,
    pub morph_targets: Vec<MorphTarget>,
    pub morph_weights: Vec<Float32>,
}

/// A primitive as mathematics.
#[verifier::ext_equal]
pub struct PrimitiveModel {
    pub mesh: MeshModel,
    pub material: Option<usize>,
    pub joints: Seq<[u16; 4]>,
    pub weights: Seq<[Float32; 4]>,
    pub targets: Seq<MorphModel>,
    pub morph_weights: Seq<Float32>,
}

/// The views of a list of targets.
pub open spec fn target_models(targets: Seq<MorphTarget>) -> Seq<MorphModel> {
    Seq::new(targets.len(), |i: int| targets[i]@)
}

impl View for GltfPrimitive {
    type V = PrimitiveModel;

    open spec fn view(&self) -> PrimitiveModel {
        PrimitiveModel {
            mesh: self.mesh@,
            material: self.material,
            joints: self.joints@,
            weights: self.weights@,
            targets: target_models(self.morph_targets@),
            morph_weights: self.morph_weights@,
        }
    }
}

impl GltfPrimitive {
    pub fn morph_weights(&self) -> (result: &[Float32])
        ensures
            result@ == self@.morph_weights,
    {
        self.morph_weights.as_slice()
    }

    /// Sets all morph weights, one for each target.
    pub fn set_morph_weights(&mut self, weights: &[Float32]) -> (result: Result<(), GltfError>)
        ensures
            match result {
                Ok(_) => weights@.len() == old(self)@.targets.len() && final(self)@ == (
                PrimitiveModel { morph_weights: all_sanitized(weights@), ..old(self)@ }),
                Err(error) => weights@.len() != old(self)@.targets.len() && final(self)@
                    == old(self)@ && error.says(
                    "morph weight count does not match morph targets"@,
                ),
            },
    {
        if weights.len() != self.morph_targets.len() {
            return Err(GltfError::new("morph weight count does not match morph targets"));
        }
        self.morph_weights = sanitize_all(weights);
        Ok(())
    }

    /// Sets one morph weight.
    pub fn set_morph_weight(&mut self, index: usize, weight: Float32) -> (result: Result<
        (),
        GltfError,
    >)
        ensures
            match result {
                Ok(_) => index < old(self)@.morph_weights.len() && final(self)@ == (
                PrimitiveModel {
                    morph_weights: old(self)@.morph_weights.update(
                        index as int,
                        sanitized(weight),
                    ),
                    ..old(self)@
                }),
                Err(error) => index >= old(self)@.morph_weights.len() && final(self)@ == old(
                    self,
                )@ && error.says("morph target index is out of range"@),
            },
    {
        if index >= self.morph_weights.len() {
            return Err(GltfError::new("morph target index is out of range"));
        }
        self.morph_weights.set(index, sanitize_morph_weight(weight));
        Ok(())
    }
}

/// A mesh of a document.
#[derive(Debug, PartialEq)]
pub struct GltfMesh {
    pub name: String,
    pub primitives: Vec<GltfPrimitive>,
    /// Default morph weights, one for each target of a primitive.
    pub weights: Vec<Float32>,
}

/// A mesh of a document as mathematics.
#[verifier::ext_equal]
pub struct GltfMeshModel {
    pub name: Seq<char>,
    pub primitives: Seq<PrimitiveModel>,
    pub weights: Seq<Float32>,
}

/// The views of a list of primitives.
pub open spec fn primitive_models(primitives: Seq<GltfPrimitive>) -> Seq<PrimitiveModel> {
    Seq::new(primitives.len(), |i: int| primitives[i]@)
}

impl View for GltfMesh {
    type V = GltfMeshModel;

    open spec fn view(&self) -> GltfMeshModel {
        GltfMeshModel {
            name: self.name@,
            primitives: primitive_models(self.primitives@),
            weights: self.weights@,
        }
    }
}

/// The views of a list of meshes.
pub open spec fn mesh_models(meshes: Seq<GltfMesh>) -> Seq<GltfMeshModel> {
    Seq::new(meshes.len(), |i: int| meshes[i]@)
}

/// The vertex streams of a primitive.
#[verifier::ext_equal]
pub struct StreamsModel {
    pub positions: Seq<[Float32; 4]>,
    pub normals: Option<Seq<[Float32; 4]>>,
    pub texcoords: Option<Seq<[Float32; 4]>>,
    pub joints: Seq<[u16; 4]>,
    pub weights: Seq<[Float32; 4]>,
}

/// The vertex streams of a primitive.
struct Streams {
    positions: Vec<[Float32; 4]>,
    normals: Option<Vec<[Float32; 4]>>,
    texcoords: Option<Vec<[Float32; 4]>>,
    joints: Vec<[u16; 4]>,
    weights: Vec<[Float32; 4]>,
}

impl View for Streams {
    type V = StreamsModel;

    closed spec fn view(&self) -> StreamsModel {
        StreamsModel {
            positions: self.positions@,
            normals: values_of_optional(self.normals),
            texcoords: values_of_optional(self.texcoords),
            joints: self.joints@,
            weights: self.weights@,
        }
    }
}

/// An optional float attribute.
pub open spec fn optional_quads(
    source: SourceModel,
    attributes: Members,
    name: Seq<char>,
    kind: AccessorKind,
) -> Outcome<Option<Seq<[Float32; 4]>>> {
    match optional_u32(attributes, name) {
        Err(message) => Err(message),
        Ok(None) => Ok(None),
        Ok(Some(index)) => match float_quads(source, index as int, name, kind) {
            Err(message) => Err(message),
            Ok(values) => Ok(Some(values)),
        },
    }
}

/// The joints of each vertex, all zero where the attribute is missing.
pub open spec fn joints_or_zero(source: SourceModel, attributes: Members, count: nat) -> Outcome<
    Seq<[u16; 4]>,
> {
    match optional_u32(attributes, "JOINTS_0"@) {
        Err(message) => Err(message),
        Ok(None) => Ok(Seq::new(count, |i: int| [0u16, 0u16, 0u16, 0u16])),
        Ok(Some(index)) => joints_of(source, index as int),
    }
}

/// Four zeros.
pub open spec fn zero_quad() -> [Float32; 4] {
    [Float32 { bits: 0 }, Float32 { bits: 0 }, Float32 { bits: 0 }, Float32 { bits: 0 }]
}

/// The joint weights of each vertex, all zero where the attribute is missing.
pub open spec fn weights_or_zero(source: SourceModel, attributes: Members, count: nat) -> Outcome<
    Seq<[Float32; 4]>,
> {
    match optional_quads(source, attributes, "WEIGHTS_0"@, AccessorKind::Vec4) {
        Err(message) => Err(message),
        Ok(None) => Ok(Seq::new(count, |i: int| zero_quad())),
        Ok(Some(values)) => Ok(values),
    }
}

/// Whether an optional stream has `count` entries where it is there.
pub open spec fn counts_match<T>(stream: Option<Seq<T>>, count: nat) -> bool {
    stream matches Some(values) ==> values.len() == count
}

/// The vertex streams that the attributes name. All have as many entries as there are positions.
pub open spec fn streams_of(source: SourceModel, attributes: Members) -> Outcome<StreamsModel> {
    match required_u32(attributes, "POSITION"@) {
        Err(message) => Err(message),
        Ok(index) => match float_quads(source, index as int, "POSITION"@, AccessorKind::Vec3) {
            Err(message) => Err(message),
            Ok(positions) => match optional_quads(
                source,
                attributes,
                "NORMAL"@,
                AccessorKind::Vec3,
            ) {
                Err(message) => Err(message),
                Ok(normals) => match optional_quads(
                    source,
                    attributes,
                    "TEXCOORD_0"@,
                    AccessorKind::Vec2,
                ) {
                    Err(message) => Err(message),
                    Ok(texcoords) => match joints_or_zero(source, attributes, positions.len()) {
                        Err(message) => Err(message),
                        Ok(joints) => match weights_or_zero(
                            source,
                            attributes,
                            positions.len(),
                        ) {
                            Err(message) => Err(message),
                            Ok(weights) => if !counts_match(normals, positions.len())
                                || !counts_match(texcoords, positions.len()) || joints.len()
                                != positions.len() || weights.len() != positions.len() {
                                Err("mesh attribute counts do not match POSITION"@)
                            } else {
                                Ok(
                                    StreamsModel { positions, normals, texcoords, joints, weights },
                                )
                            },
                        },
                    },
                },
            },
        },
    }
}

fn read_optional_quads(
    source: &Source,
    attributes: &[(String, Value)],
    name: &str,
    kind: AccessorKind,
) -> (result: Result<Option<Vec<[Float32; 4]>>, GltfError>)
    ensures
        yields(
            result,
            optional_quads(source@, member_models(attributes@), name@, kind),
            |values: Option<Vec<[Float32; 4]>>| values_of_optional(values),
        ),
{
    match get_optional_u32(attributes, name)? {
        None => Ok(None),
        Some(index) => Ok(Some(read_float_accessor(source, index as usize, name, kind)?)),
    }
}

fn read_joints_or_zero(source: &Source, attributes: &[(String, Value)], count: usize) -> (result:
    Result<Vec<[u16; 4]>, GltfError>)
    ensures
        yields(
            result,
            joints_or_zero(source@, member_models(attributes@), count as nat),
            |values: Vec<[u16; 4]>| values@,
        ),
{
    match get_optional_u32(attributes, "JOINTS_0")? {
        Some(index) => read_joints(source, index as usize),
        None => {
            let mut joints: Vec<[u16; 4]> = Vec::new();
            let mut i: usize = 0;
            let zero: [u16; 4] = [0, 0, 0, 0];
            while i < count
                invariant
                    i <= count,
                    zero == [0u16, 0u16, 0u16, 0u16],
                    joints@ =~= Seq::new(i as nat, |j: int| [0u16, 0u16, 0u16, 0u16]),
                decreases count - i,
            {
                joints.push(zero);
                i += 1;
            }
            Ok(joints)
        },
    }
}

fn read_weights_or_zero(source: &Source, attributes: &[(String, Value)], count: usize) -> (result:
    Result<Vec<[Float32; 4]>, GltfError>)
    ensures
        yields(
            result,
            weights_or_zero(source@, member_models(attributes@), count as nat),
            |values: Vec<[Float32; 4]>| values@,
        ),
{
    match read_optional_quads(source, attributes, "WEIGHTS_0", AccessorKind::Vec4)? {
        Some(values) => Ok(values),
        None => {
            let mut weights: Vec<[Float32; 4]> = Vec::new();
            let mut i: usize = 0;
            let n: Float32 = Float32 { bits: 0 };
            let zero: [Float32; 4] = [n, n, n, n];
            while i < count
                invariant
                    i <= count,
                    zero == zero_quad(),
                    weights@ =~= Seq::new(i as nat, |j: int| zero_quad()),
                decreases count - i,
            {
                weights.push(zero);
                i += 1;
            }
            Ok(weights)
        },
    }
}

fn read_streams(source: &Source, attributes: &[(String, Value)]) -> (result: Result<
    Streams,
    GltfError,
>)
    ensures
        yields(
            result,
            streams_of(source@, member_models(attributes@)),
            |streams: Streams| streams@,
        ),
{
    let index: u32 = get_u32(attributes, "POSITION")?;
    let positions: Vec<[Float32; 4]> = read_float_accessor(
        source,
        index as usize,
        "POSITION",
        AccessorKind::Vec3,
    )?;
    let normals: Option<Vec<[Float32; 4]>> = read_optional_quads(
        source,
        attributes,
        "NORMAL",
        AccessorKind::Vec3,
    )?;
    let texcoords: Option<Vec<[Float32; 4]>> = read_optional_quads(
        source,
        attributes,
        "TEXCOORD_0",
        AccessorKind::Vec2,
    )?;
    let joints: Vec<[u16; 4]> = read_joints_or_zero(source, attributes, positions.len())?;
    let weights: Vec<[Float32; 4]> = read_weights_or_zero(source, attributes, positions.len())?;
    let normals_match: bool = match &normals {
        Some(values) => values.len() == positions.len(),
        None => true,
    };
    let texcoords_match: bool = match &texcoords {
        Some(values) => values.len() == positions.len(),
        None => true,
    };
    if !normals_match || !texcoords_match || joints.len() != positions.len() || weights.len()
        != positions.len() {
        return Err(GltfError::new("mesh attribute counts do not match POSITION"));
    }
    Ok(Streams { positions, normals, texcoords, joints, weights })
}

/// The first three of four components.
pub open spec fn first3(value: [Float32; 4]) -> Vec3 {
    Vec3 { x: value[0], y: value[1], z: value[2] }
}

/// The first two of four components.
pub open spec fn first2(value: [Float32; 4]) -> Vec2 {
    Vec2 { x: value[0], y: value[1] }
}

/// Vertex `i` of the streams.
pub open spec fn stream_vertex(streams: StreamsModel, i: int) -> MeshVertex {
    plain_vertex(
        first3(streams.positions[i]),
        match streams.texcoords {
            Some(values) => Some(first2(values[i])),
            None => None,
        },
        match streams.normals {
            Some(values) => Some(first3(values[i])),
            None => None,
        },
        false,
    )
}

pub open spec fn stream_vertices(streams: StreamsModel) -> Seq<MeshVertex> {
    Seq::new(streams.positions.len(), |i: int| stream_vertex(streams, i))
}

/// The triangles that a list of indices makes, three each.
pub open spec fn triangles_of(indices: Seq<usize>) -> Seq<[usize; 3]> {
    Seq::new(
        indices.len() / 3,
        |i: int| [indices[3 * i], indices[3 * i + 1], indices[3 * i + 2]],
    )
}

/// Whether a list of indices makes whole triangles of `count` vertices.
pub open spec fn valid_indices(indices: Seq<usize>, count: nat) -> bool {
    indices.len() % 3 == 0 && forall|i: int|
        0 <= i < indices.len() ==> #[trigger] indices[i] < count
}

/// The indices of a primitive; all vertices in order where it names none.
pub open spec fn primitive_indices(source: SourceModel, o: Members, count: nat) -> Outcome<
    Seq<usize>,
> {
    let found = match optional_u32(o, "indices"@) {
        Err(message) => Err(message),
        Ok(None) => Ok(Seq::new(count, |i: int| i as usize)),
        Ok(Some(index)) => indices_of(source, index as int),
    };
    match found {
        Err(message) => Err(message),
        Ok(indices) => if valid_indices(indices, count) {
            Ok(indices)
        } else {
            Err("primitive indices are invalid"@)
        },
    }
}

pub open spec fn all_first3(values: Seq<[Float32; 4]>) -> Seq<Vec3> {
    Seq::new(values.len(), |i: int| first3(values[i]))
}

/// A morph target of a primitive with `count` vertices.
pub open spec fn target_from(source: SourceModel, value: Model, count: nat) -> Outcome<MorphModel> {
    match object_of(value, "morph target"@) {
        Err(message) => Err(message),
        Ok(o) => match required_u32(o, "POSITION"@) {
            Err(message) => Err(message),
            Ok(index) => match float_quads(source, index as int, "POSITION"@, AccessorKind::Vec3) {
                Err(message) => Err(message),
                Ok(positions) => match optional_quads(
                    source,
                    o,
                    "NORMAL"@,
                    AccessorKind::Vec3,
                ) {
                    Err(message) => Err(message),
                    Ok(normals) => if positions.len() != count || !counts_match(normals, count) {
                        Err("morph target counts do not match POSITION"@)
                    } else {
                        Ok(
                            MorphModel {
                                positions: all_first3(positions),
                                normals: match normals {
                                    Some(values) => Some(all_first3(values)),
                                    None => None,
                                },
                            },
                        )
                    },
                },
            },
        },
    }
}

/// The morph targets of a primitive with `count` vertices.
pub open spec fn targets_from(source: SourceModel, o: Members, count: nat) -> Outcome<
    Seq<MorphModel>,
> {
    match array_or_empty(o, "targets"@) {
        Err(message) => Err(message),
        Ok(items) => collected(items, |i: int, value: Model| target_from(source, value, count)),
    }
}

/// As many zeros.
pub open spec fn zeros(count: nat) -> Seq<Float32> {
    Seq::new(count, |i: int| Float32 { bits: 0 })
}

/// A primitive, with zero morph weights.
pub open spec fn primitive_from(source: SourceModel, o: Members) -> Outcome<PrimitiveModel> {
    match optional_u32(o, "mode"@) {
        Err(message) => Err(message),
        Ok(mode) => if or_default(mode, 4) != 4 {
            Err("only TRIANGLES primitives are supported"@)
        } else {
            match required_object(o, "attributes"@) {
                Err(message) => Err(message),
                Ok(attributes) => match streams_of(source, attributes) {
                    Err(message) => Err(message),
                    Ok(streams) => match primitive_indices(source, o, streams.positions.len()) {
                        Err(message) => Err(message),
                        Ok(indices) => match targets_from(source, o, streams.positions.len()) {
                            Err(message) => Err(message),
                            Ok(targets) => match optional_u32(o, "material"@) {
                                Err(message) => Err(message),
                                Ok(material) => Ok(
                                    PrimitiveModel {
                                        mesh: mesh_of(
                                            stream_vertices(streams),
                                            triangles_of(indices),
                                        ),
                                        material: match material {
                                            Some(index) => Some(index as usize),
                                            None => None,
                                        },
                                        joints: streams.joints,
                                        weights: streams.weights,
                                        targets,
                                        morph_weights: zeros(targets.len()),
                                    },
                                ),
                            },
                        },
                    },
                },
            }
        },
    }
}

fn vector3(value: [Float32; 4]) -> (result: Vec3)
    ensures
        result == first3(value),
{
    Vec3 { x: value[0], y: value[1], z: value[2] }
}

fn vectors3(values: &Vec<[Float32; 4]>) -> (result: Vec<Vec3>)
    ensures
        result@ == all_first3(values@),
{
    let mut result: Vec<Vec3> = Vec::new();
    let mut i: usize = 0;
    while i < values.len()
        invariant
            i <= values@.len(),
            result@ =~= all_first3(values@).take(i as int),
        decreases values@.len() - i,
    {
        result.push(vector3(values[i]));
        i += 1;
    }
    assert(result@ =~= all_first3(values@));
    result
}

fn make_vertices(streams: &Streams) -> (result: Vec<MeshVertex>)
    requires
        counts_match(streams@.normals, streams@.positions.len()),
        counts_match(streams@.texcoords, streams@.positions.len()),
    ensures
        result@ == stream_vertices(streams@),
{
    let mut vertices: Vec<MeshVertex> = Vec::new();
    let mut i: usize = 0;
    while i < streams.positions.len()
        invariant
            i <= streams.positions@.len(),
            counts_match(streams@.normals, streams@.positions.len()),
            counts_match(streams@.texcoords, streams@.positions.len()),
            vertices@ =~= stream_vertices(streams@).take(i as int),
        decreases streams.positions@.len() - i,
    {
        let texcoord: Option<Vec2> = match &streams.texcoords {
            Some(values) => {
                let value: [Float32; 4] = values[i];
                Some(Vec2 { x: value[0], y: value[1] })
            },
            None => None,
        };
        let normal: Option<Vec3> = match &streams.normals {
            Some(values) => Some(vector3(values[i])),
            None => None,
        };
        vertices.push(MeshVertex::new(vector3(streams.positions[i]), texcoord, normal));
        i += 1;
    }
    assert(vertices@ =~= stream_vertices(streams@));
    vertices
}

fn make_triangles(indices: &Vec<usize>) -> (result: Vec<[usize; 3]>)
    ensures
        result@ == triangles_of(indices@),
{
    let count: usize = indices.len() / 3;
    let mut triangles: Vec<[usize; 3]> = Vec::new();
    let mut i: usize = 0;
    while i < count
        invariant
            i <= count,
            count == indices@.len() / 3,
            indices@.len() <= usize::MAX,
            triangles@ =~= triangles_of(indices@).take(i as int),
        decreases count - i,
    {
        let triangle: [usize; 3] = [indices[3 * i], indices[3 * i + 1], indices[3 * i + 2]];
        proof {
            assert(triangle@ =~= triangles_of(indices@)[i as int]@);
            assert(triangle =~= triangles_of(indices@)[i as int]);
        }
        triangles.push(triangle);
        i += 1;
    }
    assert(triangles@ =~= triangles_of(indices@));
    triangles
}

fn read_primitive_indices(source: &Source, o: &[(String, Value)], count: usize) -> (result: Result<
    Vec<usize>,
    GltfError,
>)
    ensures
        yields(
            result,
            primitive_indices(source@, member_models(o@), count as nat),
            |values: Vec<usize>| values@,
        ),
{
    let indices: Vec<usize> = match get_optional_u32(o, "indices")? {
        Some(index) => read_indices(source, index as usize)?,
        None => {
            let mut all: Vec<usize> = Vec::new();
            let mut i: usize = 0;
            while i < count
                invariant
                    i <= count,
                    all@ =~= Seq::new(i as nat, |j: int| j as usize),
                decreases count - i,
            {
                all.push(i);
                i += 1;
            }
            all
        },
    };
    if indices.len() % 3 != 0 {
        return Err(GltfError::new("primitive indices are invalid"));
    }
    let mut i: usize = 0;
    let ghost all = indices@;
    while i < indices.len()
        invariant
            i <= indices@.len(),
            all == indices@,
            all.len() % 3 == 0,
            primitive_indices(source@, member_models(o@), count as nat) == (if valid_indices(
                all,
                count as nat,
            ) {
                Ok::<Seq<usize>, Seq<char>>(all)
            } else {
                Err("primitive indices are invalid"@)
            }),
            forall|j: int| 0 <= j < i ==> #[trigger] all[j] < count,
        decreases indices@.len() - i,
    {
        if indices[i] >= count {
            assert(all[i as int] >= count);
            assert(!valid_indices(all, count as nat));
            return Err(GltfError::new("primitive indices are invalid"));
        }
        i += 1;
    }
    Ok(indices)
}

fn parse_target(source: &Source, value: &Value, count: usize) -> (result: Result<
    MorphTarget,
    GltfError,
>)
    ensures
        yields(
            result,
            target_from(source@, value@, count as nat),
            |target: MorphTarget| target@,
        ),
{
    let o: &[(String, Value)] = as_object(value, "morph target")?;
    let index: u32 = get_u32(o, "POSITION")?;
    let positions: Vec<[Float32; 4]> = read_float_accessor(
        source,
        index as usize,
        "POSITION",
        AccessorKind::Vec3,
    )?;
    let normals: Option<Vec<[Float32; 4]>> = read_optional_quads(
        source,
        o,
        "NORMAL",
        AccessorKind::Vec3,
    )?;
    let normals_match: bool = match &normals {
        Some(values) => values.len() == count,
        None => true,
    };
    if positions.len() != count || !normals_match {
        return Err(GltfError::new("morph target counts do not match POSITION"));
    }
    let normal_deltas: Option<Vec<Vec3>> = match &normals {
        Some(values) => Some(vectors3(values)),
        None => None,
    };
    MorphTarget::new(vectors3(&positions), normal_deltas)
}

fn parse_targets(source: &Source, o: &[(String, Value)], count: usize) -> (result: Result<
    Vec<MorphTarget>,
    GltfError,
>)
    ensures
        yields(
            result,
            targets_from(source@, member_models(o@), count as nat),
            |targets: Vec<MorphTarget>| target_models(targets@),
        ),
{
    let items: &[Value] = get_array_or_empty(o, "targets")?;
    let ghost all = models(items@);
    let ghost model = source@;
    let ghost read = |i: int, value: Model| target_from(model, value, count as nat);
    let mut targets: Vec<MorphTarget> = Vec::new();
    let mut i: usize = 0;
    proof {
        lemma_collected_all(all, read);
        assert(target_models(targets@) =~= Seq::empty());
    }
    while i < items.len()
        invariant
            i <= items@.len(),
            all == models(items@),
            model == source@,
            read == (|i: int, value: Model| target_from(model, value, count as nat)),
            targets_from(source@, member_models(o@), count as nat) == collected(all, read),
            collected(all.take(i as int), read) == Ok::<Seq<MorphModel>, Seq<char>>(
                target_models(targets@),
            ),
        decreases items@.len() - i,
    {
        proof {
            lemma_collected_next(all, read, i as int);
        }
        match parse_target(source, &items[i], count) {
            Ok(target) => {
                let ghost before = target_models(targets@);
                let ghost found = target@;
                targets.push(target);
                assert(target_models(targets@) =~= before.push(found));
            },
            Err(error) => {
                return Err(error);
            },
        }
        i += 1;
    }
    proof {
        lemma_collected_all(all, read);
    }
    Ok(targets)
}

fn make_zeros(count: usize) -> (result: Vec<Float32>)
    ensures
        result@ == zeros(count as nat),
{
    let mut result: Vec<Float32> = Vec::new();
    let mut i: usize = 0;
    while i < count
        invariant
            i <= count,
            result@ =~= zeros(i as nat),
        decreases count - i,
    {
        result.push(Float32 { bits: 0 });
        i += 1;
    }
    result
}

/// Reads a primitive, with zero morph weights.
pub fn parse_primitive(source: &Source, o: &[(String, Value)]) -> (result: Result<
    GltfPrimitive,
    GltfError,
>)
    ensures
        yields(
            result,
            primitive_from(source@, member_models(o@)),
            |primitive: GltfPrimitive| primitive@,
        ),
{
    let mode: u32 = get_optional_u32(o, "mode")?.unwrap_or(4);
    if mode != 4 {
        return Err(GltfError::new("only TRIANGLES primitives are supported"));
    }
    let attributes: &[(String, Value)] = get_object(o, "attributes")?;
    let streams: Streams = read_streams(source, attributes)?;
    let count: usize = streams.positions.len();
    let indices: Vec<usize> = read_primitive_indices(source, o, count)?;
    let morph_targets: Vec<MorphTarget> = parse_targets(source, o, count)?;
    let material: Option<usize> = match get_optional_u32(o, "material")? {
        Some(index) => Some(index as usize),
        None => None,
    };
    let mesh: Mesh = Mesh::new(make_vertices(&streams), make_triangles(&indices));
    let morph_weights: Vec<Float32> = make_zeros(morph_targets.len());
    Ok(
        GltfPrimitive {
            mesh,
            material,
            joints: streams.joints,
            weights: streams.weights,
            morph_targets,
            morph_weights,
        },
    )
}

/// The primitives of a mesh.
pub open spec fn primitives_from(source: SourceModel, items: Seq<Model>) -> Outcome<
    Seq<PrimitiveModel>,
> {
    collected(
        items,
        |i: int, value: Model|
            match object_of(value, "primitive"@) {
                Err(message) => Err(message),
                Ok(o) => primitive_from(source, o),
            },
    )
}

/// How many morph targets the primitives of a mesh have: as many as the first one.
pub open spec fn target_count(primitives: Seq<PrimitiveModel>) -> nat {
    if primitives.len() == 0 {
        0
    } else {
        primitives[0].targets.len()
    }
}

/// Whether all primitives of a mesh have as many morph targets as there are weights.
pub open spec fn weights_fit(primitives: Seq<PrimitiveModel>, weights: Seq<Float32>) -> bool {
    forall|i: int|
        0 <= i < primitives.len() ==> (#[trigger] primitives[i]).targets.len() == weights.len()
}

/// The primitives with these morph weights.
pub open spec fn with_weights(primitives: Seq<PrimitiveModel>, weights: Seq<Float32>) -> Seq<
    PrimitiveModel,
> {
    Seq::new(
        primitives.len(),
        |i: int| PrimitiveModel { morph_weights: all_sanitized(weights), ..primitives[i] },
    )
}

/// A mesh. Its default morph weights are zero where it gives none.
pub open spec fn mesh_from(source: SourceModel, value: Model) -> Outcome<GltfMeshModel> {
    match object_of(value, "mesh"@) {
        Err(message) => Err(message),
        Ok(o) => match required_array(o, "primitives"@) {
            Err(message) => Err(message),
            Ok(items) => match primitives_from(source, items) {
                Err(message) => Err(message),
                Ok(primitives) => match optional_singles(o, "weights"@) {
                    Err(message) => Err(message),
                    Ok(given) => {
                        let weights = or_default(given, zeros(target_count(primitives)));
                        if !weights_fit(primitives, weights) {
                            Err("mesh weights do not match morph targets"@)
                        } else {
                            match text_or_empty(o, "name"@) {
                                Err(message) => Err(message),
                                Ok(name) => Ok(
                                    GltfMeshModel {
                                        name,
                                        primitives: with_weights(primitives, weights),
                                        weights,
                                    },
                                ),
                            }
                        }
                    },
                },
            },
        },
    }
}

pub open spec fn meshes_from(source: SourceModel, o: Members) -> Outcome<Seq<GltfMeshModel>> {
    match array_or_empty(o, "meshes"@) {
        Err(message) => Err(message),
        Ok(items) => collected(items, |i: int, value: Model| mesh_from(source, value)),
    }
}

fn parse_primitives(source: &Source, items: &[Value]) -> (result: Result<
    Vec<GltfPrimitive>,
    GltfError,
>)
    ensures
        yields(
            result,
            primitives_from(source@, models(items@)),
            |primitives: Vec<GltfPrimitive>| primitive_models(primitives@),
        ),
{
    let ghost all = models(items@);
    let ghost model = source@;
    let ghost read = |i: int, value: Model|
        match object_of(value, "primitive"@) {
            Err(message) => Err(message),
            Ok(o) => primitive_from(model, o),
        };
    let mut primitives: Vec<GltfPrimitive> = Vec::new();
    let mut i: usize = 0;
    proof {
        lemma_collected_all(all, read);
        assert(primitive_models(primitives@) =~= Seq::empty());
    }
    while i < items.len()
        invariant
            i <= items@.len(),
            all == models(items@),
            model == source@,
            read == (|i: int, value: Model|
                match object_of(value, "primitive"@) {
                    Err(message) => Err(message),
                    Ok(o) => primitive_from(model, o),
                }),
            collected(all.take(i as int), read) == Ok::<Seq<PrimitiveModel>, Seq<char>>(
                primitive_models(primitives@),
            ),
        decreases items@.len() - i,
    {
        proof {
            lemma_collected_next(all, read, i as int);
        }
        let o: &[(String, Value)] = as_object(&items[i], "primitive")?;
        match parse_primitive(source, o) {
            Ok(primitive) => {
                let ghost before = primitive_models(primitives@);
                let ghost found = primitive@;
                primitives.push(primitive);
                assert(primitive_models(primitives@) =~= before.push(found));
            },
            Err(error) => {
                return Err(error);
            },
        }
        i += 1;
    }
    proof {
        lemma_collected_all(all, read);
    }
    Ok(primitives)
}

/// Gives every primitive these morph weights. Says whether they fit all of them.
fn apply_weights(primitives: Vec<GltfPrimitive>, weights: &Vec<Float32>) -> (result: Option<
    Vec<GltfPrimitive>,
>)
    ensures
        match result {
            Some(done) => weights_fit(primitive_models(primitives@), weights@)
                && primitive_models(done@) == with_weights(
                primitive_models(primitives@),
                weights@,
            ),
            None => !weights_fit(primitive_models(primitives@), weights@),
        },
{
    let ghost all = primitive_models(primitives@);
    let mut done: Vec<GltfPrimitive> = Vec::new();
    let mut left: Vec<GltfPrimitive> = primitives;
    let ghost total = left@.len();
    // Primitives are taken from the end, so the result is built in reverse order.
    while left.len() > 0
        invariant
            all == primitive_models(primitives@),
            all.len() == total,
            left@.len() + done@.len() == total,
            forall|j: int| 0 <= j < left@.len() ==> (#[trigger] left@[j])@ == all[j],
            forall|j: int|
                0 <= j < done@.len() ==> (#[trigger] done@[j])@ == (PrimitiveModel {
                    morph_weights: all_sanitized(weights@),
                    ..all[total - 1 - j]
                }),
            forall|j: int|
                left@.len() <= j < total ==> (#[trigger] all[j]).targets.len() == weights@.len(),
        decreases left@.len(),
    {
        let ghost index = left@.len() - 1;
        assert(left@[index]@ == all[index]);
        let mut primitive: GltfPrimitive = left.pop().unwrap();
        assert(primitive@ == all[index]);
        if primitive.morph_targets.len() != weights.len() {
            assert(all[index].targets.len() != weights@.len());
            return None;
        }
        primitive.morph_weights = sanitize_all(weights.as_slice());
        done.push(primitive);
    }
    let mut ordered: Vec<GltfPrimitive> = Vec::new();
    while done.len() > 0
        invariant
            all == primitive_models(primitives@),
            all.len() == total,
            ordered@.len() + done@.len() == total,
            forall|j: int|
                0 <= j < done@.len() ==> (#[trigger] done@[j])@ == (PrimitiveModel {
                    morph_weights: all_sanitized(weights@),
                    ..all[total - 1 - j]
                }),
            forall|j: int|
                0 <= j < ordered@.len() ==> (#[trigger] ordered@[j])@ == (PrimitiveModel {
                    morph_weights: all_sanitized(weights@),
                    ..all[j]
                }),
        decreases done@.len(),
    {
        let primitive: GltfPrimitive = done.pop().unwrap();
        ordered.push(primitive);
    }
    assert(primitive_models(ordered@) =~= with_weights(all, weights@));
    Some(ordered)
}

fn parse_mesh(source: &Source, value: &Value) -> (result: Result<GltfMesh, GltfError>)
    ensures
        yields(result, mesh_from(source@, value@), |mesh: GltfMesh| mesh@),
{
    let o: &[(String, Value)] = as_object(value, "mesh")?;
    let items: &[Value] = get_array(o, "primitives")?;
    let primitives: Vec<GltfPrimitive> = parse_primitives(source, items)?;
    let ghost all = primitive_models(primitives@);
    let weights: Vec<Float32> = match get_optional_f32_array(o, "weights")? {
        Some(weights) => weights,
        None => {
            let count: usize = if primitives.len() == 0 {
                0
            } else {
                primitives[0].morph_targets.len()
            };
            assert(count == target_count(all));
            make_zeros(count)
        },
    };
    match apply_weights(primitives, &weights) {
        None => Err(GltfError::new("mesh weights do not match morph targets")),
        Some(primitives) => {
            let name: String = get_text_or_empty(o, "name")?;
            Ok(GltfMesh { name, primitives, weights })
        },
    }
}

/// Reads the meshes of a document.
pub fn parse_meshes(source: &Source, object: &[(String, Value)]) -> (result: Result<
    Vec<GltfMesh>,
    GltfError,
>)
    ensures
        yields(
            result,
            meshes_from(source@, member_models(object@)),
            |meshes: Vec<GltfMesh>| mesh_models(meshes@),
        ),
{
    let items: &[Value] = get_array_or_empty(object, "meshes")?;
    let ghost all = models(items@);
    let ghost model = source@;
    let ghost read = |i: int, value: Model| mesh_from(model, value);
    let mut meshes: Vec<GltfMesh> = Vec::new();
    let mut i: usize = 0;
    proof {
        lemma_collected_all(all, read);
        assert(mesh_models(meshes@) =~= Seq::empty());
    }
    while i < items.len()
        invariant
            i <= items@.len(),
            all == models(items@),
            model == source@,
            read == (|i: int, value: Model| mesh_from(model, value)),
            meshes_from(source@, member_models(object@)) == collected(all, read),
            collected(all.take(i as int), read) == Ok::<Seq<GltfMeshModel>, Seq<char>>(
                mesh_models(meshes@),
            ),
        decreases items@.len() - i,
    {
        proof {
            lemma_collected_next(all, read, i as int);
        }
        match parse_mesh(source, &items[i]) {
            Ok(mesh) => {
                let ghost before = mesh_models(meshes@);
                let ghost found = mesh@;
                meshes.push(mesh);
                assert(mesh_models(meshes@) =~= before.push(found));
            },
            Err(error) => {
                return Err(error);
            },
        }
        i += 1;
    }
    proof {
        lemma_collected_all(all, read);
    }
    Ok(meshes)
}

} // verus!
