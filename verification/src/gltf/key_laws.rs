//! What an accepted document says under its keys is what its asset holds.

use crate::float::{Float32, Float64, ONE};
use crate::gltf::animation::{channel_from, sampler_from, AnimationPath, Interpolation};
use crate::gltf::assets::FileModel;
use crate::gltf::buffers::{accessor_from, view_from, AccessorKind};
use crate::gltf::collect::collected;
use crate::gltf::document::asset_from;
use crate::gltf::error::Outcome;
use crate::gltf::fields::{field, field_from, Members};
use crate::gltf::material::{
    material_from, texture_from, textures_from, GltfAlphaMode, MaterialModel, HALF,
};
use crate::gltf::model::{primitive_from, stream_vertex, streams_of, GltfMeshModel};
use crate::gltf::node::{node_from, NodeModel};
use crate::gltf::scene::{scene_from, SceneModel};
use crate::gltf::skin::skin_from;
use crate::gltf::streams::{quads, source_rows, SourceModel};
use crate::json::Model;
use crate::math::{identity_matrix, matrix_of, Vec2, Vec3};
use vstd::prelude::*;

verus! {

/// Whether an object holds a value under a key: it is that of the first member with the key.
pub open spec fn holds(members: Members, key: Seq<char>, value: Model) -> bool {
    exists|i: int|
        0 <= i < members.len() && #[trigger] members[i] == (key, value) && forall|j: int|
            0 <= j < i ==> (#[trigger] members[j]).0 != key
}

/// Whether an object has no member with a key.
pub open spec fn lacks(members: Members, key: Seq<char>) -> bool {
    forall|i: int| 0 <= i < members.len() ==> (#[trigger] members[i]).0 != key
}

/// Whether an object holds another one under a key. One that is missing is like an empty one.
pub open spec fn holds_object(members: Members, key: Seq<char>, inner: Members) -> bool {
    holds(members, key, Model::Object(inner)) || (lacks(members, key) && inner.len() == 0)
}

/// Whether an object holds a number under a key, or lacks the key and the number is a default.
pub open spec fn holds_single(
    members: Members,
    key: Seq<char>,
    value: Float32,
    default: Float32,
) -> bool {
    ||| lacks(members, key) && value == default
    ||| exists|number: Float64|
        #[trigger] holds(members, key, Model::Number(number)) && value == number.to_single()
}

/// Whether a number stands for an index. The largest index stands for all beyond it.
pub open spec fn is_index(number: Float64, index: usize) -> bool {
    number.is_natural() && (number.natural() == index || (index == usize::MAX && number.natural()
        > usize::MAX))
}

/// Whether an object holds an index under a key.
pub open spec fn holds_index(members: Members, key: Seq<char>, index: usize) -> bool {
    exists|number: Float64|
        #[trigger] holds(members, key, Model::Number(number)) && is_index(number, index)
}

/// Whether an object holds an index under a key exactly where there is one.
pub open spec fn holds_optional_index(
    members: Members,
    key: Seq<char>,
    index: Option<usize>,
) -> bool {
    match index {
        None => lacks(members, key),
        Some(found) => holds_index(members, key, found),
    }
}

/// Whether an object holds a text under a key, or lacks the key and the text is empty.
pub open spec fn holds_text(members: Members, key: Seq<char>, text: Seq<char>) -> bool {
    holds(members, key, Model::Text(text)) || (lacks(members, key) && text.len() == 0)
}

/// Whether items are numbers that stand for values.
pub open spec fn are_singles(items: Seq<Model>, values: Seq<Float32>) -> bool {
    items.len() == values.len() && forall|i: int|
        0 <= i < items.len() ==> ((#[trigger] items[i]) matches Model::Number(number)
            && values[i] == number.to_single())
}

/// Whether an object holds a list of numbers under a key.
pub open spec fn holds_singles(members: Members, key: Seq<char>, values: Seq<Float32>) -> bool {
    exists|items: Seq<Model>|
        #[trigger] holds(members, key, Model::Array(items)) && are_singles(items, values)
}

/// Whether items are numbers that stand for indices.
pub open spec fn are_indices(items: Seq<Model>, indices: Seq<usize>) -> bool {
    items.len() == indices.len() && forall|i: int|
        0 <= i < items.len() ==> ((#[trigger] items[i]) matches Model::Number(number) && is_index(
            number,
            indices[i],
        ))
}

/// Whether an object holds a list of indices under a key.
pub open spec fn holds_indices(members: Members, key: Seq<char>, indices: Seq<usize>) -> bool {
    exists|items: Seq<Model>|
        #[trigger] holds(members, key, Model::Array(items)) && are_indices(items, indices)
}

proof fn lemma_field_from(members: Members, key: Seq<char>, index: int)
    requires
        0 <= index <= members.len(),
        forall|j: int| 0 <= j < index ==> (#[trigger] members[j]).0 != key,
    ensures
        match field_from(members, key, index) {
            Some(value) => holds(members, key, value),
            None => lacks(members, key),
        },
    decreases members.len() - index,
{
    if index < members.len() {
        if members[index].0 == key {
            assert(members[index] == (key, members[index].1));
        } else {
            lemma_field_from(members, key, index + 1);
        }
    }
}

/// What is found under a key is what the object holds there.
pub proof fn lemma_field(members: Members, key: Seq<char>)
    ensures
        match field(members, key) {
            Some(value) => holds(members, key, value),
            None => lacks(members, key),
        },
        forall|value: Model| #[trigger]
            holds(members, key, value) ==> field(members, key) == Some(value),
        lacks(members, key) ==> field(members, key) is None,
{
    lemma_field_from(members, key, 0);
    assert forall|value: Model| #[trigger] holds(members, key, value) implies field(members, key)
        == Some(value) by {
        let at = choose|i: int|
            0 <= i < members.len() && #[trigger] members[i] == (key, value) && forall|j: int|
                0 <= j < i ==> (#[trigger] members[j]).0 != key;
        if let Some(other) = field(members, key) {
            let place = choose|i: int|
                0 <= i < members.len() && #[trigger] members[i] == (key, other) && forall|j: int|
                    0 <= j < i ==> (#[trigger] members[j]).0 != key;
            if at < place {
                assert(members[at].0 != key);
            }
            if place < at {
                assert(members[place].0 != key);
            }
        } else {
            assert(members[at].0 != key);
        }
    }
}

/// Accepted lists have a value for each of their items.
pub proof fn lemma_collected_items<T>(items: Seq<Model>, read: spec_fn(int, Model) -> Outcome<T>)
    requires
        collected(items, read) is Ok,
    ensures
        collected(items, read)->Ok_0.len() == items.len(),
        forall|i: int|
            0 <= i < items.len() ==> read(i, #[trigger] items[i]) == Ok::<T, Seq<char>>(
                collected(items, read)->Ok_0[i],
            ),
    decreases items.len(),
{
    if items.len() > 0 {
        let before = items.drop_last();
        lemma_collected_items(before, read);
        assert forall|i: int| 0 <= i < items.len() implies read(i, #[trigger] items[i]) == Ok::<
            T,
            Seq<char>,
        >(collected(items, read)->Ok_0[i]) by {
            if i < before.len() {
                assert(before[i] == items[i]);
            }
        }
    }
}

/// Whether an object refers to a texture under a key, and an image is the source of that texture.
pub open spec fn holds_image(
    members: Members,
    key: Seq<char>,
    textures: Seq<usize>,
    image: Option<usize>,
) -> bool {
    match image {
        None => lacks(members, key),
        Some(found) => exists|reference: Members, index: usize|
            #[trigger] holds(members, key, Model::Object(reference)) && #[trigger] holds_index(
                reference,
                "index"@,
                index,
            ) && index < textures.len() && textures[index as int] == found,
    }
}

/// Whether a material is the one that an object describes. `pbr` is what the object holds under
/// `pbrMetallicRoughness`.
pub open spec fn describes_material(
    o: Members,
    pbr: Members,
    textures: Seq<usize>,
    material: MaterialModel,
) -> bool {
    let one = Float32 { bits: ONE };
    let color = material.base_color_factor;
    &&& holds_single(pbr, "metallicFactor"@, material.metallic_factor, one)
    &&& holds_single(pbr, "roughnessFactor"@, material.roughness_factor, one)
    &&& holds_singles(pbr, "baseColorFactor"@, seq![color.x, color.y, color.z, color.w]) || (lacks(
        pbr,
        "baseColorFactor"@,
    ) && color.x == one && color.y == one && color.z == one && color.w == one)
    &&& holds_image(pbr, "baseColorTexture"@, textures, material.albedo_texture)
    &&& holds_image(o, "normalTexture"@, textures, material.normal_map_texture)
    &&& holds_single(o, "alphaCutoff"@, material.alpha_cutoff, Float32 { bits: HALF })
    &&& holds_text(o, "name"@, material.name)
    &&& match material.alpha_mode {
        GltfAlphaMode::Opaque => lacks(o, "alphaMode"@) || holds(
            o,
            "alphaMode"@,
            Model::Text("OPAQUE"@),
        ),
        GltfAlphaMode::Blend => holds(o, "alphaMode"@, Model::Text("BLEND"@)),
        GltfAlphaMode::Mask => false,
    }
}

/// An accepted material holds what its object says: the metallic factor is the number under
/// `metallicFactor`, the roughness factor the one under `roughnessFactor`, and so on, each with its
/// default where the key is missing.
pub proof fn law_materials_hold_what_their_objects_say(
    value: Model,
    textures: Seq<usize>,
    images: nat,
    pbr: Members,
)
    requires
        material_from(value, textures, images) is Ok,
        value matches Model::Object(o) ==> holds_object(o, "pbrMetallicRoughness"@, pbr),
    ensures
        value is Object,
        describes_material(
            value->Object_0,
            pbr,
            textures,
            material_from(value, textures, images)->Ok_0,
        ),
{
    let o = value->Object_0;
    let material = material_from(value, textures, images)->Ok_0;
    lemma_field(o, "pbrMetallicRoughness"@);
    lemma_field(pbr, "metallicFactor"@);
    lemma_field(pbr, "roughnessFactor"@);
    lemma_field(pbr, "baseColorFactor"@);
    lemma_field(pbr, "baseColorTexture"@);
    lemma_field(o, "normalTexture"@);
    lemma_field(o, "alphaCutoff"@);
    lemma_field(o, "name"@);
    lemma_field(o, "alphaMode"@);
    lemma_image(pbr, "baseColorTexture"@, textures, images);
    lemma_image(o, "normalTexture"@, textures, images);
    if let Some(Model::Array(items)) = field(pbr, "baseColorFactor"@) {
        let color = material.base_color_factor;
        assert(holds(pbr, "baseColorFactor"@, Model::Array(items)));
        if !lacks(o, "pbrMetallicRoughness"@) {
            assert(crate::gltf::fields::optional_singles(pbr, "baseColorFactor"@) is Ok);
            let values = crate::gltf::fields::optional_singles(pbr, "baseColorFactor"@)->Ok_0->0;
            assert(are_singles(items, values)) by {
                assert forall|i: int| 0 <= i < items.len() implies ((
                #[trigger] items[i]) matches Model::Number(number) && values[i]
                    == number.to_single()) by {
                    assert(crate::gltf::fields::single_item(items[i]) is Some);
                }
            }
            assert(values =~= seq![color.x, color.y, color.z, color.w]);
        }
    }
}

proof fn lemma_image(o: Members, key: Seq<char>, textures: Seq<usize>, images: nat)
    ensures
        crate::gltf::material::optional_image(o, key, textures, images) matches Ok(image)
            ==> holds_image(o, key, textures, image),
{
    lemma_field(o, key);
    if let Ok(Some(image)) = crate::gltf::material::optional_image(o, key, textures, images) {
        let reference = field(o, key)->0->Object_0;
        lemma_field(reference, "index"@);
        let index = crate::gltf::fields::required_usize(reference, "index"@)->Ok_0;
        lemma_index(reference, "index"@);
        assert(holds(o, key, Model::Object(reference)));
        assert(holds_index(reference, "index"@, index));
    }
}

/// Indices that are read are those that the object holds.
proof fn lemma_index(o: Members, key: Seq<char>)
    ensures
        crate::gltf::fields::required_usize(o, key) matches Ok(index) ==> holds_index(o, key, index),
        crate::gltf::fields::optional_usize(o, key) matches Ok(index) ==> holds_optional_index(
            o,
            key,
            index,
        ),
{
    lemma_field(o, key);
    if let Some(Model::Number(number)) = field(o, key) {
        assert(holds(o, key, Model::Number(number)));
    }
}

/// Whether a rotation, translation or scale is what an object holds under a key.
pub open spec fn holds_vector(o: Members, key: Seq<char>, vector: Vec3, default: Float32) -> bool {
    holds_singles(o, key, seq![vector.x, vector.y, vector.z]) || (lacks(o, key) && vector.x
        == default && vector.y == default && vector.z == default)
}

/// Whether a node is the one that an object describes.
pub open spec fn describes_node(o: Members, node: NodeModel) -> bool {
    let zero = Float32 { bits: 0 };
    let one = Float32 { bits: ONE };
    let turn = node.rotation;
    &&& holds_vector(o, "translation"@, node.translation, zero)
    &&& holds_vector(o, "scale"@, node.scale, one)
    &&& holds_singles(o, "rotation"@, seq![turn[0], turn[1], turn[2], turn[3]]) || (lacks(
        o,
        "rotation"@,
    ) && turn[0] == zero && turn[1] == zero && turn[2] == zero && turn[3] == one)
    &&& match node.matrix {
        None => lacks(o, "matrix"@),
        Some(matrix) => exists|values: Seq<Float32>|
            #[trigger] holds_singles(o, "matrix"@, values) && values.len() == 16 && matrix
                == matrix_of(values),
    }
    &&& match node.weights {
        None => lacks(o, "weights"@),
        Some(weights) => holds_singles(o, "weights"@, weights),
    }
    &&& holds_optional_index(o, "mesh"@, node.mesh)
    &&& holds_optional_index(o, "skin"@, node.skin)
    &&& holds_indices(o, "children"@, node.children) || (lacks(o, "children"@)
        && node.children.len() == 0)
    &&& holds_text(o, "name"@, node.name)
}

proof fn lemma_singles(o: Members, key: Seq<char>)
    ensures
        crate::gltf::fields::optional_singles(o, key) matches Ok(Some(values)) ==> holds_singles(
            o,
            key,
            values,
        ),
        crate::gltf::fields::optional_singles(o, key) matches Ok(None) ==> lacks(o, key),
{
    lemma_field(o, key);
    if let Ok(Some(values)) = crate::gltf::fields::optional_singles(o, key) {
        let items = field(o, key)->0->Array_0;
        assert(holds(o, key, Model::Array(items)));
        assert forall|i: int| 0 <= i < items.len() implies ((
        #[trigger] items[i]) matches Model::Number(number) && values[i] == number.to_single()) by {
            assert(crate::gltf::fields::single_item(items[i]) is Some);
        }
        assert(are_singles(items, values));
    }
}

proof fn lemma_indices(items: Seq<Model>, key: Seq<char>)
    ensures
        crate::gltf::fields::naturals(items, key) matches Ok(indices) ==> are_indices(
            items,
            indices,
        ),
{
    if let Ok(indices) = crate::gltf::fields::naturals(items, key) {
        assert forall|i: int| 0 <= i < items.len() implies ((
        #[trigger] items[i]) matches Model::Number(number) && is_index(number, indices[i])) by {
            assert(crate::gltf::fields::natural_item(items[i]) is Some);
        }
    }
}

/// An accepted node holds what its object says.
pub proof fn law_nodes_hold_what_their_objects_say(value: Model, meshes: Seq<GltfMeshModel>)
    requires
        node_from(value, meshes) is Ok,
    ensures
        value is Object,
        describes_node(value->Object_0, node_from(value, meshes)->Ok_0),
{
    let o = value->Object_0;
    let node = node_from(value, meshes)->Ok_0;
    lemma_singles(o, "translation"@);
    lemma_singles(o, "rotation"@);
    lemma_singles(o, "scale"@);
    lemma_singles(o, "matrix"@);
    lemma_singles(o, "weights"@);
    lemma_index(o, "mesh"@);
    lemma_index(o, "skin"@);
    lemma_field(o, "name"@);
    lemma_field(o, "children"@);
    if let Some(Model::Array(items)) = field(o, "children"@) {
        lemma_indices(items, "children"@);
        assert(holds(o, "children"@, Model::Array(items)));
    }
    if let Ok(Some(values)) = crate::gltf::fields::optional_singles(o, "translation"@) {
        assert(values =~= seq![node.translation.x, node.translation.y, node.translation.z]);
    }
    if let Ok(Some(values)) = crate::gltf::fields::optional_singles(o, "scale"@) {
        assert(values =~= seq![node.scale.x, node.scale.y, node.scale.z]);
    }
    if let Ok(Some(values)) = crate::gltf::fields::optional_singles(o, "rotation"@) {
        let turn = node.rotation;
        assert(values =~= seq![turn[0], turn[1], turn[2], turn[3]]);
    }
    if let Ok(Some(values)) = crate::gltf::fields::optional_singles(o, "matrix"@) {
        assert(holds_singles(o, "matrix"@, values));
    }
}

/// An accepted buffer view holds what its object says.
pub proof fn law_views_hold_what_their_objects_say(value: Model)
    requires
        view_from(value) is Ok,
    ensures
        value matches Model::Object(o) && {
            let view = view_from(value)->Ok_0;
            &&& holds_index(o, "buffer"@, view.buffer)
            &&& holds_index(o, "byteLength"@, view.length)
            &&& holds_index(o, "byteOffset"@, view.offset) || (lacks(o, "byteOffset"@)
                && view.offset == 0)
            &&& holds_optional_index(o, "byteStride"@, view.stride)
        },
{
    let o = value->Object_0;
    lemma_index(o, "buffer"@);
    lemma_index(o, "byteLength"@);
    lemma_index(o, "byteOffset"@);
    lemma_index(o, "byteStride"@);
}

/// An accepted accessor holds what its object says.
pub proof fn law_accessors_hold_what_their_objects_say(value: Model)
    requires
        accessor_from(value) is Ok,
    ensures
        value matches Model::Object(o) && {
            let accessor = accessor_from(value)->Ok_0;
            &&& holds_index(o, "componentType"@, accessor.component_type as usize)
            &&& holds_index(o, "count"@, accessor.count)
            &&& holds_optional_index(o, "bufferView"@, accessor.view)
            &&& holds_index(o, "byteOffset"@, accessor.offset) || (lacks(o, "byteOffset"@)
                && accessor.offset == 0)
            &&& holds(o, "normalized"@, Model::Bool(accessor.normalized)) || (lacks(
                o,
                "normalized"@,
            ) && !accessor.normalized)
            &&& holds(
                o,
                "type"@,
                Model::Text(
                    match accessor.kind {
                        AccessorKind::Scalar => "SCALAR"@,
                        AccessorKind::Vec2 => "VEC2"@,
                        AccessorKind::Vec3 => "VEC3"@,
                        AccessorKind::Vec4 => "VEC4"@,
                        AccessorKind::Mat4 => "MAT4"@,
                    },
                ),
            )
        },
{
    let o = value->Object_0;
    let accessor = accessor_from(value)->Ok_0;
    lemma_field(o, "componentType"@);
    lemma_field(o, "type"@);
    lemma_field(o, "normalized"@);
    lemma_index(o, "count"@);
    lemma_index(o, "bufferView"@);
    lemma_index(o, "byteOffset"@);
    let number = field(o, "componentType"@)->0->Number_0;
    assert(holds(o, "componentType"@, Model::Number(number)));
    assert(is_index(number, accessor.component_type as usize));
}

/// An accepted scene holds what its object says.
pub proof fn law_scenes_hold_what_their_objects_say(value: Model, nodes: nat)
    requires
        scene_from(value, nodes) is Ok,
    ensures
        value matches Model::Object(o) && holds_indices(
            o,
            "nodes"@,
            scene_from(value, nodes)->Ok_0.nodes,
        ) && holds_text(o, "name"@, scene_from(value, nodes)->Ok_0.name),
{
    let o = value->Object_0;
    lemma_field(o, "nodes"@);
    lemma_field(o, "name"@);
    let items = field(o, "nodes"@)->0->Array_0;
    lemma_indices(items, "nodes"@);
    assert(holds(o, "nodes"@, Model::Array(items)));
}

/// An accepted animation channel holds what its object says.
pub proof fn law_channels_hold_what_their_objects_say(value: Model, nodes: nat, target: Members)
    requires
        channel_from(value, nodes) is Ok,
        value matches Model::Object(o) ==> holds(o, "target"@, Model::Object(target)),
    ensures
        value matches Model::Object(o) && {
            let channel = channel_from(value, nodes)->Ok_0;
            &&& holds_index(o, "sampler"@, channel.sampler)
            &&& holds_index(target, "node"@, channel.node)
            &&& holds(
                target,
                "path"@,
                Model::Text(
                    match channel.path {
                        AnimationPath::Translation => "translation"@,
                        AnimationPath::Rotation => "rotation"@,
                        AnimationPath::Scale => "scale"@,
                        AnimationPath::Weights => "weights"@,
                    },
                ),
            )
        },
{
    let o = value->Object_0;
    lemma_field(o, "target"@);
    lemma_index(o, "sampler"@);
    lemma_index(target, "node"@);
    lemma_field(target, "path"@);
}

/// An accepted animation sampler takes its times from the accessor under `input`, its values from
/// the one under `output`, and the interpolation that its object names.
pub proof fn law_samplers_hold_what_their_objects_say(source: SourceModel, value: Model)
    requires
        sampler_from(source, value) is Ok,
    ensures
        value matches Model::Object(o) && {
            let sampler = sampler_from(source, value)->Ok_0;
            &&& exists|input: usize|
                #[trigger] holds_index(o, "input"@, input) && rows_are(
                    source,
                    input,
                    1,
                    sampler.input.len(),
                    |i: int, j: int| sampler.input[i],
                )
            &&& exists|output: usize|
                #[trigger] holds_index(o, "output"@, output) && rows_are(
                    source,
                    output,
                    sampler.output_components as nat,
                    sampler.output.len(),
                    |i: int, j: int| sampler.output[i][j],
                )
            &&& match sampler.interpolation {
                Interpolation::Linear => lacks(o, "interpolation"@) || holds(
                    o,
                    "interpolation"@,
                    Model::Text("LINEAR"@),
                ),
                Interpolation::Step => holds(o, "interpolation"@, Model::Text("STEP"@)),
            }
        },
{
    let o = value->Object_0;
    let sampler = sampler_from(source, value)->Ok_0;
    lemma_index(o, "input"@);
    lemma_index(o, "output"@);
    lemma_field(o, "interpolation"@);
    let input = crate::gltf::fields::required_usize(o, "input"@)->Ok_0;
    let output = crate::gltf::fields::required_usize(o, "output"@)->Ok_0;
    assert(holds_index(o, "input"@, input));
    assert(holds_index(o, "output"@, output));
    let rows = source_rows(source, output as int, sampler.output_components as nat)->Ok_0;
    assert(sampler.output == quads(rows));
    assert(rows_are(
        source,
        output,
        sampler.output_components as nat,
        sampler.output.len(),
        |i: int, j: int| sampler.output[i][j],
    ));
    assert(rows_are(
        source,
        input,
        1,
        sampler.input.len(),
        |i: int, j: int| sampler.input[i],
    ));
}

/// Whether the elements of an accessor are these components, `components` in each of `count`.
pub open spec fn rows_are(
    source: SourceModel,
    accessor: usize,
    components: nat,
    count: nat,
    component: spec_fn(int, int) -> Float32,
) -> bool {
    &&& accessor < source.accessors.len()
    &&& source.accessors[accessor as int].kind.components() == components
    &&& source_rows(source, accessor as int, components) matches Ok(rows) && rows.len() == count
        && forall|i: int, j: int|
        0 <= i < count && 0 <= j < components && j < (#[trigger] rows[i]).len() ==> #[trigger]
            component(i, j) == rows[i][j]
}

/// An accepted skin holds what its object says: its joints, and the inverse bind matrices of the
/// accessor that it names.
pub proof fn law_skins_hold_what_their_objects_say(source: SourceModel, value: Model, nodes: nat)
    requires
        skin_from(source, value, nodes) is Ok,
    ensures
        value matches Model::Object(o) && {
            let skin = skin_from(source, value, nodes)->Ok_0;
            &&& holds_indices(o, "joints"@, skin.joints)
            &&& holds_optional_index(o, "skeleton"@, skin.skeleton)
            &&& holds_text(o, "name"@, skin.name)
            &&& skin.inverse_bind_matrices.len() == skin.joints.len()
            &&& (lacks(o, "inverseBindMatrices"@) && forall|i: int|
                0 <= i < skin.joints.len() ==> #[trigger] skin.inverse_bind_matrices[i]
                    == identity_matrix()) || exists|accessor: usize|
                #[trigger] holds_index(o, "inverseBindMatrices"@, accessor) && (source_rows(
                    source,
                    accessor as int,
                    16,
                ) matches Ok(rows) && forall|i: int|
                    0 <= i < skin.joints.len() ==> #[trigger] skin.inverse_bind_matrices[i]
                        == matrix_of(rows[i]))
        },
{
    let o = value->Object_0;
    let skin = skin_from(source, value, nodes)->Ok_0;
    lemma_field(o, "joints"@);
    lemma_field(o, "name"@);
    lemma_index(o, "skeleton"@);
    lemma_index(o, "inverseBindMatrices"@);
    let items = field(o, "joints"@)->0->Array_0;
    lemma_indices(items, "joints"@);
    assert(holds(o, "joints"@, Model::Array(items)));
    if let Ok(Some(accessor)) = crate::gltf::fields::optional_usize(o, "inverseBindMatrices"@) {
        assert(holds_index(o, "inverseBindMatrices"@, accessor));
    }
}

/// Whether an attribute is there exactly where the attributes name an accessor, whose elements it
/// holds.
pub open spec fn holds_attribute(
    source: SourceModel,
    attributes: Members,
    key: Seq<char>,
    components: nat,
    count: nat,
    given: bool,
    component: spec_fn(int, int) -> Float32,
) -> bool {
    if given {
        exists|accessor: usize| #[trigger]
            holds_index(attributes, key, accessor) && rows_are(
                source,
                accessor,
                components,
                count,
                component,
            )
    } else {
        lacks(attributes, key)
    }
}

/// The vertices of an accepted primitive are made of its streams.
proof fn lemma_streams(source: SourceModel, o: Members, attributes: Members)
    requires
        primitive_from(source, o) is Ok,
        holds(o, "attributes"@, Model::Object(attributes)),
    ensures
        streams_of(source, attributes) is Ok,
        primitive_from(source, o)->Ok_0.mesh.vertices.len() == streams_of(
            source,
            attributes,
        )->Ok_0.positions.len(),
        forall|i: int|
            0 <= i < streams_of(source, attributes)->Ok_0.positions.len() ==> ({
                let made = stream_vertex(streams_of(source, attributes)->Ok_0, i);
                let found = #[trigger] primitive_from(source, o)->Ok_0.mesh.vertices[i];
                &&& found.position == made.position
                &&& found.texcoord == made.texcoord
                &&& made.normal is Some ==> found.normal == made.normal
                &&& found.normal_derived == made.normal is None
            }),
        primitive_from(source, o)->Ok_0.weights == streams_of(source, attributes)->Ok_0.weights,
{
    lemma_field(o, "attributes"@);
}

/// The vertices of an accepted primitive have the positions of the accessor under `POSITION`.
pub proof fn law_positions_come_from_their_attribute(source: SourceModel, o: Members, attributes: Members)
    requires
        primitive_from(source, o) is Ok,
        holds(o, "attributes"@, Model::Object(attributes)),
    ensures
        ({
            let primitive = primitive_from(source, o)->Ok_0;
            let vertices = primitive.mesh.vertices;
            holds_attribute(
                source,
                attributes,
                "POSITION"@,
                3,
                vertices.len(),
                true,
                |i: int, j: int| coordinate(vertices[i].position, j),
            )
        }),
{
    let primitive = primitive_from(source, o)->Ok_0;
    let vertices = primitive.mesh.vertices;
    lemma_field(o, "attributes"@);
    lemma_small_index(attributes, "POSITION"@);
    lemma_streams(source, o, attributes);
    let component = |i: int, j: int| coordinate(vertices[i].position, j);
    if !lacks(attributes, "POSITION"@) {
        let accessor = crate::gltf::fields::required_u32(attributes, "POSITION"@)->Ok_0 as usize;
        assert(holds_index(attributes, "POSITION"@, accessor));
        assert(rows_are(source, accessor, 3, vertices.len(), component));
    }
}

/// The vertices of an accepted primitive have the normals of the accessor under `NORMAL`, or derived
/// ones where it names none.
pub proof fn law_normals_come_from_their_attribute(source: SourceModel, o: Members, attributes: Members)
    requires
        primitive_from(source, o) is Ok,
        holds(o, "attributes"@, Model::Object(attributes)),
        primitive_from(source, o)->Ok_0.mesh.vertices.len() > 0,
    ensures
        ({
            let primitive = primitive_from(source, o)->Ok_0;
            let vertices = primitive.mesh.vertices;
            holds_attribute(
                source,
                attributes,
                "NORMAL"@,
                3,
                vertices.len(),
                !vertices[0].normal_derived,
                |i: int, j: int| coordinate(vertices[i].normal->0, j),
            )
        }),
{
    let primitive = primitive_from(source, o)->Ok_0;
    let vertices = primitive.mesh.vertices;
    lemma_field(o, "attributes"@);
    lemma_small_index(attributes, "NORMAL"@);
    lemma_streams(source, o, attributes);
    let component = |i: int, j: int| coordinate(vertices[i].normal->0, j);
    if !lacks(attributes, "NORMAL"@) {
        let accessor = crate::gltf::fields::required_u32(attributes, "NORMAL"@)->Ok_0 as usize;
        assert(holds_index(attributes, "NORMAL"@, accessor));
        assert(rows_are(source, accessor, 3, vertices.len(), component));
    }
}

/// The vertices of an accepted primitive have the texture coordinates of the accessor under
/// `TEXCOORD_0`.
pub proof fn law_texture_coordinates_come_from_their_attribute(source: SourceModel, o: Members, attributes: Members)
    requires
        primitive_from(source, o) is Ok,
        holds(o, "attributes"@, Model::Object(attributes)),
        primitive_from(source, o)->Ok_0.mesh.vertices.len() > 0,
    ensures
        ({
            let primitive = primitive_from(source, o)->Ok_0;
            let vertices = primitive.mesh.vertices;
            holds_attribute(
                source,
                attributes,
                "TEXCOORD_0"@,
                2,
                vertices.len(),
                vertices[0].texcoord is Some,
                |i: int, j: int| flat_coordinate(vertices[i].texcoord->0, j),
            )
        }),
{
    let primitive = primitive_from(source, o)->Ok_0;
    let vertices = primitive.mesh.vertices;
    lemma_field(o, "attributes"@);
    lemma_small_index(attributes, "TEXCOORD_0"@);
    lemma_streams(source, o, attributes);
    let component = |i: int, j: int| flat_coordinate(vertices[i].texcoord->0, j);
    if !lacks(attributes, "TEXCOORD_0"@) {
        let accessor = crate::gltf::fields::required_u32(attributes, "TEXCOORD_0"@)->Ok_0 as usize;
        assert(holds_index(attributes, "TEXCOORD_0"@, accessor));
        assert(rows_are(source, accessor, 2, vertices.len(), component));
    }
}

/// The weights of an accepted primitive are those of the accessor under `WEIGHTS_0`.
pub proof fn law_weights_come_from_their_attribute(source: SourceModel, o: Members, attributes: Members)
    requires
        primitive_from(source, o) is Ok,
        holds(o, "attributes"@, Model::Object(attributes)),
        !lacks(attributes, "WEIGHTS_0"@),
    ensures
        ({
            let primitive = primitive_from(source, o)->Ok_0;
            let vertices = primitive.mesh.vertices;
            holds_attribute(
                source,
                attributes,
                "WEIGHTS_0"@,
                4,
                primitive.weights.len(),
                true,
                |i: int, j: int| primitive.weights[i][j],
            )
        }),
{
    let primitive = primitive_from(source, o)->Ok_0;
    let vertices = primitive.mesh.vertices;
    lemma_field(o, "attributes"@);
    lemma_small_index(attributes, "WEIGHTS_0"@);
    lemma_streams(source, o, attributes);
    let component = |i: int, j: int| primitive.weights[i][j];
    if !lacks(attributes, "WEIGHTS_0"@) {
        let accessor = crate::gltf::fields::required_u32(attributes, "WEIGHTS_0"@)->Ok_0 as usize;
        assert(holds_index(attributes, "WEIGHTS_0"@, accessor));
        assert(rows_are(source, accessor, 4, primitive.weights.len(), component));
    }
}

/// The material of an accepted primitive is the one under `material`.
pub proof fn law_primitives_name_their_material(source: SourceModel, o: Members)
    requires
        primitive_from(source, o) is Ok,
    ensures
        holds_optional_index(o, "material"@, primitive_from(source, o)->Ok_0.material),
{
    lemma_small_index(o, "material"@);
}

/// A coordinate of a vector of two.
pub open spec fn flat_coordinate(vector: Vec2, j: int) -> Float32 {
    if j == 0 {
        vector.x
    } else {
        vector.y
    }
}

/// A coordinate of a vector.
pub open spec fn coordinate(vector: Vec3, j: int) -> Float32 {
    if j == 0 {
        vector.x
    } else if j == 1 {
        vector.y
    } else {
        vector.z
    }
}

proof fn lemma_small_index(o: Members, key: Seq<char>)
    ensures
        crate::gltf::fields::required_u32(o, key) matches Ok(index) ==> holds_index(
            o,
            key,
            index as usize,
        ),
        crate::gltf::fields::optional_u32(o, key) matches Ok(Some(index)) ==> holds_index(
            o,
            key,
            index as usize,
        ),
        crate::gltf::fields::optional_u32(o, key) matches Ok(None) ==> lacks(o, key),
{
    lemma_field(o, key);
    if let Some(Model::Number(number)) = field(o, key) {
        assert(holds(o, key, Model::Number(number)));
    }
}

/// Whether an object holds a list under a key. One that is missing is like an empty one.
pub open spec fn holds_list(members: Members, key: Seq<char>, items: Seq<Model>) -> bool {
    holds(members, key, Model::Array(items)) || (lacks(members, key) && items.len() == 0)
}

/// Whether textures name their images: each object holds one under `source`.
pub open spec fn are_textures(items: Seq<Model>, textures: Seq<usize>) -> bool {
    items.len() == textures.len() && forall|i: int|
        0 <= i < items.len() ==> ((#[trigger] items[i]) matches Model::Object(o) && holds_index(
            o,
            "source"@,
            textures[i],
        ))
}

/// The materials of an accepted document are those that the objects under `materials` describe, in
/// their order.
pub proof fn law_documents_hold_their_materials(
    object: Members,
    files: Seq<FileModel>,
    items: Seq<Model>,
    texture_items: Seq<Model>,
    index: int,
    pbr: Members,
)
    requires
        asset_from(object, files) is Ok,
        holds_list(object, "materials"@, items),
        holds_list(object, "textures"@, texture_items),
        0 <= index < items.len(),
        items[index] matches Model::Object(o) ==> holds_object(o, "pbrMetallicRoughness"@, pbr),
    ensures
        asset_from(object, files)->Ok_0.materials.len() == items.len(),
        items[index] is Object,
        exists|textures: Seq<usize>|
            are_textures(texture_items, textures) && #[trigger] describes_material(
                items[index]->Object_0,
                pbr,
                textures,
                asset_from(object, files)->Ok_0.materials[index],
            ),
{
    let asset = asset_from(object, files)->Ok_0;
    lemma_field(object, "materials"@);
    lemma_field(object, "textures"@);
    let images = asset.images.len();
    let textures = textures_from(object)->Ok_0;
    let read_texture = |i: int, value: Model| texture_from(value);
    lemma_collected_items(texture_items, read_texture);
    assert(are_textures(texture_items, textures)) by {
        assert forall|i: int| 0 <= i < texture_items.len() implies ((
        #[trigger] texture_items[i]) matches Model::Object(o) && holds_index(
            o,
            "source"@,
            textures[i],
        )) by {
            assert(read_texture(i, texture_items[i]) is Ok);
            lemma_index(texture_items[i]->Object_0, "source"@);
        }
    }
    let read = |i: int, value: Model| material_from(value, textures, images);
    lemma_collected_items(items, read);
    assert(read(index, items[index]) == Ok::<MaterialModel, Seq<char>>(asset.materials[index]));
    law_materials_hold_what_their_objects_say(items[index], textures, images, pbr);
}

/// The nodes of an accepted document are those that the objects under `nodes` describe, in their
/// order.
pub proof fn law_documents_hold_their_nodes(
    object: Members,
    files: Seq<FileModel>,
    items: Seq<Model>,
    index: int,
)
    requires
        asset_from(object, files) is Ok,
        holds_list(object, "nodes"@, items),
        0 <= index < items.len(),
    ensures
        asset_from(object, files)->Ok_0.nodes.len() == items.len(),
        items[index] is Object,
        describes_node(items[index]->Object_0, asset_from(object, files)->Ok_0.nodes[index]),
{
    let asset = asset_from(object, files)->Ok_0;
    lemma_field(object, "nodes"@);
    let read = |i: int, value: Model| node_from(value, asset.meshes);
    lemma_collected_items(items, read);
    assert(read(index, items[index]) == Ok::<NodeModel, Seq<char>>(asset.nodes[index]));
    law_nodes_hold_what_their_objects_say(items[index], asset.meshes);
}

/// The scenes of an accepted document are those that the objects under `scenes` describe, in their
/// order, and the default scene is the one under `scene`.
pub proof fn law_documents_hold_their_scenes(
    object: Members,
    files: Seq<FileModel>,
    items: Seq<Model>,
    index: int,
)
    requires
        asset_from(object, files) is Ok,
        holds_list(object, "scenes"@, items),
        0 <= index < items.len(),
    ensures
        ({
            let asset = asset_from(object, files)->Ok_0;
            &&& asset.scenes.len() == items.len()
            &&& items[index] matches Model::Object(o) && holds_indices(
                o,
                "nodes"@,
                asset.scenes[index].nodes,
            )
            &&& holds_index(object, "scene"@, asset.default_scene) || (lacks(object, "scene"@)
                && asset.default_scene == 0)
        }),
{
    let asset = asset_from(object, files)->Ok_0;
    lemma_field(object, "scenes"@);
    lemma_index(object, "scene"@);
    let nodes = asset.nodes.len();
    let read = |i: int, value: Model| scene_from(value, nodes);
    lemma_collected_items(items, read);
    assert(read(index, items[index]) == Ok::<SceneModel, Seq<char>>(asset.scenes[index]));
    law_scenes_hold_what_their_objects_say(items[index], nodes);
}

} // verus!
