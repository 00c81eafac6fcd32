//! What holds of every asset that was loaded.

use crate::float::Float32;
use crate::gltf::animation::{
    animation_from, channel_from, fitted_from, samplers_from, AnimationModel, AnimationPath,
    GltfAnimationChannel, SamplerModel,
};
use crate::gltf::assets::FileModel;
use crate::gltf::collect::{collected, lemma_collected_items};
use crate::gltf::document::{asset_from, loaded, source_from, AssetModel};
use crate::gltf::fields::{array_or_empty, object_of, required_array, Members};
use crate::gltf::forest::{children_of, forest_of, law_accepted_nodes_make_a_forest};
use crate::gltf::material::{material_from, GltfAlphaMode, MaterialModel};
use crate::gltf::model::{
    mesh_from, primitive_from, primitives_from, target_from, GltfMeshModel, PrimitiveModel,
};
use crate::gltf::node::{mesh_weight_count, node_from, NodeModel};
use crate::gltf::drawing::can_weigh_all;
use crate::gltf::sampling::{
    can_animate, can_sample, can_sample_from, can_weigh, can_weigh_from, lemma_interval_bounds,
    primitive_at, weights_at_rest,
};
use crate::gltf::scene::{scene_from, SceneModel};
use crate::gltf::skin::{skin_from, SkinModel};
use crate::gltf::streams::SourceModel;
use crate::json::Model;
use vstd::prelude::*;

verus! {

/// Whether a primitive holds together: its triangles name its vertices, and every stream and
/// morph target has one entry for each vertex.
pub open spec fn primitive_is_whole(primitive: PrimitiveModel) -> bool {
    let count = primitive.mesh.vertices.len();
    &&& forall|t: int, k: int|
        0 <= t < primitive.mesh.triangles.len() && 0 <= k < 3
            ==> #[trigger] primitive.mesh.triangles[t][k] < count
    &&& primitive.joints.len() == count
    &&& primitive.weights.len() == count
    &&& forall|t: int|
        0 <= t < primitive.targets.len() ==> (#[trigger] primitive.targets[t]).positions.len()
            == count && (primitive.targets[t].normals matches Some(normals) ==> normals.len()
            == count)
    &&& primitive.morph_weights.len() == primitive.targets.len()
}

/// Whether a mesh holds together.
pub open spec fn mesh_is_whole(mesh: GltfMeshModel) -> bool {
    forall|p: int|
        0 <= p < mesh.primitives.len() ==> primitive_is_whole(#[trigger] mesh.primitives[p])
            && mesh.primitives[p].targets.len() == mesh.weights.len()
}

/// Whether a sampler has a value for each keyframe.
pub open spec fn is_complete(sampler: SamplerModel) -> bool {
    sampler.output.len() == sampler.input.len()
}

/// Whether an animation drives nodes that exist, and uses samplers that exist, have a value for
/// each keyframe and drive at most four weights.
pub open spec fn animation_is_whole(animation: AnimationModel, nodes: nat) -> bool {
    forall|c: int|
        0 <= c < animation.channels.len() ==> (#[trigger] animation.channels[c]).node < nodes
            && animation.channels[c].sampler < animation.samplers.len() && is_complete(
            animation.samplers[animation.channels[c].sampler as int],
        ) && animation.samplers[animation.channels[c].sampler as int].output_components <= 4
}

/// Whether an asset holds together: whatever one part names in another exists, and the nodes make
/// a forest.
pub open spec fn asset_is_whole(asset: AssetModel) -> bool {
    &&& forall|m: int| 0 <= m < asset.meshes.len() ==> mesh_is_whole(#[trigger] asset.meshes[m])
    &&& forall|n: int, k: int|
        0 <= n < asset.nodes.len() && 0 <= k < asset.nodes[n].children.len()
            ==> #[trigger] asset.nodes[n].children[k] < asset.nodes.len()
    &&& forest_of(children_of(asset.nodes)) is Ok
    &&& forall|n: int|
        0 <= n < asset.nodes.len() ==> (#[trigger] asset.nodes[n].weights matches Some(weights)
            ==> weights.len() == mesh_weight_count(asset.nodes[n].mesh, asset.meshes))
    &&& forall|s: int, k: int|
        0 <= s < asset.scenes.len() && 0 <= k < asset.scenes[s].nodes.len()
            ==> #[trigger] asset.scenes[s].nodes[k] < asset.nodes.len()
    &&& asset.scenes.len() > 0 ==> asset.default_scene < asset.scenes.len()
    &&& forall|s: int, k: int|
        0 <= s < asset.skins.len() && 0 <= k < asset.skins[s].joints.len()
            ==> #[trigger] asset.skins[s].joints[k] < asset.nodes.len()
    &&& forall|s: int|
        0 <= s < asset.skins.len() ==> (#[trigger] asset.skins[s]).inverse_bind_matrices.len()
            == asset.skins[s].joints.len()
    &&& forall|a: int|
        0 <= a < asset.animations.len() ==> animation_is_whole(
            #[trigger] asset.animations[a],
            asset.nodes.len(),
        )
    &&& forall|m: int|
        0 <= m < asset.materials.len() ==> material_is_whole(
            #[trigger] asset.materials[m],
            asset.images.len(),
        )
}

/// Whether a material names images that exist and has a supported alpha mode.
pub open spec fn material_is_whole(material: MaterialModel, images: nat) -> bool {
    &&& material.albedo_texture matches Some(image) ==> image < images
    &&& material.normal_map_texture matches Some(image) ==> image < images
    &&& material.alpha_mode != GltfAlphaMode::Mask
}

proof fn lemma_primitive_is_whole(source: SourceModel, o: Members)
    ensures
        primitive_from(source, o) matches Ok(primitive) ==> primitive_is_whole(primitive),
{
    if let Ok(primitive) = primitive_from(source, o) {
        let count = primitive.mesh.vertices.len();
        if let Ok(items) = array_or_empty(o, "targets"@) {
            lemma_collected_items(items, |i: int, value: Model| target_from(source, value, count));
        }
    }
}

proof fn lemma_mesh_is_whole(source: SourceModel, value: Model)
    ensures
        mesh_from(source, value) matches Ok(mesh) ==> mesh_is_whole(mesh),
{
    if let Ok(mesh) = mesh_from(source, value) {
        let o = object_of(value, "mesh"@)->Ok_0;
        let items = required_array(o, "primitives"@)->Ok_0;
        let read = |i: int, value: Model|
            match object_of(value, "primitive"@) {
                Err(message) => Err(message),
                Ok(o) => primitive_from(source, o),
            };
        lemma_collected_items(items, read);
        let primitives = primitives_from(source, items)->Ok_0;
        assert(primitives == collected(items, read)->Ok_0);
        assert forall|p: int| 0 <= p < mesh.primitives.len() implies primitive_is_whole(
            #[trigger] mesh.primitives[p],
        ) && mesh.primitives[p].targets.len() == mesh.weights.len() by {
            assert(read(p, items[p]) == Ok::<PrimitiveModel, Seq<char>>(primitives[p]));
            lemma_primitive_is_whole(source, object_of(items[p], "primitive"@)->Ok_0);
            assert(primitives[p].targets.len() == mesh.weights.len());
        }
    }
}

/// Whether a sampler is complete and has at most four components.
spec fn is_small(sampler: SamplerModel) -> bool {
    is_complete(sampler) && sampler.output_components <= 4
}

proof fn lemma_fitting_keeps_samplers(
    channels: Seq<GltfAnimationChannel>,
    index: int,
    samplers: Seq<SamplerModel>,
    nodes: Seq<NodeModel>,
    meshes: Seq<GltfMeshModel>,
)
    requires
        0 <= index <= channels.len(),
    ensures
        fitted_from(channels, index, samplers, nodes, meshes) matches Ok(fitted) ==> {
            &&& fitted.len() == samplers.len()
            &&& forall|i: int|
                #![trigger fitted[i]]
                0 <= i < samplers.len() && is_small(samplers[i]) ==> is_small(fitted[i])
            &&& forall|c: int|
                index <= c < channels.len() ==> (#[trigger] channels[c]).sampler < samplers.len()
                    && is_small(fitted[channels[c].sampler as int])
        },
    decreases channels.len() - index,
{
    if index < channels.len() && fitted_from(channels, index, samplers, nodes, meshes) is Ok {
        let channel = channels[index];
        let count = crate::gltf::animation::driven_weights(channel, nodes, meshes);
        let next = if channel.path == AnimationPath::Weights {
            samplers.update(
                channel.sampler as int,
                crate::gltf::animation::grouped(samplers[channel.sampler as int], count),
            )
        } else {
            samplers
        };
        lemma_fitting_keeps_samplers(channels, index + 1, next, nodes, meshes);
    }
}

proof fn lemma_animation_is_whole(
    source: SourceModel,
    value: Model,
    nodes: Seq<NodeModel>,
    meshes: Seq<GltfMeshModel>,
)
    ensures
        animation_from(source, value, nodes, meshes) matches Ok(animation) ==> animation_is_whole(
            animation,
            nodes.len(),
        ),
{
    if let Ok(animation) = animation_from(source, value, nodes, meshes) {
        let o = object_of(value, "animation"@)->Ok_0;
        let sampler_items = required_array(o, "samplers"@)->Ok_0;
        let raw = samplers_from(source, sampler_items)->Ok_0;
        let channel_items = required_array(o, "channels"@)->Ok_0;
        let read = |i: int, value: Model| channel_from(value, nodes.len());
        lemma_collected_items(channel_items, read);
        lemma_fitting_keeps_samplers(animation.channels, 0, raw, nodes, meshes);
        assert forall|c: int| 0 <= c < animation.channels.len() implies (
        #[trigger] animation.channels[c]).node < nodes.len() && animation.channels[c].sampler
            < animation.samplers.len() && is_complete(
            animation.samplers[animation.channels[c].sampler as int],
        ) && animation.samplers[animation.channels[c].sampler as int].output_components <= 4 by {
            assert(read(c, channel_items[c]) == Ok::<GltfAnimationChannel, Seq<char>>(
                animation.channels[c],
            ));
        }
    }
}

proof fn lemma_whole_samplers_can_be_sampled(sampler: SamplerModel, time: Float32)
    requires
        is_complete(sampler),
        !time.not_a_number(),
        sampler.input.len() == 1 ==> !sampler.input[0].not_a_number(),
    ensures
        can_sample(sampler, time),
{
    if sampler.input.len() >= 2 {
        lemma_interval_bounds(sampler.input, time, 0);
    }
}

proof fn lemma_whole_channels_can_be_sampled(
    animation: AnimationModel,
    time: Float32,
    nodes: nat,
    index: int,
)
    requires
        0 <= index,
        animation_is_whole(animation, nodes),
        !time.not_a_number(),
        forall|i: int|
            0 <= i < animation.samplers.len() && animation.samplers[i].input.len() == 1 ==> !(
            #[trigger] animation.samplers[i]).input[0].not_a_number(),
    ensures
        can_sample_from(animation, time, nodes, index),
        forall|node: usize, count: nat| #[trigger]
            can_weigh_from(animation, time, node, index, count),
    decreases animation.channels.len() - index,
{
    if index < animation.channels.len() {
        lemma_whole_channels_can_be_sampled(animation, time, nodes, index + 1);
        let channel = animation.channels[index];
        lemma_whole_samplers_can_be_sampled(animation.samplers[channel.sampler as int], time);
        assert forall|node: usize, count: nat| #[trigger]
            can_weigh_from(animation, time, node, index, count) by {
            assert(can_weigh_from(animation, time, node, index + 1, count));
        }
    }
}

/// Every animation of a whole asset can be sampled at every time that is a number, as long as a
/// keyframe that stands alone has a time that is one.
pub proof fn law_whole_assets_can_be_animated(
    asset: AssetModel,
    animation: Option<usize>,
    time: Float32,
)
    requires
        asset_is_whole(asset),
        !time.not_a_number(),
        forall|a: int, i: int|
            0 <= a < asset.animations.len() && 0 <= i < asset.animations[a].samplers.len()
                && asset.animations[a].samplers[i].input.len() == 1 ==> !(
            #[trigger] asset.animations[a].samplers[i]).input[0].not_a_number(),
    ensures
        can_animate(asset, animation, time),
        can_weigh_all(asset, animation, time),
{
    if let Some(index) = animation {
        if index < asset.animations.len() {
            let whole = asset.animations[index as int];
            assert(animation_is_whole(whole, asset.nodes.len()));
            lemma_whole_channels_can_be_sampled(whole, time, asset.nodes.len(), 0);
            assert forall|node: usize, mesh: usize, primitive: usize|
                node < asset.nodes.len() && asset.nodes[node as int].mesh == Some(
                    mesh,
                ) implies #[trigger] can_weigh(asset, animation, time, node, mesh, primitive) by {
                if let Ok(found) = primitive_at(asset, mesh, primitive) {
                    let count = weights_at_rest(asset.nodes[node as int], found).len();
                    assert(can_weigh_from(whole, time, node, 0, count));
                }
            }
        }
    }
}

/// Every asset that was loaded holds together.
pub proof fn law_loaded_assets_are_whole(source: Seq<char>, files: Seq<FileModel>)
    ensures
        loaded(source, files) matches Ok(asset) ==> asset.nodes.len() <= usize::MAX
            ==> asset_is_whole(asset),
{
    if let Ok(asset) = loaded(source, files) {
        if asset.nodes.len() <= usize::MAX {
            let value = crate::json::document(vstd::utf8::encode_utf8(source))->Ok_0;
            let object = crate::gltf::document::supported_root(value)->Ok_0;
            lemma_asset_is_whole(object, files);
        }
    }
}

#[verifier::rlimit(60)]
proof fn lemma_asset_is_whole(object: Members, files: Seq<FileModel>)
    requires
        asset_from(object, files) matches Ok(asset) && asset.nodes.len() <= usize::MAX,
    ensures
        asset_is_whole(asset_from(object, files)->Ok_0),
{
    let asset = asset_from(object, files)->Ok_0;
    let source = source_from(object, files)->Ok_0;
    let nodes = asset.nodes.len();
    let mesh_items = array_or_empty(object, "meshes"@)->Ok_0;
    let read_mesh = |i: int, value: Model| mesh_from(source, value);
    lemma_collected_items(mesh_items, read_mesh);
    assert forall|m: int| 0 <= m < asset.meshes.len() implies mesh_is_whole(
        #[trigger] asset.meshes[m],
    ) by {
        assert(read_mesh(m, mesh_items[m]) == Ok::<GltfMeshModel, Seq<char>>(asset.meshes[m]));
        lemma_mesh_is_whole(source, mesh_items[m]);
    }
    let kids = children_of(asset.nodes);
    law_accepted_nodes_make_a_forest(kids);
    assert forall|n: int, k: int|
        0 <= n < asset.nodes.len() && 0 <= k
            < asset.nodes[n].children.len() implies #[trigger] asset.nodes[n].children[k]
        < asset.nodes.len() by {
        assert(kids[n][k] == asset.nodes[n].children[k]);
    }
    let node_items = array_or_empty(object, "nodes"@)->Ok_0;
    let read_node = |i: int, value: Model| node_from(value, asset.meshes);
    lemma_collected_items(node_items, read_node);
    assert forall|n: int| 0 <= n < asset.nodes.len() implies (
    #[trigger] asset.nodes[n].weights matches Some(weights) ==> weights.len()
        == mesh_weight_count(asset.nodes[n].mesh, asset.meshes)) by {
        assert(read_node(n, node_items[n]) == Ok::<NodeModel, Seq<char>>(asset.nodes[n]));
    }
    let scene_items = array_or_empty(object, "scenes"@)->Ok_0;
    let read_scene = |i: int, value: Model| scene_from(value, nodes);
    lemma_collected_items(scene_items, read_scene);
    assert forall|s: int, k: int|
        0 <= s < asset.scenes.len() && 0 <= k
            < asset.scenes[s].nodes.len() implies #[trigger] asset.scenes[s].nodes[k]
        < asset.nodes.len() by {
        assert(read_scene(s, scene_items[s]) == Ok::<SceneModel, Seq<char>>(asset.scenes[s]));
    }
    let skin_items = array_or_empty(object, "skins"@)->Ok_0;
    let read_skin = |i: int, value: Model| skin_from(source, value, nodes);
    lemma_collected_items(skin_items, read_skin);
    assert forall|s: int, k: int|
        0 <= s < asset.skins.len() && 0 <= k
            < asset.skins[s].joints.len() implies #[trigger] asset.skins[s].joints[k]
        < asset.nodes.len() by {
        assert(read_skin(s, skin_items[s]) == Ok::<SkinModel, Seq<char>>(asset.skins[s]));
    }
    assert forall|s: int| 0 <= s < asset.skins.len() implies (
    #[trigger] asset.skins[s]).inverse_bind_matrices.len() == asset.skins[s].joints.len() by {
        assert(read_skin(s, skin_items[s]) == Ok::<SkinModel, Seq<char>>(asset.skins[s]));
    }
    let animation_items = array_or_empty(object, "animations"@)->Ok_0;
    let read_animation = |i: int, value: Model|
        animation_from(source, value, asset.nodes, asset.meshes);
    lemma_collected_items(animation_items, read_animation);
    assert forall|a: int| 0 <= a < asset.animations.len() implies animation_is_whole(
        #[trigger] asset.animations[a],
        asset.nodes.len(),
    ) by {
        assert(read_animation(a, animation_items[a]) == Ok::<AnimationModel, Seq<char>>(
            asset.animations[a],
        ));
        lemma_animation_is_whole(source, animation_items[a], asset.nodes, asset.meshes);
    }
    let textures = crate::gltf::material::textures_from(object)->Ok_0;
    let material_items = array_or_empty(object, "materials"@)->Ok_0;
    let read_material = |i: int, value: Model|
        material_from(value, textures, asset.images.len());
    lemma_collected_items(material_items, read_material);
    assert forall|m: int| 0 <= m < asset.materials.len() implies material_is_whole(
        #[trigger] asset.materials[m],
        asset.images.len(),
    ) by {
        assert(read_material(m, material_items[m]) == Ok::<MaterialModel, Seq<char>>(
            asset.materials[m],
        ));
    }
}

} // verus!
