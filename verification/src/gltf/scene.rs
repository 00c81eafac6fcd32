//! Scenes: the roots to draw.

use crate::gltf::collect::{collected, lemma_collected_all, lemma_collected_next};
use crate::gltf::error::{yields, GltfError, Outcome};
use crate::gltf::fields::{
    array_or_empty, as_object, get_array_or_empty, get_text_or_empty, get_usize_array, object_of,
    required_naturals, text_or_empty, Members,
};
use crate::gltf::skin::{all_below, are_below};
use crate::json::{member_models, models, Model, Value};
use vstd::prelude::*;

verus! {

/// A scene of a document.
#[derive(Debug, PartialEq, Eq)]
pub struct GltfScene {
    pub name: String,
    pub nodes: Vec<usize>,
}

/// A scene as mathematics.
#[verifier::ext_equal]
pub struct SceneModel {
    pub name: Seq<char>,
    pub nodes: Seq<usize>,
}

impl View for GltfScene {
    type V = SceneModel;

    open spec fn view(&self) -> SceneModel {
        SceneModel { name: self.name@, nodes: self.nodes@ }
    }
}

/// The views of a list of scenes.
pub open spec fn scene_models(scenes: Seq<GltfScene>) -> Seq<SceneModel> {
    Seq::new(scenes.len(), |i: int| scenes[i]@)
}

/// A scene whose roots are among `nodes` nodes.
pub open spec fn scene_from(value: Model, nodes: nat) -> Outcome<SceneModel> {
    match object_of(value, "scene"@) {
        Err(message) => Err(message),
        Ok(o) => match required_naturals(o, "nodes"@) {
            Err(message) => Err(message),
            Ok(roots) => if !all_below(roots, nodes) {
                Err("scene node index is out of range"@)
            } else {
                match text_or_empty(o, "name"@) {
                    Err(message) => Err(message),
                    Ok(name) => Ok(SceneModel { name, nodes: roots }),
                }
            },
        },
    }
}

pub open spec fn scenes_from(o: Members, nodes: nat) -> Outcome<Seq<SceneModel>> {
    match array_or_empty(o, "scenes"@) {
        Err(message) => Err(message),
        Ok(items) => collected(items, |i: int, value: Model| scene_from(value, nodes)),
    }
}

fn parse_scene(value: &Value, nodes: usize) -> (result: Result<GltfScene, GltfError>)
    ensures
        yields(result, scene_from(value@, nodes as nat), |scene: GltfScene| scene@),
{
    let o: &[(String, Value)] = as_object(value, "scene")?;
    let roots: Vec<usize> = get_usize_array(o, "nodes")?;
    if !are_below(&roots, nodes) {
        return Err(GltfError::new("scene node index is out of range"));
    }
    let name: String = get_text_or_empty(o, "name")?;
    Ok(GltfScene { name, nodes: roots })
}

/// Reads the scenes of a document with `nodes` nodes.
pub fn parse_scenes(object: &[(String, Value)], nodes: usize) -> (result: Result<
    Vec<GltfScene>,
    GltfError,
>)
    ensures
        yields(
            result,
            scenes_from(member_models(object@), nodes as nat),
            |scenes: Vec<GltfScene>| scene_models(scenes@),
        ),
{
    let items: &[Value] = get_array_or_empty(object, "scenes")?;
    let ghost all = models(items@);
    let ghost read = |i: int, value: Model| scene_from(value, nodes as nat);
    let mut scenes: Vec<GltfScene> = Vec::new();
    let mut i: usize = 0;
    proof {
        lemma_collected_all(all, read);
        assert(scene_models(scenes@) =~= Seq::empty());
    }
    while i < items.len()
        invariant
            i <= items@.len(),
            all == models(items@),
            read == (|i: int, value: Model| scene_from(value, nodes as nat)),
            scenes_from(member_models(object@), nodes as nat) == collected(all, read),
            collected(all.take(i as int), read) == Ok::<Seq<SceneModel>, Seq<char>>(
                scene_models(scenes@),
            ),
        decreases items@.len() - i,
    {
        proof {
            lemma_collected_next(all, read, i as int);
        }
        match parse_scene(&items[i], nodes) {
            Ok(scene) => {
                let ghost before = scene_models(scenes@);
                let ghost found = scene@;
                scenes.push(scene);
                assert(scene_models(scenes@) =~= before.push(found));
            },
            Err(error) => {
                return Err(error);
            },
        }
        i += 1;
    }
    proof {
        lemma_collected_all(all, read);
    }
    Ok(scenes)
}

} // verus!
