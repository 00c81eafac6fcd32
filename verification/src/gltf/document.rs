//! Whole documents.

use crate::encoding::{valid_length, valid_up_to};
use crate::gltf::animation::{
    animation_models, animations_from, parse_animations, AnimationModel, GltfAnimation,
};
use crate::gltf::assets::{
    buffers_from, file_models, image_models, images_from, listed_files, load_buffers, load_images,
    push_listed_files, FileContent, FileModel, ImageData, ImageModel,
};
use crate::gltf::buffers::{
    accessors_from, contents, or_default, parse_accessors, parse_views, views_from, Accessor,
    BufferView,
};
use crate::gltf::error::{GltfError, Outcome};
use crate::gltf::fields::{
    as_object, get_array, get_object, get_optional_usize, get_string, object_of, optional_usize,
    required_array, required_object, required_text, Members,
};
use crate::gltf::forest::{children_of, forest_of, validate_nodes};
use crate::gltf::material::{
    material_models, materials_from, parse_materials, parse_textures, textures_from, GltfMaterial,
    MaterialModel,
};
use crate::gltf::model::{mesh_models, meshes_from, parse_meshes, GltfMesh, GltfMeshModel};
use crate::gltf::node::{node_models, nodes_from, parse_nodes, GltfNode, NodeModel};
use crate::gltf::scene::{parse_scenes, scene_models, scenes_from, GltfScene, SceneModel};
use crate::gltf::skin::{parse_skins, skin_models, skins_from, GltfSkin, SkinModel};
use crate::gltf::streams::{Source, SourceModel};
use crate::json::{document, member_models, parse, Model, Value};
use crate::text::{same_text, texts};
use vstd::prelude::*;
use vstd::utf8::{decode_utf8, encode_utf8, encode_utf8_decode_utf8, valid_utf8};

verus! {

/// Everything that a document describes.
#[derive(Debug, PartialEq)]
pub struct GltfAsset {
    pub meshes: Vec<GltfMesh>,
    pub nodes: Vec<GltfNode>,
    pub scenes: Vec<GltfScene>,
    pub skins: Vec<GltfSkin>,
    pub animations: Vec<GltfAnimation>,
    pub materials: Vec<GltfMaterial>,
    pub images: Vec<ImageData>,
    pub default_scene: usize,
}

/// An asset as mathematics.
#[verifier::ext_equal]
pub struct AssetModel {
    pub meshes: Seq<GltfMeshModel>,
    pub nodes: Seq<NodeModel>,
    pub scenes: Seq<SceneModel>,
    pub skins: Seq<SkinModel>,
    pub animations: Seq<AnimationModel>,
    pub materials: Seq<MaterialModel>,
    pub images: Seq<ImageModel>,
    pub default_scene: usize,
}

impl View for GltfAsset {
    type V = AssetModel;

    open spec fn view(&self) -> AssetModel {
        AssetModel {
            meshes: mesh_models(self.meshes@),
            nodes: node_models(self.nodes@),
            scenes: scene_models(self.scenes@),
            skins: skin_models(self.skins@),
            animations: animation_models(self.animations@),
            materials: material_models(self.materials@),
            images: image_models(self.images@),
            default_scene: self.default_scene,
        }
    }
}

/// The members of a document whose version is supported.
pub open spec fn supported_root(value: Model) -> Outcome<Members> {
    match object_of(value, "root"@) {
        Err(message) => Err(message),
        Ok(object) => match required_object(object, "asset"@) {
            Err(message) => Err(message),
            Ok(asset) => match required_text(asset, "version"@) {
                Err(message) => Err(message),
                Ok(version) => if version == "2.0"@ {
                    Ok(object)
                } else {
                    Err("unsupported glTF version "@ + version)
                },
            },
        },
    }
}

/// What accessors read from.
pub open spec fn source_from(object: Members, files: Seq<FileModel>) -> Outcome<SourceModel> {
    match required_array(object, "buffers"@) {
        Err(message) => Err(message),
        Ok(buffer_items) => match buffers_from(buffer_items, files) {
            Err(message) => Err(message),
            Ok(buffers) => match required_array(object, "bufferViews"@) {
                Err(message) => Err(message),
                Ok(view_items) => match views_from(view_items) {
                    Err(message) => Err(message),
                    Ok(views) => match required_array(object, "accessors"@) {
                        Err(message) => Err(message),
                        Ok(accessor_items) => match accessors_from(accessor_items) {
                            Err(message) => Err(message),
                            Ok(accessors) => Ok(SourceModel { buffers, views, accessors }),
                        },
                    },
                },
            },
        },
    }
}

/// The images and the materials of a document.
pub open spec fn looks_from(object: Members, files: Seq<FileModel>) -> Outcome<
    (Seq<ImageModel>, Seq<MaterialModel>),
> {
    match images_from(object, files) {
        Err(message) => Err(message),
        Ok(images) => match textures_from(object) {
            Err(message) => Err(message),
            Ok(textures) => match materials_from(object, textures, images.len()) {
                Err(message) => Err(message),
                Ok(materials) => Ok((images, materials)),
            },
        },
    }
}

/// The default scene, which must be one of `scenes` scenes where there are any.
pub open spec fn default_scene_of(object: Members, scenes: nat) -> Outcome<usize> {
    match optional_usize(object, "scene"@) {
        Err(message) => Err(message),
        Ok(found) => {
            let scene = or_default(found, 0);
            if scenes > 0 && scene >= scenes {
                Err("default scene index is out of range"@)
            } else {
                Ok(scene)
            }
        },
    }
}

/// The asset that the members of a document describe.
pub open spec fn asset_from(object: Members, files: Seq<FileModel>) -> Outcome<AssetModel> {
    match source_from(object, files) {
        Err(message) => Err(message),
        Ok(source) => match looks_from(object, files) {
            Err(message) => Err(message),
            Ok((images, materials)) => match meshes_from(source, object) {
                Err(message) => Err(message),
                Ok(meshes) => match nodes_from(object, meshes) {
                    Err(message) => Err(message),
                    Ok(nodes) => match forest_of(children_of(nodes)) {
                        Err(message) => Err(message),
                        Ok(_) => match skins_from(source, object, nodes.len()) {
                            Err(message) => Err(message),
                            Ok(skins) => match animations_from(source, object, nodes, meshes) {
                                Err(message) => Err(message),
                                Ok(animations) => match scenes_from(object, nodes.len()) {
                                    Err(message) => Err(message),
                                    Ok(scenes) => match default_scene_of(object, scenes.len()) {
                                        Err(message) => Err(message),
                                        Ok(default_scene) => Ok(
                                            AssetModel {
                                                meshes,
                                                nodes,
                                                scenes,
                                                skins,
                                                animations,
                                                materials,
                                                images,
                                                default_scene,
                                            },
                                        ),
                                    },
                                },
                            },
                        },
                    },
                },
            },
        },
    }
}

/// What a document text stands for: an asset, or a refusal with an offset where the text is at
/// fault.
pub open spec fn loaded(source: Seq<char>, files: Seq<FileModel>) -> Result<
    AssetModel,
    (Option<int>, Seq<char>),
> {
    match document(encode_utf8(source)) {
        Err((offset, message)) => Err((Some(offset), message)),
        Ok(value) => match supported_root(value) {
            Err(message) => Err((None, message)),
            Ok(object) => match asset_from(object, files) {
                Err(message) => Err((None, message)),
                Ok(asset) => Ok(asset),
            },
        },
    }
}

/// A list of buffers with the views and accessors over them.
struct Sources {
    buffers: Vec<Vec<u8>>,
    views: Vec<BufferView>,
    accessors: Vec<Accessor>,
}

fn parse_sources(object: &[(String, Value)], files: &[FileContent]) -> (result: Result<
    Sources,
    GltfError,
>)
    ensures
        match result {
            Ok(sources) => source_from(member_models(object@), file_models(files@)) == Ok::<
                SourceModel,
                Seq<char>,
            >(
                SourceModel {
                    buffers: contents(sources.buffers@),
                    views: sources.views@,
                    accessors: sources.accessors@,
                },
            ),
            Err(error) => error.offset is None && source_from(
                member_models(object@),
                file_models(files@),
            ) == Err::<SourceModel, Seq<char>>(error.message@),
        },
{
    let buffers: Vec<Vec<u8>> = load_buffers(get_array(object, "buffers")?, files)?;
    let views: Vec<BufferView> = parse_views(get_array(object, "bufferViews")?)?;
    let accessors: Vec<Accessor> = parse_accessors(get_array(object, "accessors")?)?;
    Ok(Sources { buffers, views, accessors })
}

fn check_root<'a>(value: &'a Value) -> (result: Result<&'a [(String, Value)], GltfError>)
    ensures
        match result {
            Ok(object) => supported_root(value@) == Ok::<Members, Seq<char>>(
                member_models(object@),
            ),
            Err(error) => error.offset is None && supported_root(value@) == Err::<
                Members,
                Seq<char>,
            >(error.message@),
        },
{
    let object: &'a [(String, Value)] = as_object(value, "root")?;
    let asset: &[(String, Value)] = get_object(object, "asset")?;
    let version: &str = get_string(asset, "version")?;
    if !same_text(version, "2.0") {
        return Err(GltfError::about("unsupported glTF version ", version));
    }
    Ok(object)
}

fn parse_asset(object: &[(String, Value)], files: &[FileContent]) -> (result: Result<
    GltfAsset,
    GltfError,
>)
    ensures
        match result {
            Ok(asset) => asset_from(member_models(object@), file_models(files@)) == Ok::<
                AssetModel,
                Seq<char>,
            >(asset@),
            Err(error) => error.offset is None && asset_from(
                member_models(object@),
                file_models(files@),
            ) == Err::<AssetModel, Seq<char>>(error.message@),
        },
{
    let sources: Sources = parse_sources(object, files)?;
    let source: Source = Source {
        buffers: sources.buffers.as_slice(),
        views: sources.views.as_slice(),
        accessors: sources.accessors.as_slice(),
    };
    let images: Vec<ImageData> = load_images(object, files)?;
    let textures: Vec<usize> = parse_textures(object)?;
    let materials: Vec<GltfMaterial> = parse_materials(object, textures.as_slice(), images.len())?;
    let meshes: Vec<GltfMesh> = parse_meshes(&source, object)?;
    let nodes: Vec<GltfNode> = parse_nodes(object, meshes.as_slice())?;
    let parents: Vec<Option<usize>> = validate_nodes(nodes.as_slice())?;
    let skins: Vec<GltfSkin> = parse_skins(&source, object, nodes.len())?;
    let animations: Vec<GltfAnimation> = parse_animations(
        &source,
        object,
        nodes.as_slice(),
        meshes.as_slice(),
    )?;
    let scenes: Vec<GltfScene> = parse_scenes(object, nodes.len())?;
    let default_scene: usize = get_optional_usize(object, "scene")?.unwrap_or(0);
    if scenes.len() > 0 && default_scene >= scenes.len() {
        return Err(GltfError::new("default scene index is out of range"));
    }
    Ok(
        GltfAsset {
            meshes,
            nodes,
            scenes,
            skins,
            animations,
            materials,
            images,
            default_scene,
        },
    )
}

impl GltfAsset {
    /// Loads the asset that a document text describes, with the files that it names.
    pub fn from_str(source: &str, files: &[FileContent]) -> (result: Result<GltfAsset, GltfError>)
        ensures
            match result {
                Ok(asset) => loaded(source@, file_models(files@)) == Ok::<
                    AssetModel,
                    (Option<int>, Seq<char>),
                >(asset@),
                Err(error) => loaded(source@, file_models(files@)) == Err::<
                    AssetModel,
                    (Option<int>, Seq<char>),
                >(
                    (
                        match error.offset {
                            Some(offset) => Some(offset as int),
                            None => None,
                        },
                        error.message@,
                    ),
                ),
            },
    {
        let value: Value = match parse(source) {
            Ok(value) => value,
            Err(error) => return Err(GltfError::from_json(error)),
        };
        let object: &[(String, Value)] = check_root(&value)?;
        parse_asset(object, files)
    }

    /// Loads the asset that the bytes of a document describe, with the files that it names. Bytes
    /// that are not valid UTF-8 are refused at the first that belongs to no character.
    pub fn from_bytes(bytes: &[u8], files: &[FileContent]) -> (result: Result<
        GltfAsset,
        GltfError,
    >)
        ensures
            match result {
                Ok(asset) => valid_utf8(bytes@) && loaded(decode_utf8(bytes@), file_models(files@))
                    == Ok::<AssetModel, (Option<int>, Seq<char>)>(asset@),
                Err(error) => if valid_utf8(bytes@) {
                    loaded(decode_utf8(bytes@), file_models(files@)) == Err::<
                        AssetModel,
                        (Option<int>, Seq<char>),
                    >(
                        (
                            match error.offset {
                                Some(offset) => Some(offset as int),
                                None => None,
                            },
                            error.message@,
                        ),
                    )
                } else {
                    error.offset == Some(valid_length(bytes@) as usize) && valid_length(bytes@)
                        <= usize::MAX && error.message@ == "glTF source is not valid UTF-8"@
                },
            },
    {
        match std::str::from_utf8(bytes) {
            Ok(source) => {
                proof {
                    encode_utf8_decode_utf8(source@);
                }
                GltfAsset::from_str(source, files)
            },
            Err(_) => Err(GltfError::at(valid_up_to(bytes), "glTF source is not valid UTF-8")),
        }
    }

    /// The files that loading a document reads, in order; none where it is refused before.
    pub fn file_names(source: &str) -> (result: Vec<String>)
        ensures
            texts(result@) == (match document(encode_utf8(source@)) {
                Err(_) => Seq::empty(),
                Ok(value) => match supported_root(value) {
                    Err(_) => Seq::empty(),
                    Ok(object) => listed_files(object, "buffers"@) + listed_files(
                        object,
                        "images"@,
                    ),
                },
            }),
    {
        let mut files: Vec<String> = Vec::new();
        assert(texts(files@) =~= Seq::empty());
        if let Ok(value) = parse(source) {
            if let Ok(object) = check_root(&value) {
                push_listed_files(object, "buffers", &mut files);
                let ghost first = listed_files(member_models(object@), "buffers"@);
                assert(Seq::<Seq<char>>::empty() + first =~= first);
                push_listed_files(object, "images", &mut files);
            }
        }
        files
    }
}

} // verus!
