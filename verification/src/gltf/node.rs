//! Nodes and the forest that they make.

use crate::float::{Float32, ONE};
use crate::gltf::buffers::or_default;
use crate::gltf::collect::{collected, lemma_collected_all, lemma_collected_next};
use crate::gltf::error::{yields, GltfError, Outcome};
use crate::gltf::fields::{
    array_or_empty, as_object, field, get, get_array_or_empty, get_naturals_or_empty,
    get_optional_f32_array, get_optional_usize, get_text_or_empty, naturals_or_empty, object_of,
    optional_singles, optional_usize, text_or_empty, values_of_optional, Members,
};
use crate::gltf::model::{mesh_models, GltfMesh, GltfMeshModel};
use crate::json::{member_models, models, Model, Value};
use crate::math::{make_matrix, matrix_of, Mat4, Vec3};
use vstd::prelude::*;

verus! {

/// A node of a document.
#[derive(Debug, PartialEq)]
pub struct GltfNode {
    pub name: String,
    pub children: Vec<usize>,
    pub mesh: Option<usize>,
    pub skin: Option<usize>,
    pub weights: Option<Vec<Float32>>,
    pub matrix: Option<Mat4>,
    pub translation: Vec3,
    pub rotation: [Float32; 4],
    pub scale: Vec3,
}

/// A node as mathematics.
#[verifier::ext_equal]
pub struct NodeModel {
    pub name: Seq<char>,
    pub children: Seq<usize>,
    pub mesh: Option<usize>,
    pub skin: Option<usize>,
    pub weights: Option<Seq<Float32>>,
    pub matrix: Option<Mat4>,
    pub translation: Vec3,
    pub rotation: [Float32; 4],
    pub scale: Vec3,
}

impl View for GltfNode {
    type V = NodeModel;

    open spec fn view(&self) -> NodeModel {
        NodeModel {
            name: self.name@,
            children: self.children@,
            mesh: self.mesh,
            skin: self.skin,
            weights: values_of_optional(self.weights),
            matrix: self.matrix,
            translation: self.translation,
            rotation: self.rotation,
            scale: self.scale,
        }
    }
}

/// The views of a list of nodes.
pub open spec fn node_models(nodes: Seq<GltfNode>) -> Seq<NodeModel> {
    Seq::new(nodes.len(), |i: int| nodes[i]@)
}

/// Three values.
pub open spec fn triple_from(values: Seq<Float32>, key: Seq<char>) -> Outcome<Vec3> {
    if values.len() == 3 {
        Ok(Vec3 { x: values[0], y: values[1], z: values[2] })
    } else {
        Err(key + " needs 3 values"@)
    }
}

/// Four values.
pub open spec fn quadruple_from(values: Seq<Float32>, key: Seq<char>) -> Outcome<[Float32; 4]> {
    if values.len() == 4 {
        Ok([values[0], values[1], values[2], values[3]])
    } else {
        Err(key + " needs 4 values"@)
    }
}

pub fn vec3(values: &Vec<Float32>, key: &str) -> (result: Result<Vec3, GltfError>)
    ensures
        yields(result, triple_from(values@, key@), |v: Vec3| v),
{
    if values.len() != 3 {
        return Err(GltfError::about(key, " needs 3 values"));
    }
    Ok(Vec3 { x: values[0], y: values[1], z: values[2] })
}

pub fn vec4(values: &Vec<Float32>, key: &str) -> (result: Result<[Float32; 4], GltfError>)
    ensures
        yields(result, quadruple_from(values@, key@), |v: [Float32; 4]| v),
{
    if values.len() != 4 {
        return Err(GltfError::about(key, " needs 4 values"));
    }
    let four: [Float32; 4] = [values[0], values[1], values[2], values[3]];
    assert(four@ =~= quadruple_from(values@, key@)->Ok_0@);
    assert(four =~= quadruple_from(values@, key@)->Ok_0);
    Ok(four)
}

/// The values of an optional array, three times `default` where it is missing.
pub open spec fn triple_or(o: Members, key: Seq<char>, default: u32) -> Outcome<Vec3> {
    match optional_singles(o, key) {
        Err(message) => Err(message),
        Ok(found) => triple_from(
            or_default(
                found,
                seq![
                    Float32 { bits: default },
                    Float32 { bits: default },
                    Float32 { bits: default },
                ],
            ),
            key,
        ),
    }
}

/// The values of an optional array, `default` three times and then one where it is missing.
pub open spec fn quadruple_or(o: Members, key: Seq<char>, default: u32) -> Outcome<[Float32; 4]> {
    match optional_singles(o, key) {
        Err(message) => Err(message),
        Ok(found) => quadruple_from(
            or_default(
                found,
                seq![
                    Float32 { bits: default },
                    Float32 { bits: default },
                    Float32 { bits: default },
                    Float32 { bits: ONE },
                ],
            ),
            key,
        ),
    }
}

pub fn get_triple_or(o: &[(String, Value)], key: &str, default: u32) -> (result: Result<
    Vec3,
    GltfError,
>)
    ensures
        yields(result, triple_or(member_models(o@), key@, default), |v: Vec3| v),
{
    let n: Float32 = Float32 { bits: default };
    match get_optional_f32_array(o, key)? {
        Some(values) => vec3(&values, key),
        None => Ok(Vec3 { x: n, y: n, z: n }),
    }
}

pub fn get_quadruple_or(o: &[(String, Value)], key: &str, default: u32) -> (result: Result<
    [Float32; 4],
    GltfError,
>)
    ensures
        yields(result, quadruple_or(member_models(o@), key@, default), |v: [Float32; 4]| v),
{
    let n: Float32 = Float32 { bits: default };
    match get_optional_f32_array(o, key)? {
        Some(values) => vec4(&values, key),
        None => {
            let four: [Float32; 4] = [n, n, n, Float32 { bits: ONE }];
            let ghost expected = quadruple_or(member_models(o@), key@, default)->Ok_0;
            assert(four@ =~= expected@);
            assert(four =~= expected);
            Ok(four)
        },
    }
}

/// The matrix of a node, which excludes the other transforms.
pub open spec fn node_matrix(o: Members) -> Outcome<Option<Mat4>> {
    match optional_singles(o, "matrix"@) {
        Err(message) => Err(message),
        Ok(None) => Ok(None),
        Ok(Some(values)) => if values.len() != 16 {
            Err("node matrix needs 16 values"@)
        } else if field(o, "translation"@) is Some || field(o, "rotation"@) is Some || field(
            o,
            "scale"@,
        ) is Some {
            Err("node cannot contain both matrix and TRS"@)
        } else {
            Ok(Some(matrix_of(values)))
        },
    }
}

/// How many morph weights a mesh has, none where there is no such mesh.
pub open spec fn mesh_weight_count(mesh: Option<usize>, meshes: Seq<GltfMeshModel>) -> nat {
    match mesh {
        Some(index) => if index < meshes.len() {
            meshes[index as int].weights.len()
        } else {
            0
        },
        None => 0,
    }
}

/// A node. Its morph weights, where it has some, must fit its mesh.
pub open spec fn node_from(value: Model, meshes: Seq<GltfMeshModel>) -> Outcome<NodeModel> {
    match object_of(value, "node"@) {
        Err(message) => Err(message),
        Ok(o) => match node_matrix(o) {
            Err(message) => Err(message),
            Ok(matrix) => match triple_or(o, "translation"@, 0) {
                Err(message) => Err(message),
                Ok(translation) => match quadruple_or(o, "rotation"@, 0) {
                    Err(message) => Err(message),
                    Ok(rotation) => match triple_or(o, "scale"@, ONE) {
                        Err(message) => Err(message),
                        Ok(scale) => match text_or_empty(o, "name"@) {
                            Err(message) => Err(message),
                            Ok(name) => match naturals_or_empty(o, "children"@) {
                                Err(message) => Err(message),
                                Ok(children) => match optional_usize(o, "mesh"@) {
                                    Err(message) => Err(message),
                                    Ok(mesh) => match optional_usize(o, "skin"@) {
                                        Err(message) => Err(message),
                                        Ok(skin) => match optional_singles(o, "weights"@) {
                                            Err(message) => Err(message),
                                            Ok(weights) => if weights matches Some(values)
                                                && values.len() != mesh_weight_count(mesh, meshes) {
                                                Err("node weights do not match its mesh"@)
                                            } else {
                                                Ok(
                                                    NodeModel {
                                                        name,
                                                        children,
                                                        mesh,
                                                        skin,
                                                        weights,
                                                        matrix,
                                                        translation,
                                                        rotation,
                                                        scale,
                                                    },
                                                )
                                            },
                                        },
                                    },
                                },
                            },
                        },
                    },
                },
            },
        },
    }
}

pub open spec fn nodes_from(o: Members, meshes: Seq<GltfMeshModel>) -> Outcome<Seq<NodeModel>> {
    match array_or_empty(o, "nodes"@) {
        Err(message) => Err(message),
        Ok(items) => collected(items, |i: int, value: Model| node_from(value, meshes)),
    }
}

fn get_matrix(o: &[(String, Value)]) -> (result: Result<Option<Mat4>, GltfError>)
    ensures
        yields(result, node_matrix(member_models(o@)), |m: Option<Mat4>| m),
{
    match get_optional_f32_array(o, "matrix")? {
        None => Ok(None),
        Some(values) => {
            if values.len() != 16 {
                return Err(GltfError::new("node matrix needs 16 values"));
            }
            if get(o, "translation").is_some() || get(o, "rotation").is_some() || get(
                o,
                "scale",
            ).is_some() {
                return Err(GltfError::new("node cannot contain both matrix and TRS"));
            }
            Ok(Some(make_matrix(&values)))
        },
    }
}

fn count_mesh_weights(mesh: Option<usize>, meshes: &[GltfMesh]) -> (result: usize)
    ensures
        result == mesh_weight_count(mesh, mesh_models(meshes@)),
{
    match mesh {
        Some(index) => if index < meshes.len() {
            meshes[index].weights.len()
        } else {
            0
        },
        None => 0,
    }
}

fn parse_node(value: &Value, meshes: &[GltfMesh]) -> (result: Result<GltfNode, GltfError>)
    ensures
        yields(result, node_from(value@, mesh_models(meshes@)), |node: GltfNode| node@),
{
    let o: &[(String, Value)] = as_object(value, "node")?;
    let matrix: Option<Mat4> = get_matrix(o)?;
    let translation: Vec3 = get_triple_or(o, "translation", 0)?;
    let rotation: [Float32; 4] = get_quadruple_or(o, "rotation", 0)?;
    let scale: Vec3 = get_triple_or(o, "scale", ONE)?;
    let name: String = get_text_or_empty(o, "name")?;
    let children: Vec<usize> = get_naturals_or_empty(o, "children")?;
    let mesh: Option<usize> = get_optional_usize(o, "mesh")?;
    let skin: Option<usize> = get_optional_usize(o, "skin")?;
    let weights: Option<Vec<Float32>> = get_optional_f32_array(o, "weights")?;
    let expected: usize = count_mesh_weights(mesh, meshes);
    if let Some(values) = &weights {
        if values.len() != expected {
            return Err(GltfError::new("node weights do not match its mesh"));
        }
    }
    Ok(GltfNode { name, children, mesh, skin, weights, matrix, translation, rotation, scale })
}

/// Reads the nodes of a document.
pub fn parse_nodes(object: &[(String, Value)], meshes: &[GltfMesh]) -> (result: Result<
    Vec<GltfNode>,
    GltfError,
>)
    ensures
        yields(
            result,
            nodes_from(member_models(object@), mesh_models(meshes@)),
            |nodes: Vec<GltfNode>| node_models(nodes@),
        ),
{
    let items: &[Value] = get_array_or_empty(object, "nodes")?;
    let ghost all = models(items@);
    let ghost known = mesh_models(meshes@);
    let ghost read = |i: int, value: Model| node_from(value, known);
    let mut nodes: Vec<GltfNode> = Vec::new();
    let mut i: usize = 0;
    proof {
        lemma_collected_all(all, read);
        assert(node_models(nodes@) =~= Seq::empty());
    }
    while i < items.len()
        invariant
            i <= items@.len(),
            all == models(items@),
            known == mesh_models(meshes@),
            read == (|i: int, value: Model| node_from(value, known)),
            nodes_from(member_models(object@), known) == collected(all, read),
            collected(all.take(i as int), read) == Ok::<Seq<NodeModel>, Seq<char>>(
                node_models(nodes@),
            ),
        decreases items@.len() - i,
    {
        proof {
            lemma_collected_next(all, read, i as int);
        }
        match parse_node(&items[i], meshes) {
            Ok(node) => {
                let ghost before = node_models(nodes@);
                let ghost found = node@;
                nodes.push(node);
                assert(node_models(nodes@) =~= before.push(found));
            },
            Err(error) => {
                return Err(error);
            },
        }
        i += 1;
    }
    proof {
        lemma_collected_all(all, read);
    }
    Ok(nodes)
}

} // verus!
