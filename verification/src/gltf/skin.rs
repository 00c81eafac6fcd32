//! Skins: joints and their inverse bind matrices.

use crate::float::Float32;
use crate::gltf::buffers::{read_accessor, row_contents, Accessor, AccessorKind, FLOAT};
use crate::gltf::collect::{collected, lemma_collected_all, lemma_collected_next};
use crate::gltf::error::{yields, GltfError, Outcome};
use crate::gltf::fields::{
    array_or_empty, as_object, get_array_or_empty, get_optional_usize, get_text_or_empty,
    get_usize_array, object_of, optional_usize, required_naturals, text_or_empty, Members,
};
use crate::gltf::streams::{accessor_error, accessor_name, source_rows, Source, SourceModel};
use crate::json::{member_models, models, Model, Value};
use crate::math::{identity_matrix, make_matrix, matrix_of, Mat4};
use vstd::prelude::*;

verus! {

/// A skin of a document.
#[derive(Debug, PartialEq)]
pub struct GltfSkin {
    pub name: String,
    pub joints: Vec<usize>,
    pub inverse_bind_matrices: Vec<Mat4>,
    pub skeleton: Option<usize>,
}

/// A skin as mathematics.
#[verifier::ext_equal]
pub struct SkinModel {
    pub name: Seq<char>,
    pub joints: Seq<usize>,
    pub inverse_bind_matrices: Seq<Mat4>,
    pub skeleton: Option<usize>,
}

impl View for GltfSkin {
    type V = SkinModel;

    open spec fn view(&self) -> SkinModel {
        SkinModel {
            name: self.name@,
            joints: self.joints@,
            inverse_bind_matrices: self.inverse_bind_matrices@,
            skeleton: self.skeleton,
        }
    }
}

/// The views of a list of skins.
pub open spec fn skin_models(skins: Seq<GltfSkin>) -> Seq<SkinModel> {
    Seq::new(skins.len(), |i: int| skins[i]@)
}

/// Whether every index is below a bound.
pub open spec fn all_below(indices: Seq<usize>, bound: nat) -> bool {
    forall|i: int| 0 <= i < indices.len() ==> #[trigger] indices[i] < bound
}

/// Says whether every index is below a bound.
pub fn are_below(indices: &Vec<usize>, bound: usize) -> (result: bool)
    ensures
        result == all_below(indices@, bound as nat),
{
    let ghost all = indices@;
    let mut i: usize = 0;
    while i < indices.len()
        invariant
            i <= indices@.len(),
            all == indices@,
            forall|j: int| 0 <= j < i ==> #[trigger] all[j] < bound,
        decreases indices@.len() - i,
    {
        if indices[i] >= bound {
            assert(all[i as int] >= bound);
            return false;
        }
        i += 1;
    }
    true
}

/// The inverse bind matrices of a skin with `count` joints; the identity for each joint where it
/// names none.
pub open spec fn inverse_matrices(source: SourceModel, o: Members, count: nat) -> Outcome<
    Seq<Mat4>,
> {
    match optional_usize(o, "inverseBindMatrices"@) {
        Err(message) => Err(message),
        Ok(None) => Ok(Seq::new(count, |i: int| identity_matrix())),
        Ok(Some(index)) => if index >= source.accessors.len() {
            Err(accessor_name("IBM"@, index as int) + " is out of range"@)
        } else {
            let accessor = source.accessors[index as int];
            if accessor.kind != AccessorKind::Mat4 || accessor.component_type != FLOAT
                || accessor.normalized {
                Err(accessor_name("IBM"@, index as int) + " must be FLOAT MAT4"@)
            } else {
                match source_rows(source, index as int, 16) {
                    Err(message) => Err(message),
                    Ok(rows) => Ok(Seq::new(rows.len(), |i: int| matrix_of(rows[i]))),
                }
            }
        },
    }
}

/// A skin whose joints are among `nodes` nodes.
pub open spec fn skin_from(source: SourceModel, value: Model, nodes: nat) -> Outcome<SkinModel> {
    match object_of(value, "skin"@) {
        Err(message) => Err(message),
        Ok(o) => match required_naturals(o, "joints"@) {
            Err(message) => Err(message),
            Ok(joints) => if !all_below(joints, nodes) {
                Err("skin joint index is out of range"@)
            } else {
                match inverse_matrices(source, o, joints.len()) {
                    Err(message) => Err(message),
                    Ok(inverse_bind_matrices) => if inverse_bind_matrices.len() != joints.len() {
                        Err("inverse bind matrix count does not match joints"@)
                    } else {
                        match text_or_empty(o, "name"@) {
                            Err(message) => Err(message),
                            Ok(name) => match optional_usize(o, "skeleton"@) {
                                Err(message) => Err(message),
                                Ok(skeleton) => Ok(
                                    SkinModel { name, joints, inverse_bind_matrices, skeleton },
                                ),
                            },
                        }
                    },
                }
            },
        },
    }
}

pub open spec fn skins_from(source: SourceModel, o: Members, nodes: nat) -> Outcome<
    Seq<SkinModel>,
> {
    match array_or_empty(o, "skins"@) {
        Err(message) => Err(message),
        Ok(items) => collected(items, |i: int, value: Model| skin_from(source, value, nodes)),
    }
}

fn read_inverse_matrices(source: &Source, o: &[(String, Value)], count: usize) -> (result: Result<
    Vec<Mat4>,
    GltfError,
>)
    ensures
        yields(
            result,
            inverse_matrices(source@, member_models(o@), count as nat),
            |matrices: Vec<Mat4>| matrices@,
        ),
{
    let mut matrices: Vec<Mat4> = Vec::new();
    let mut i: usize = 0;
    match get_optional_usize(o, "inverseBindMatrices")? {
        None => {
            while i < count
                invariant
                    i <= count,
                    matrices@ =~= Seq::new(i as nat, |j: int| identity_matrix()),
                decreases count - i,
            {
                matrices.push(Mat4::identity());
                i += 1;
            }
        },
        Some(index) => {
            if index >= source.accessors.len() {
                return Err(accessor_error("IBM", index, " is out of range"));
            }
            let accessor: Accessor = source.accessors[index];
            if accessor.kind != AccessorKind::Mat4 || accessor.component_type != FLOAT
                || accessor.normalized {
                return Err(accessor_error("IBM", index, " must be FLOAT MAT4"));
            }
            let rows: Vec<Vec<Float32>> = read_accessor(
                source.buffers,
                source.views,
                source.accessors,
                index,
                16,
            )?;
            let ghost all = row_contents(rows@);
            assert(forall|j: int| 0 <= j < all.len() ==> (#[trigger] all[j]).len() == 16);
            while i < rows.len()
                invariant
                    i <= rows@.len(),
                    all == row_contents(rows@),
                    forall|j: int| 0 <= j < all.len() ==> (#[trigger] all[j]).len() == 16,
                    matrices@ =~= Seq::new(i as nat, |j: int| matrix_of(all[j])),
                decreases rows@.len() - i,
            {
                assert(all[i as int] == rows@[i as int]@);
                matrices.push(make_matrix(&rows[i]));
                i += 1;
            }
        },
    }
    Ok(matrices)
}

fn parse_skin(source: &Source, value: &Value, nodes: usize) -> (result: Result<
    GltfSkin,
    GltfError,
>)
    ensures
        yields(result, skin_from(source@, value@, nodes as nat), |skin: GltfSkin| skin@),
{
    let o: &[(String, Value)] = as_object(value, "skin")?;
    let joints: Vec<usize> = get_usize_array(o, "joints")?;
    if !are_below(&joints, nodes) {
        return Err(GltfError::new("skin joint index is out of range"));
    }
    let inverse_bind_matrices: Vec<Mat4> = read_inverse_matrices(source, o, joints.len())?;
    if inverse_bind_matrices.len() != joints.len() {
        return Err(GltfError::new("inverse bind matrix count does not match joints"));
    }
    let name: String = get_text_or_empty(o, "name")?;
    let skeleton: Option<usize> = get_optional_usize(o, "skeleton")?;
    Ok(GltfSkin { name, joints, inverse_bind_matrices, skeleton })
}

/// Reads the skins of a document with `nodes` nodes.
pub fn parse_skins(source: &Source, object: &[(String, Value)], nodes: usize) -> (result: Result<
    Vec<GltfSkin>,
    GltfError,
>)
    ensures
        yields(
            result,
            skins_from(source@, member_models(object@), nodes as nat),
            |skins: Vec<GltfSkin>| skin_models(skins@),
        ),
{
    let items: &[Value] = get_array_or_empty(object, "skins")?;
    let ghost all = models(items@);
    let ghost model = source@;
    let ghost read = |i: int, value: Model| skin_from(model, value, nodes as nat);
    let mut skins: Vec<GltfSkin> = Vec::new();
    let mut i: usize = 0;
    proof {
        lemma_collected_all(all, read);
        assert(skin_models(skins@) =~= Seq::empty());
    }
    while i < items.len()
        invariant
            i <= items@.len(),
            all == models(items@),
            model == source@,
            read == (|i: int, value: Model| skin_from(model, value, nodes as nat)),
            skins_from(source@, member_models(object@), nodes as nat) == collected(all, read),
            collected(all.take(i as int), read) == Ok::<Seq<SkinModel>, Seq<char>>(
                skin_models(skins@),
            ),
        decreases items@.len() - i,
    {
        proof {
            lemma_collected_next(all, read, i as int);
        }
        match parse_skin(source, &items[i], nodes) {
            Ok(skin) => {
                let ghost before = skin_models(skins@);
                let ghost found = skin@;
                skins.push(skin);
                assert(skin_models(skins@) =~= before.push(found));
            },
            Err(error) => {
                return Err(error);
            },
        }
        i += 1;
    }
    proof {
        lemma_collected_all(all, read);
    }
    Ok(skins)
}

} // verus!
