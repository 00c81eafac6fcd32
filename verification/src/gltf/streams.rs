//! Vertex attributes, joints and indices read through accessors.

use crate::float::Float32;
use crate::gltf::buffers::{
    contents, read_accessor, row_contents, rows_of, Accessor, AccessorKind, BufferView, FLOAT,
    UNSIGNED_BYTE, UNSIGNED_INT, UNSIGNED_SHORT,
};
use crate::gltf::error::{yields, GltfError, Outcome};
use crate::text::{decimal_digits, decimal_text, join3};
use vstd::prelude::*;
use vstd::string::*;

verus! {

/// What accessors read from.
pub struct Source<'a> {
    pub buffers: &'a [Vec<u8>],
    pub views: &'a [BufferView],
    pub accessors: &'a [Accessor],
}

/// What accessors read from, as mathematics.
pub struct SourceModel {
    pub buffers: Seq<Seq<u8>>,
    pub views: Seq<BufferView>,
    pub accessors: Seq<Accessor>,
}

impl<'a> View for Source<'a> {
    type V = SourceModel;

    open spec fn view(&self) -> SourceModel {
        SourceModel {
            buffers: contents(self.buffers@),
            views: self.views@,
            accessors: self.accessors@,
        }
    }
}

/// The elements of accessor `index` of a source.
pub open spec fn source_rows(source: SourceModel, index: int, expected: nat) -> Outcome<
    Seq<Seq<Float32>>,
> {
    rows_of(source.buffers, source.views, source.accessors, index, expected)
}

/// Component `i` of a row, zero where it has none.
pub open spec fn row_component(row: Seq<Float32>, i: int) -> Float32 {
    if i < row.len() {
        row[i]
    } else {
        Float32 { bits: 0 }
    }
}

/// The first four components of a row, zero where it has none.
pub open spec fn quad(row: Seq<Float32>) -> [Float32; 4] {
    [row_component(row, 0), row_component(row, 1), row_component(row, 2), row_component(row, 3)]
}

pub open spec fn quads(rows: Seq<Seq<Float32>>) -> Seq<[Float32; 4]> {
    Seq::new(rows.len(), |i: int| quad(rows[i]))
}

fn component_or_zero(row: &Vec<Float32>, i: usize) -> (result: Float32)
    ensures
        result == row_component(row@, i as int),
{
    if i < row.len() {
        row[i]
    } else {
        Float32 { bits: 0 }
    }
}

/// The first four components of each row.
pub fn to_quads(rows: &Vec<Vec<Float32>>) -> (result: Vec<[Float32; 4]>)
    ensures
        result@ == quads(row_contents(rows@)),
{
    let ghost all = row_contents(rows@);
    let mut result: Vec<[Float32; 4]> = Vec::new();
    let mut i: usize = 0;
    while i < rows.len()
        invariant
            i <= rows@.len(),
            all == row_contents(rows@),
            result@.len() == i,
            forall|j: int| 0 <= j < i ==> result@[j] == quad(#[trigger] all[j]),
        decreases rows@.len() - i,
    {
        let row: &Vec<Float32> = &rows[i];
        let four: [Float32; 4] = [
            component_or_zero(row, 0),
            component_or_zero(row, 1),
            component_or_zero(row, 2),
            component_or_zero(row, 3),
        ];
        proof {
            assert(all[i as int] == row@);
            assert(four@ =~= quad(all[i as int])@);
            assert(four =~= quad(all[i as int]));
        }
        result.push(four);
        i += 1;
    }
    assert(result@ =~= quads(all));
    result
}

/// The name of an accessor in messages.
pub open spec fn accessor_name(semantic: Seq<char>, index: int) -> Seq<char> {
    semantic + " accessor "@ + decimal_digits(index as nat)
}

/// The error that says something of an accessor.
pub fn accessor_error(semantic: &str, index: usize, problem: &str) -> (result: GltfError)
    ensures
        result.says(accessor_name(semantic@, index as int) + problem@),
{
    let mut message: String = join3(semantic, " accessor ", decimal_text(index as u64).as_str());
    message.append(problem);
    GltfError { offset: None, message }
}

/// The elements of an accessor that must hold floats of one shape.
pub open spec fn float_quads(
    source: SourceModel,
    index: int,
    semantic: Seq<char>,
    kind: AccessorKind,
) -> Outcome<Seq<[Float32; 4]>> {
    if !(0 <= index < source.accessors.len()) {
        Err(accessor_name(semantic, index) + " is out of range"@)
    } else {
        let accessor = source.accessors[index];
        if accessor.kind != kind || accessor.component_type != FLOAT || accessor.normalized {
            Err(accessor_name(semantic, index) + (" must be FLOAT "@ + kind.name()))
        } else {
            match source_rows(source, index, kind.components()) {
                Err(message) => Err(message),
                Ok(rows) => Ok(quads(rows)),
            }
        }
    }
}

fn must_be_float(kind: AccessorKind) -> (result: String)
    ensures
        result@ == " must be FLOAT "@ + kind.name(),
{
    let name: &str = match kind {
        AccessorKind::Scalar => "SCALAR",
        AccessorKind::Vec2 => "VEC2",
        AccessorKind::Vec3 => "VEC3",
        AccessorKind::Vec4 => "VEC4",
        AccessorKind::Mat4 => "MAT4",
    };
    crate::text::join2(" must be FLOAT ", name)
}

/// Reads an accessor that must hold floats of one shape.
pub fn read_float_accessor(
    source: &Source,
    index: usize,
    semantic: &str,
    kind: AccessorKind,
) -> (result: Result<Vec<[Float32; 4]>, GltfError>)
    ensures
        yields(
            result,
            float_quads(source@, index as int, semantic@, kind),
            |values: Vec<[Float32; 4]>| values@,
        ),
{
    if index >= source.accessors.len() {
        return Err(accessor_error(semantic, index, " is out of range"));
    }
    let accessor: Accessor = source.accessors[index];
    if accessor.kind != kind || accessor.component_type != FLOAT || accessor.normalized {
        return Err(accessor_error(semantic, index, must_be_float(kind).as_str()));
    }
    let components: usize = crate::gltf::buffers::component_count(kind);
    let rows: Vec<Vec<Float32>> = read_accessor(
        source.buffers,
        source.views,
        source.accessors,
        index,
        components,
    )?;
    Ok(to_quads(&rows))
}

/// The joints of an element.
pub open spec fn joints_in(row: Seq<Float32>) -> [u16; 4] {
    [
        row[0].truncated(0xffff) as u16,
        row[1].truncated(0xffff) as u16,
        row[2].truncated(0xffff) as u16,
        row[3].truncated(0xffff) as u16,
    ]
}

/// The joints of each vertex.
pub open spec fn joints_of(source: SourceModel, index: int) -> Outcome<Seq<[u16; 4]>> {
    if !(0 <= index < source.accessors.len()) {
        Err(accessor_name("JOINTS_0"@, index) + " is out of range"@)
    } else {
        let accessor = source.accessors[index];
        if accessor.kind != AccessorKind::Vec4 || (accessor.component_type != UNSIGNED_BYTE
            && accessor.component_type != UNSIGNED_SHORT) || accessor.normalized {
            Err(
                accessor_name("JOINTS_0"@, index)
                    + " needs UNSIGNED_BYTE or UNSIGNED_SHORT VEC4"@,
            )
        } else {
            match source_rows(source, index, 4) {
                Err(message) => Err(message),
                Ok(rows) => Ok(Seq::new(rows.len(), |i: int| joints_in(rows[i]))),
            }
        }
    }
}

/// Reads the joints of each vertex.
pub fn read_joints(source: &Source, index: usize) -> (result: Result<Vec<[u16; 4]>, GltfError>)
    ensures
        yields(result, joints_of(source@, index as int), |values: Vec<[u16; 4]>| values@),
{
    if index >= source.accessors.len() {
        return Err(accessor_error("JOINTS_0", index, " is out of range"));
    }
    let accessor: Accessor = source.accessors[index];
    if accessor.kind != AccessorKind::Vec4 || (accessor.component_type != UNSIGNED_BYTE
        && accessor.component_type != UNSIGNED_SHORT) || accessor.normalized {
        return Err(
            accessor_error("JOINTS_0", index, " needs UNSIGNED_BYTE or UNSIGNED_SHORT VEC4"),
        );
    }
    let rows: Vec<Vec<Float32>> = read_accessor(
        source.buffers,
        source.views,
        source.accessors,
        index,
        4,
    )?;
    let ghost all = row_contents(rows@);
    assert(forall|j: int| 0 <= j < all.len() ==> (#[trigger] all[j]).len() == 4);
    let mut joints: Vec<[u16; 4]> = Vec::new();
    let mut i: usize = 0;
    while i < rows.len()
        invariant
            i <= rows@.len(),
            all == row_contents(rows@),
            forall|j: int| 0 <= j < all.len() ==> (#[trigger] all[j]).len() == 4,
            joints@.len() == i,
            forall|j: int| 0 <= j < i ==> joints@[j] == joints_in(#[trigger] all[j]),
        decreases rows@.len() - i,
    {
        let row: &Vec<Float32> = &rows[i];
        assert(all[i as int] == row@);
        let four: [u16; 4] = [
            row[0].truncate_to(0xffff) as u16,
            row[1].truncate_to(0xffff) as u16,
            row[2].truncate_to(0xffff) as u16,
            row[3].truncate_to(0xffff) as u16,
        ];
        proof {
            assert(four@ =~= joints_in(all[i as int])@);
            assert(four =~= joints_in(all[i as int]));
        }
        joints.push(four);
        i += 1;
    }
    assert(joints@ =~= Seq::new(all.len(), |j: int| joints_in(all[j])));
    Ok(joints)
}

/// The vertex indices of a primitive.
pub open spec fn indices_of(source: SourceModel, index: int) -> Outcome<Seq<usize>> {
    if !(0 <= index < source.accessors.len()) {
        Err("index accessor is out of range"@)
    } else {
        let accessor = source.accessors[index];
        if accessor.kind != AccessorKind::Scalar || (accessor.component_type != UNSIGNED_BYTE
            && accessor.component_type != UNSIGNED_SHORT && accessor.component_type
            != UNSIGNED_INT) || accessor.normalized {
            Err(
                "indices accessor "@ + decimal_digits(index as nat)
                    + " needs unsigned scalar components"@,
            )
        } else {
            match source_rows(source, index, 1) {
                Err(message) => Err(message),
                Ok(rows) => Ok(
                    Seq::new(
                        rows.len(),
                        |i: int| rows[i][0].truncated(usize::MAX as nat) as usize,
                    ),
                ),
            }
        }
    }
}

/// Reads the vertex indices of a primitive.
pub fn read_indices(source: &Source, index: usize) -> (result: Result<Vec<usize>, GltfError>)
    ensures
        yields(result, indices_of(source@, index as int), |values: Vec<usize>| values@),
{
    if index >= source.accessors.len() {
        return Err(GltfError::new("index accessor is out of range"));
    }
    let accessor: Accessor = source.accessors[index];
    if accessor.kind != AccessorKind::Scalar || (accessor.component_type != UNSIGNED_BYTE
        && accessor.component_type != UNSIGNED_SHORT && accessor.component_type != UNSIGNED_INT)
        || accessor.normalized {
        return Err(
            GltfError::numbered("indices accessor ", index, " needs unsigned scalar components"),
        );
    }
    let rows: Vec<Vec<Float32>> = read_accessor(
        source.buffers,
        source.views,
        source.accessors,
        index,
        1,
    )?;
    let ghost all = row_contents(rows@);
    assert(forall|j: int| 0 <= j < all.len() ==> (#[trigger] all[j]).len() == 1);
    let mut indices: Vec<usize> = Vec::new();
    let mut i: usize = 0;
    while i < rows.len()
        invariant
            i <= rows@.len(),
            all == row_contents(rows@),
            forall|j: int| 0 <= j < all.len() ==> (#[trigger] all[j]).len() == 1,
            indices@.len() == i,
            forall|j: int|
                0 <= j < i ==> indices@[j] == (#[trigger] all[j])[0].truncated(
                    usize::MAX as nat,
                ) as usize,
        decreases rows@.len() - i,
    {
        let row: &Vec<Float32> = &rows[i];
        assert(all[i as int] == row@);
        indices.push(row[0].truncate_to(usize::MAX as u64) as usize);
        i += 1;
    }
    assert(indices@ =~= Seq::new(
        all.len(),
        |j: int| all[j][0].truncated(usize::MAX as nat) as usize,
    ));
    Ok(indices)
}

} // verus!
