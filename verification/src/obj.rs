//! Wavefront OBJ text: positions, texture coordinates, normals, faces and material names.
//!
//! Faces are triangulated with a fan. Each face corner names one entry of each stream; each
//! distinct combination becomes one vertex.

use crate::decimal::{digits_value, is_digit, Reading};
use crate::float::Float32;
use crate::material::{lemma_next_position, Complaint, MtlError};
use crate::culling::Aabb;
use crate::derived::nothing;
use crate::math::{Vec2, Vec3};
use crate::mesh::{
    group_models, plain_vertex, GroupModel, MaterialGroup, Mesh, MeshModel, MeshVertex, rebuilt,
};
use crate::records::{
    find_next, is_text, join_words, joined, line_content, next_position, piece, read_line,
    read_single, read_unsigned, reading_value, single_reading, split_words, unsigned_number,
    value_of_reading, word_contents, words,
};
use crate::text::{characters, decimal_digits, decimal_text, join2, join3, text_of};
use vstd::prelude::*;
use vstd::string::*;

verus! {

/// Why a text is no mesh, and at which line; line zero is the whole file.
#[derive(Clone, Debug, PartialEq, Eq)]
pub struct ObjError {
    pub line: usize,
    pub message: String,
}

impl ObjError {
    /// The error as a line and a message.
    pub open spec fn complaint(self) -> Complaint {
        (self.line as int, self.message@)
    }

    pub fn new(line: usize, message: &str) -> (result: ObjError)
        ensures
            result.complaint() == (line as int, message@),
    {
        ObjError { line, message: message.to_owned() }
    }

    /// The error of a material library that line `line` names.
    pub fn from_mtl(line: usize, error: MtlError) -> (result: ObjError)
        ensures
            result.complaint() == (
                if error.line == 0 {
                    line as int
                } else {
                    error.line as int
                },
                error.message@,
            ),
    {
        ObjError {
            line: if error.line == 0 {
                line
            } else {
                error.line
            },
            message: error.message,
        }
    }

    /// The error as text, with its line where it has one.
    pub fn to_text(&self) -> (result: String)
        ensures
            result@ == (if self.line == 0 {
                self.message@
            } else {
                "line "@ + decimal_digits(self.line as nat) + ": "@ + self.message@
            }),
    {
        if self.line == 0 {
            self.message.clone()
        } else {
            let mut text: String = join3("line ", decimal_text(self.line as u64).as_str(), ": ");
            text.append(self.message.as_str());
            text
        }
    }
}

/// The values that the words of a record write, from `index` on, after `found`.
pub open spec fn values_from(
    list: Seq<Seq<char>>,
    record: Seq<char>,
    index: int,
    found: Seq<Float32>,
) -> Result<Seq<Float32>, Seq<char>>
    decreases list.len() - index,
{
    if !(0 <= index < list.len()) {
        Ok(found)
    } else {
        match single_reading(list[index]) {
            Reading::Invalid => Err("invalid "@ + record + " value "@ + list[index]),
            read => values_from(list, record, index + 1, found.push(reading_value(read))),
        }
    }
}

/// The first three values of a record.
pub open spec fn triple_in(list: Seq<Seq<char>>, record: Seq<char>) -> Result<Vec3, Seq<char>> {
    match values_from(list, record, 1, Seq::empty()) {
        Err(message) => Err(message),
        Ok(values) => if values.len() < 3 {
            Err(record + " needs at least 3 values"@)
        } else {
            Ok(Vec3 { x: values[0], y: values[1], z: values[2] })
        },
    }
}

/// The first two values of a record.
pub open spec fn pair_in(list: Seq<Seq<char>>) -> Result<Vec2, Seq<char>> {
    match values_from(list, "vt"@, 1, Seq::empty()) {
        Err(message) => Err(message),
        Ok(values) => if values.len() < 2 {
            Err("vt needs at least 2 values"@)
        } else {
            Ok(Vec2 { x: values[0], y: values[1] })
        },
    }
}

/// The fields of a face corner from `start` on, after `found`.
pub open spec fn fields_from(token: Seq<char>, start: int, found: Seq<Seq<char>>) -> Seq<Seq<char>>
    decreases token.len() + 1 - start,
{
    if !(0 <= start <= token.len()) {
        found
    } else {
        let end = next_position(token, '/', start);
        proof {
            lemma_next_position(token, '/', start);
        }
        fields_from(token, end + 1, found.push(token.subrange(start, end)))
    }
}

/// The fields of a face corner, which slashes separate.
pub open spec fn fields(token: Seq<char>) -> Seq<Seq<char>> {
    fields_from(token, 0, Seq::empty())
}

/// The signed number that a text writes, where it is one that an `isize` holds.
pub open spec fn signed_number(text: Seq<char>) -> Option<int> {
    if text.len() > 0 && text[0] == '-' {
        let digits = text.subrange(1, text.len() as int);
        if digits.len() > 0 && (forall|i: int|
            0 <= i < digits.len() ==> is_digit(#[trigger] digits[i])) && digits_value(digits)
            <= isize::MAX + 1 {
            Some(-(digits_value(digits) as int))
        } else {
            None
        }
    } else {
        match unsigned_number(text, isize::MAX as nat) {
            Some(value) => Some(value as int),
            None => None,
        }
    }
}

/// The decimal digits of a number, after a minus where it is negative.
pub open spec fn signed_digits(value: int) -> Seq<char> {
    if value < 0 {
        seq!['-'] + decimal_digits((-value) as nat)
    } else {
        decimal_digits(value as nat)
    }
}

/// The index that a field of a face corner writes.
pub open spec fn index_in(field: Seq<char>, name: Seq<char>, token: Seq<char>) -> Result<
    int,
    Seq<char>,
> {
    match signed_number(field) {
        None => Err("invalid "@ + name + " index "@ + field + (" in "@ + token)),
        Some(index) => if index == 0 {
            Err("OBJ indices cannot be zero"@)
        } else {
            Ok(index)
        },
    }
}

/// The index that an optional field writes.
pub open spec fn optional_index(list: Seq<Seq<char>>, at: int, name: Seq<char>, token: Seq<char>) -> Result<
    Option<int>,
    Seq<char>,
> {
    if at >= list.len() || list[at].len() == 0 {
        Ok(None)
    } else {
        match index_in(list[at], name, token) {
            Err(message) => Err(message),
            Ok(index) => Ok(Some(index)),
        }
    }
}

/// What a face corner names: a position, and maybe a texture coordinate and a normal.
pub struct Corner {
    pub position: int,
    pub texcoord: Option<int>,
    pub normal: Option<int>,
}

pub open spec fn corner_in(token: Seq<char>) -> Result<Corner, Seq<char>> {
    let list = fields(token);
    if list.len() > 3 || list[0].len() == 0 {
        Err("invalid face vertex "@ + token)
    } else {
        match index_in(list[0], "position"@, token) {
            Err(message) => Err(message),
            Ok(position) => if list.len() >= 2 && list.last().len() == 0 {
                Err("invalid face vertex "@ + token)
            } else {
                match optional_index(list, 1, "texcoord"@, token) {
                    Err(message) => Err(message),
                    Ok(texcoord) => match optional_index(list, 2, "normal"@, token) {
                        Err(message) => Err(message),
                        Ok(normal) => Ok(Corner { position, texcoord, normal }),
                    },
                }
            },
        }
    }
}

/// The entry of a stream of `length` entries that an index names, from the front or the back.
pub open spec fn resolved(index: int, length: nat, kind: Seq<char>) -> Result<int, Seq<char>> {
    let entry = if index > 0 {
        index - 1
    } else {
        length + index
    };
    if 0 <= entry < length {
        Ok(entry)
    } else {
        Err(kind + " index "@ + signed_digits(index) + " is out of range"@)
    }
}

pub open spec fn optional_resolved(index: Option<int>, length: nat, kind: Seq<char>) -> Result<
    Option<int>,
    Seq<char>,
> {
    match index {
        None => Ok(None),
        Some(found) => match resolved(found, length, kind) {
            Err(message) => Err(message),
            Ok(entry) => Ok(Some(entry)),
        },
    }
}

/// The stream entries of one vertex.
#[derive(Clone, Copy, PartialEq, Eq, Structural, Debug)]
pub struct VertexKey {
    pub position: usize,
    pub texcoord: Option<usize>,
    pub normal: Option<usize>,
}

/// An optional entry as an index.
pub open spec fn entry_of(entry: Option<int>) -> Option<usize> {
    match entry {
        Some(index) => Some(index as usize),
        None => None,
    }
}

/// A mesh while it is read.
#[verifier::ext_equal]
pub struct ObjState {
    pub positions: Seq<Vec3>,
    pub texcoords: Seq<Vec2>,
    pub normals: Seq<Vec3>,
    pub keys: Seq<VertexKey>,
    pub triangles: Seq<[usize; 3]>,
    pub groups: Seq<GroupModel>,
    pub active: Option<Seq<char>>,
    pub active_start: usize,
}

/// The vertex key that a face corner names.
pub open spec fn key_in(state: ObjState, token: Seq<char>) -> Result<VertexKey, Seq<char>> {
    match corner_in(token) {
        Err(message) => Err(message),
        Ok(corner) => match resolved(corner.position, state.positions.len(), "position"@) {
            Err(message) => Err(message),
            Ok(position) => match optional_resolved(
                corner.texcoord,
                state.texcoords.len(),
                "texcoord"@,
            ) {
                Err(message) => Err(message),
                Ok(texcoord) => match optional_resolved(
                    corner.normal,
                    state.normals.len(),
                    "normal"@,
                ) {
                    Err(message) => Err(message),
                    Ok(normal) => Ok(
                        VertexKey {
                            position: position as usize,
                            texcoord: entry_of(texcoord),
                            normal: entry_of(normal),
                        },
                    ),
                },
            },
        },
    }
}

/// The first vertex from `index` on that has a key, or how many there are.
pub open spec fn vertex_with(keys: Seq<VertexKey>, key: VertexKey, index: int) -> int
    decreases keys.len() - index,
{
    if 0 <= index < keys.len() && keys[index] != key {
        vertex_with(keys, key, index + 1)
    } else {
        index
    }
}

/// The keys once a vertex with this key is among them.
pub open spec fn with_key(keys: Seq<VertexKey>, key: VertexKey) -> Seq<VertexKey> {
    if vertex_with(keys, key, 0) < keys.len() {
        keys
    } else {
        keys.push(key)
    }
}

/// The keys and the face once the corners from `index` on are read.
pub open spec fn face_from(
    state: ObjState,
    list: Seq<Seq<char>>,
    index: int,
    keys: Seq<VertexKey>,
    face: Seq<usize>,
) -> Result<(Seq<VertexKey>, Seq<usize>), Seq<char>>
    decreases list.len() - index,
{
    if !(0 <= index < list.len()) {
        Ok((keys, face))
    } else {
        match key_in(state, list[index]) {
            Err(message) => Err(message),
            Ok(key) => face_from(
                state,
                list,
                index + 1,
                with_key(keys, key),
                face.push(vertex_with(keys, key, 0) as usize),
            ),
        }
    }
}

/// The fan of triangles of a face.
pub open spec fn fan(face: Seq<usize>) -> Seq<[usize; 3]> {
    Seq::new((face.len() - 2) as nat, |i: int| [face[0], face[i + 1], face[i + 2]])
}

/// The groups once the active one ends, which counts only if it has triangles.
pub open spec fn finished_groups(state: ObjState) -> Seq<GroupModel> {
    match state.active {
        Some(name) => if state.active_start < state.triangles.len() {
            state.groups.push(
                GroupModel {
                    name,
                    start: state.active_start,
                    end: state.triangles.len() as usize,
                },
            )
        } else {
            state.groups
        },
        None => state.groups,
    }
}

/// What a line makes of a mesh.
pub open spec fn obj_line(state: ObjState, content: Seq<char>) -> Result<ObjState, Seq<char>> {
    let list = words(content);
    if list.len() == 0 {
        Ok(state)
    } else if list[0] == "v"@ {
        match triple_in(list, "v"@) {
            Err(message) => Err(message),
            Ok(value) => Ok(ObjState { positions: state.positions.push(value), ..state }),
        }
    } else if list[0] == "vt"@ {
        match pair_in(list) {
            Err(message) => Err(message),
            Ok(value) => Ok(ObjState { texcoords: state.texcoords.push(value), ..state }),
        }
    } else if list[0] == "vn"@ {
        match triple_in(list, "vn"@) {
            Err(message) => Err(message),
            Ok(value) => Ok(ObjState { normals: state.normals.push(value), ..state }),
        }
    } else if list[0] == "f"@ {
        if list.len() < 4 {
            Err("f needs at least 3 vertices"@)
        } else {
            match face_from(state, list, 1, state.keys, Seq::empty()) {
                Err(message) => Err(message),
                Ok((keys, face)) => Ok(
                    ObjState { keys, triangles: state.triangles + fan(face), ..state },
                ),
            }
        }
    } else if list[0] == "usemtl"@ {
        if list.len() < 2 {
            Err("usemtl needs a name"@)
        } else {
            Ok(
                ObjState {
                    groups: finished_groups(state),
                    active: Some(joined(list, 1)),
                    active_start: state.triangles.len() as usize,
                    ..state
                },
            )
        }
    } else {
        Ok(state)
    }
}

/// What the lines from `start` on, the first of which is line `line`, make of a mesh.
pub open spec fn obj_lines(text: Seq<char>, start: int, line: int, state: ObjState) -> Result<
    ObjState,
    Complaint,
>
    decreases text.len() + 1 - start,
{
    if !(0 <= start < text.len()) {
        Ok(state)
    } else {
        let end = next_position(text, '\n', start);
        proof {
            lemma_next_position(text, '\n', start);
        }
        match obj_line(state, line_content(text.subrange(start, end))) {
            Err(message) => Err((line, message)),
            Ok(next) => obj_lines(text, end + 1, line + 1, next),
        }
    }
}

/// A mesh before anything is read.
pub open spec fn empty_state() -> ObjState {
    ObjState {
        positions: Seq::empty(),
        texcoords: Seq::empty(),
        normals: Seq::empty(),
        keys: Seq::empty(),
        triangles: Seq::empty(),
        groups: Seq::empty(),
        active: None,
        active_start: 0,
    }
}

/// The vertex with a key. Without a normal it has a derived one.
pub open spec fn vertex_of(state: ObjState, key: VertexKey) -> MeshVertex {
    plain_vertex(
        state.positions[key.position as int],
        match key.texcoord {
            Some(entry) => Some(state.texcoords[entry as int]),
            None => None,
        },
        match key.normal {
            Some(entry) => Some(state.normals[entry as int]),
            None => None,
        },
        key.normal is None,
    )
}

/// The mesh that was read, with everything derived.
pub open spec fn finished_mesh(state: ObjState) -> MeshModel {
    rebuilt(
        MeshModel {
            vertices: Seq::new(state.keys.len(), |i: int| vertex_of(state, state.keys[i])),
            triangles: state.triangles,
            position_indices: Seq::new(state.keys.len(), |i: int| state.keys[i].position),
            groups: finished_groups(state),
            bounds: Aabb { min: nothing(), max: nothing() },
        },
    )
}

/// The mesh that a text describes.
pub open spec fn mesh_in(text: Seq<char>) -> Result<MeshModel, Complaint> {
    match obj_lines(text, 0, 1, empty_state()) {
        Err(complaint) => Err(complaint),
        Ok(state) => Ok(finished_mesh(state)),
    }
}

fn whole_text(text: &[char]) -> (result: String)
    ensures
        result@ == text@,
{
    let made: String = text_of(text, 0, text.len());
    assert(text@.subrange(0, text@.len() as int) =~= text@);
    made
}

fn parse_floats(list: &Vec<Vec<char>>, record: &str) -> (result: Result<Vec<Float32>, String>)
    requires
        list@.len() >= 1,
    ensures
        match result {
            Ok(values) => values_from(word_contents(list@), record@, 1, Seq::empty()) == Ok::<
                Seq<Float32>,
                Seq<char>,
            >(values@),
            Err(message) => values_from(word_contents(list@), record@, 1, Seq::empty()) == Err::<
                Seq<Float32>,
                Seq<char>,
            >(message@),
        },
{
    let ghost all = word_contents(list@);
    let mut values: Vec<Float32> = Vec::new();
    let mut i: usize = 1;
    while i < list.len()
        invariant
            1 <= i <= list@.len(),
            all == word_contents(list@),
            values_from(all, record@, 1, Seq::empty()) == values_from(
                all,
                record@,
                i as int,
                values@,
            ),
        decreases list@.len() - i,
    {
        assert(all[i as int] == list@[i as int]@);
        match read_single(list[i].as_slice()) {
            Reading::Invalid => {
                let mut message: String = join3("invalid ", record, " value ");
                message.append(whole_text(list[i].as_slice()).as_str());
                return Err(message);
            },
            read => {
                values.push(value_of_reading(read));
            },
        }
        i += 1;
    }
    Ok(values)
}

fn parse_vec3(list: &Vec<Vec<char>>, record: &str) -> (result: Result<Vec3, String>)
    requires
        list@.len() >= 1,
    ensures
        match result {
            Ok(value) => triple_in(word_contents(list@), record@) == Ok::<Vec3, Seq<char>>(value),
            Err(message) => triple_in(word_contents(list@), record@) == Err::<Vec3, Seq<char>>(
                message@,
            ),
        },
{
    let values: Vec<Float32> = parse_floats(list, record)?;
    if values.len() < 3 {
        return Err(join2(record, " needs at least 3 values"));
    }
    Ok(Vec3 { x: values[0], y: values[1], z: values[2] })
}

fn parse_vec2(list: &Vec<Vec<char>>) -> (result: Result<Vec2, String>)
    requires
        list@.len() >= 1,
    ensures
        match result {
            Ok(value) => pair_in(word_contents(list@)) == Ok::<Vec2, Seq<char>>(value),
            Err(message) => pair_in(word_contents(list@)) == Err::<Vec2, Seq<char>>(message@),
        },
{
    let values: Vec<Float32> = parse_floats(list, "vt")?;
    if values.len() < 2 {
        return Err("vt needs at least 2 values".to_owned());
    }
    Ok(Vec2 { x: values[0], y: values[1] })
}

fn split_fields(token: &[char]) -> (result: Vec<Vec<char>>)
    ensures
        word_contents(result@) == fields(token@),
        result@.len() >= 1,
{
    let mut found: Vec<Vec<char>> = Vec::new();
    let mut start: usize = 0;
    assert(word_contents(found@) =~= Seq::empty());
    loop
        invariant
            start <= token@.len(),
            fields(token@) == fields_from(token@, start as int, word_contents(found@)),
        decreases token@.len() - start,
    {
        let end: usize = find_next(token, '/', start);
        let field: Vec<char> = piece(token, start, end);
        let ghost before = word_contents(found@);
        let ghost content = field@;
        found.push(field);
        assert(word_contents(found@) =~= before.push(content));
        if end >= token.len() {
            assert(fields_from(token@, end + 1, word_contents(found@)) == word_contents(found@));
            return found;
        }
        start = end + 1;
    }
}

fn parse_signed(text: &[char]) -> (result: Option<i64>)
    ensures
        match result {
            Some(value) => signed_number(text@) == Some(value as int) && -isize::MAX - 1 <= value
                <= isize::MAX,
            None => signed_number(text@) is None,
        },
{
    if text.len() > 0 && text[0] == '-' {
        let digits: Vec<char> = piece(text, 1, text.len());
        if digits.len() > 0 && digits[0] == '+' {
            assert(!is_digit(digits@[0]));
            return None;
        }
        match read_unsigned(digits.as_slice(), isize::MAX as u64 + 1) {
            Some(value) => {
                if value > isize::MAX as u64 {
                    Some(-(isize::MAX as i64) - 1)
                } else {
                    Some(-(value as i64))
                }
            },
            None => None,
        }
    } else {
        match read_unsigned(text, isize::MAX as u64) {
            Some(value) => Some(value as i64),
            None => None,
        }
    }
}

fn signed_text(value: i64) -> (result: String)
    ensures
        result@ == signed_digits(value as int),
{
    if value < 0 {
        let digits: String = decimal_text(
            if value == i64::MIN {
                0x8000_0000_0000_0000
            } else {
                (-value) as u64
            },
        );
        let mut text: String = String::new();
        text.push('-');
        text.append(digits.as_str());
        assert(text@ =~= signed_digits(value as int));
        text
    } else {
        decimal_text(value as u64)
    }
}

fn parse_index(field: &[char], name: &str, token: &[char]) -> (result: Result<i64, String>)
    ensures
        match result {
            Ok(index) => index_in(field@, name@, token@) == Ok::<int, Seq<char>>(index as int)
                && -isize::MAX - 1 <= index <= isize::MAX,
            Err(message) => index_in(field@, name@, token@) == Err::<int, Seq<char>>(message@),
        },
{
    match parse_signed(field) {
        None => {
            let mut message: String = join3("invalid ", name, " index ");
            message.append(whole_text(field).as_str());
            message.append(join2(" in ", whole_text(token).as_str()).as_str());
            Err(message)
        },
        Some(index) => if index == 0 {
            Err("OBJ indices cannot be zero".to_owned())
        } else {
            Ok(index)
        },
    }
}

/// An optional number as an integer.
pub open spec fn int_of(value: Option<i64>) -> Option<int> {
    match value {
        Some(found) => Some(found as int),
        None => None,
    }
}

fn parse_optional_index(list: &Vec<Vec<char>>, at: usize, name: &str, token: &[char]) -> (result:
    Result<Option<i64>, String>)
    ensures
        match result {
            Ok(index) => optional_index(word_contents(list@), at as int, name@, token@) == Ok::<
                Option<int>,
                Seq<char>,
            >(int_of(index)) && (index matches Some(value) ==> -isize::MAX - 1 <= value
                <= isize::MAX),
            Err(message) => optional_index(word_contents(list@), at as int, name@, token@)
                == Err::<Option<int>, Seq<char>>(message@),
        },
{
    let ghost all = word_contents(list@);
    if at >= list.len() {
        return Ok(None);
    }
    assert(all[at as int] == list@[at as int]@);
    if list[at].len() == 0 {
        return Ok(None);
    }
    Ok(Some(parse_index(list[at].as_slice(), name, token)?))
}

/// What a face corner names.
struct FaceReference {
    position: i64,
    texcoord: Option<i64>,
    normal: Option<i64>,
}

fn parse_face_reference(token: &[char]) -> (result: Result<FaceReference, String>)
    ensures
        match result {
            Ok(found) => corner_in(token@) == Ok::<Corner, Seq<char>>(
                Corner {
                    position: found.position as int,
                    texcoord: int_of(found.texcoord),
                    normal: int_of(found.normal),
                },
            ) && -isize::MAX - 1 <= found.position <= isize::MAX && (
            found.texcoord matches Some(value) ==> -isize::MAX - 1 <= value <= isize::MAX) && (
            found.normal matches Some(value) ==> -isize::MAX - 1 <= value <= isize::MAX),
            Err(message) => corner_in(token@) == Err::<Corner, Seq<char>>(message@),
        },
{
    let list: Vec<Vec<char>> = split_fields(token);
    let ghost all = fields(token@);
    assert(all == word_contents(list@));
    assert(all[0] == list@[0]@);
    if list.len() > 3 || list[0].len() == 0 {
        return Err(join2("invalid face vertex ", whole_text(token).as_str()));
    }
    let position: i64 = parse_index(list[0].as_slice(), "position", token)?;
    let last: usize = list.len() - 1;
    assert(all[last as int] == list@[last as int]@);
    if list.len() >= 2 && list[last].len() == 0 {
        return Err(join2("invalid face vertex ", whole_text(token).as_str()));
    }
    let texcoord: Option<i64> = parse_optional_index(&list, 1, "texcoord", token)?;
    let normal: Option<i64> = parse_optional_index(&list, 2, "normal", token)?;
    Ok(FaceReference { position, texcoord, normal })
}

fn resolve_index(index: i64, length: usize, kind: &str) -> (result: Result<usize, String>)
    requires
        -isize::MAX - 1 <= index <= isize::MAX,
    ensures
        match result {
            Ok(entry) => resolved(index as int, length as nat, kind@) == Ok::<int, Seq<char>>(
                entry as int,
            ) && entry < length,
            Err(message) => resolved(index as int, length as nat, kind@) == Err::<int, Seq<char>>(
                message@,
            ),
        },
{
    let entry: i128 = if index > 0 {
        index as i128 - 1
    } else {
        length as i128 + index as i128
    };
    if entry >= 0 && entry < length as i128 {
        return Ok(entry as usize);
    }
    let mut message: String = join3(kind, " index ", signed_text(index).as_str());
    message.append(" is out of range");
    Err(message)
}

/// An optional entry as an integer.
pub open spec fn entry_as_int(entry: Option<usize>) -> Option<int> {
    match entry {
        Some(found) => Some(found as int),
        None => None,
    }
}

fn resolve_optional(index: Option<i64>, length: usize, kind: &str) -> (result: Result<
    Option<usize>,
    String,
>)
    requires
        index matches Some(value) ==> -isize::MAX - 1 <= value <= isize::MAX,
    ensures
        match result {
            Ok(entry) => optional_resolved(int_of(index), length as nat, kind@) == Ok::<
                Option<int>,
                Seq<char>,
            >(entry_as_int(entry)) && (entry matches Some(found) ==> found < length),
            Err(message) => optional_resolved(int_of(index), length as nat, kind@) == Err::<
                Option<int>,
                Seq<char>,
            >(message@),
        },
{
    match index {
        None => Ok(None),
        Some(found) => Ok(Some(resolve_index(found, length, kind)?)),
    }
}

/// Whether a key names entries of the streams.
pub open spec fn key_fits(state: ObjState, key: VertexKey) -> bool {
    &&& key.position < state.positions.len()
    &&& key.texcoord matches Some(entry) ==> entry < state.texcoords.len()
    &&& key.normal matches Some(entry) ==> entry < state.normals.len()
}

/// A mesh while it is read. For each position, `users` lists the vertices that have it.
struct ObjReader {
    positions: Vec<Vec3>,
    texcoords: Vec<Vec2>,
    normals: Vec<Vec3>,
    keys: Vec<VertexKey>,
    users: Vec<Vec<usize>>,
    triangles: Vec<[usize; 3]>,
    groups: Vec<MaterialGroup>,
    active: Option<String>,
    active_start: usize,
}

impl View for ObjReader {
    type V = ObjState;

    closed spec fn view(&self) -> ObjState {
        ObjState {
            positions: self.positions@,
            texcoords: self.texcoords@,
            normals: self.normals@,
            keys: self.keys@,
            triangles: self.triangles@,
            groups: group_models(self.groups@),
            active: match self.active {
                Some(name) => Some(name@),
                None => None,
            },
            active_start: self.active_start,
        }
    }
}

/// Whether `users` lists the vertices of each position.
spec fn users_fit(users: Seq<Vec<usize>>, keys: Seq<VertexKey>) -> bool {
    &&& forall|p: int, k: int|
        0 <= p < users.len() && 0 <= k < users[p]@.len() ==> (#[trigger] users[p]@[k]) < keys.len()
            && keys[users[p]@[k] as int].position == p
    &&& forall|i: int|
        0 <= i < keys.len() ==> (#[trigger] keys[i]).position < users.len()
            && users[keys[i].position as int]@.contains(i as usize)
}

/// Whether keys are distinct.
pub open spec fn distinct_keys(keys: Seq<VertexKey>) -> bool {
    forall|i: int, j: int| 0 <= i < j < keys.len() ==> #[trigger] keys[i] != #[trigger] keys[j]
}

/// What holds of every mesh while it is read.
pub open spec fn state_is_sound(state: ObjState) -> bool {
    &&& distinct_keys(state.keys)
    &&& forall|i: int| 0 <= i < state.keys.len() ==> key_fits(state, #[trigger] state.keys[i])
    &&& forall|t: int, k: int|
        0 <= t < state.triangles.len() && 0 <= k < 3 ==> #[trigger] state.triangles[t][k]
            < state.keys.len()
    &&& groups_are_ordered(state.groups, state.active_start)
    &&& state.active_start <= state.triangles.len()
}

/// Whether groups have triangles, follow one another and end at `limit` or before.
pub open spec fn groups_are_ordered(groups: Seq<GroupModel>, limit: usize) -> bool {
    &&& forall|i: int|
        0 <= i < groups.len() ==> (#[trigger] groups[i]).start < groups[i].end <= limit
    &&& forall|i: int, j: int|
        0 <= i < j < groups.len() ==> (#[trigger] groups[i]).end <= (#[trigger] groups[j]).start
}

impl ObjReader {
    spec fn sound(self) -> bool {
        &&& users_fit(self.users@, self.keys@)
        &&& self.users@.len() == self.positions@.len()
        &&& state_is_sound(self@)
    }
}

proof fn lemma_vertex_with(keys: Seq<VertexKey>, key: VertexKey, index: int)
    requires
        0 <= index <= keys.len(),
    ensures
        index <= vertex_with(keys, key, index) <= keys.len(),
        vertex_with(keys, key, index) < keys.len() ==> keys[vertex_with(keys, key, index)] == key,
        forall|j: int| index <= j < vertex_with(keys, key, index) ==> #[trigger] keys[j] != key,
    decreases keys.len() - index,
{
    if index < keys.len() && keys[index] != key {
        lemma_vertex_with(keys, key, index + 1);
    }
}

/// The vertex with a key is found where it stands.
proof fn lemma_vertex_found(keys: Seq<VertexKey>, key: VertexKey, at: int)
    requires
        distinct_keys(keys),
        0 <= at < keys.len(),
        keys[at] == key,
    ensures
        vertex_with(keys, key, 0) == at,
{
    lemma_vertex_with(keys, key, 0);
    let found = vertex_with(keys, key, 0);
    if found < at {
        assert(keys[found] != keys[at]);
    }
}

impl ObjReader {
    fn new() -> (result: ObjReader)
        ensures
            result@ == empty_state(),
            result.sound(),
    {
        let reader: ObjReader = ObjReader {
            positions: Vec::new(),
            texcoords: Vec::new(),
            normals: Vec::new(),
            keys: Vec::new(),
            users: Vec::new(),
            triangles: Vec::new(),
            groups: Vec::new(),
            active: None,
            active_start: 0,
        };
        assert(reader@ =~= empty_state());
        reader
    }

    fn find_key(&self, token: &[char]) -> (result: Result<VertexKey, String>)
        ensures
            match result {
                Ok(key) => key_in(self@, token@) == Ok::<VertexKey, Seq<char>>(key) && key_fits(
                    self@,
                    key,
                ),
                Err(message) => key_in(self@, token@) == Err::<VertexKey, Seq<char>>(message@),
            },
    {
        let found: FaceReference = parse_face_reference(token)?;
        let position: usize = resolve_index(found.position, self.positions.len(), "position")?;
        let texcoord: Option<usize> = resolve_optional(
            found.texcoord,
            self.texcoords.len(),
            "texcoord",
        )?;
        let normal: Option<usize> = resolve_optional(found.normal, self.normals.len(), "normal")?;
        Ok(VertexKey { position, texcoord, normal })
    }

    /// The vertex with a key, which becomes one where there is none.
    fn take_key(&mut self, key: VertexKey) -> (result: usize)
        requires
            old(self).sound(),
            key_fits(old(self)@, key),
        ensures
            result == vertex_with(old(self)@.keys, key, 0),
            result < final(self)@.keys.len(),
            final(self)@ == (ObjState { keys: with_key(old(self)@.keys, key), ..old(self)@ }),
            final(self).sound(),
    {
        let ghost keys = self.keys@;
        let place: usize = key.position;
        let mut k: usize = 0;
        while k < self.users[place].len()
            invariant
                *self == *old(self),
                self.sound(),
                keys == self.keys@,
                place == key.position,
                place < self.users@.len(),
                k <= self.users@[place as int]@.len(),
                forall|j: int|
                    0 <= j < k ==> keys[(#[trigger] self.users@[place as int]@[j]) as int] != key,
            decreases self.users@[place as int]@.len() - k,
        {
            let candidate: usize = self.users[place][k];
            assert(self.users@[place as int]@[k as int] == candidate);
            if self.keys[candidate] == key {
                proof {
                    lemma_vertex_found(keys, key, candidate as int);
                }
                return candidate;
            }
            k += 1;
        }
        let index: usize = self.keys.len();
        proof {
            lemma_vertex_with(keys, key, 0);
            let found = vertex_with(keys, key, 0);
            if found < keys.len() {
                assert(keys[found].position < self.users@.len());
                let at = choose|at: int|
                    0 <= at < self.users@[place as int]@.len() && self.users@[place as int]@[at]
                        == found as usize;
                assert(keys[self.users@[place as int]@[at] as int] != key);
            }
        }
        self.keys.push(key);
        let ghost before = self.users@;
        self.users[place].push(index);
        proof {
            let after = self.users@;
            assert(after =~= before.update(place as int, after[place as int]));
            assert(after[place as int]@ == before[place as int]@.push(index));
            assert forall|p: int, k: int|
                0 <= p < after.len() && 0 <= k < after[p]@.len() implies (
            #[trigger] after[p]@[k]) < self.keys@.len() && self.keys@[after[p]@[k] as int].position
                == p by {
                if p == place && k == before[p]@.len() {
                } else {
                    assert(after[p]@[k] == before[p]@[k]);
                }
            }
            assert forall|i: int| 0 <= i < self.keys@.len() implies (
            #[trigger] self.keys@[i]).position < after.len()
                && after[self.keys@[i].position as int]@.contains(i as usize) by {
                if i == keys.len() {
                    assert(after[place as int]@[before[place as int]@.len() as int] == index);
                } else {
                    assert(self.keys@[i] == keys[i]);
                    let p = keys[i].position as int;
                    let at = choose|at: int|
                        0 <= at < before[p]@.len() && before[p]@[at] == i as usize;
                    assert(after[p]@[at] == i as usize);
                }
            }
            assert(self@ =~= (ObjState { keys: keys.push(key), ..old(self)@ }));
            assert(state_is_sound(self@)) by {
                assert forall|i: int| 0 <= i < self@.keys.len() implies key_fits(
                    self@,
                    #[trigger] self@.keys[i],
                ) by {
                    if i < keys.len() {
                        assert(self@.keys[i] == keys[i]);
                        assert(key_fits(old(self)@, old(self)@.keys[i]));
                    }
                }
                assert forall|i: int, j: int| 0 <= i < j < self@.keys.len() implies
                #[trigger] self@.keys[i] != #[trigger] self@.keys[j] by {
                    if j == keys.len() {
                        assert(keys[i] != key);
                    }
                }
                assert forall|t: int, k: int|
                    0 <= t < self@.triangles.len() && 0 <= k < 3 implies
                #[trigger] self@.triangles[t][k] < self@.keys.len() by {
                    assert(old(self)@.triangles[t][k] < keys.len());
                }
            }
        }
        index
    }

    fn take_face(&mut self, list: &Vec<Vec<char>>) -> (result: Result<(), String>)
        requires
            old(self).sound(),
            list@.len() >= 4,
        ensures
            match result {
                Ok(_) => {
                    &&& final(self).sound()
                    &&& face_from(
                        old(self)@,
                        word_contents(list@),
                        1,
                        old(self)@.keys,
                        Seq::empty(),
                    ) matches Ok((keys, face)) && final(self)@ == (ObjState {
                        keys,
                        triangles: old(self)@.triangles + fan(face),
                        ..old(self)@
                    })
                },
                Err(message) => face_from(
                    old(self)@,
                    word_contents(list@),
                    1,
                    old(self)@.keys,
                    Seq::empty(),
                ) == Err::<(Seq<VertexKey>, Seq<usize>), Seq<char>>(message@),
            },
    {
        let ghost all = word_contents(list@);
        let ghost start = self@;
        let mut face: Vec<usize> = Vec::new();
        let mut i: usize = 1;
        while i < list.len()
            invariant
                1 <= i <= list@.len(),
                list@.len() >= 4,
                all == word_contents(list@),
                start == old(self)@,
                self.sound(),
                self@ == (ObjState { keys: self@.keys, ..start }),
                face@.len() == i - 1,
                forall|j: int| 0 <= j < face@.len() ==> #[trigger] face@[j] < self@.keys.len(),
                face_from(start, all, 1, start.keys, Seq::empty()) == face_from(
                    start,
                    all,
                    i as int,
                    self@.keys,
                    face@,
                ),
            decreases list@.len() - i,
        {
            assert(all[i as int] == list@[i as int]@);
            let key: VertexKey = match self.find_key(list[i].as_slice()) {
                Ok(key) => key,
                Err(message) => {
                    proof {
                        lemma_key_ignores_vertices(self@, start, all[i as int]);
                    }
                    return Err(message);
                },
            };
            proof {
                lemma_key_ignores_vertices(self@, start, all[i as int]);
                lemma_vertex_with(self@.keys, key, 0);
            }
            let index: usize = self.take_key(key);
            face.push(index);
            i += 1;
        }
        let mut t: usize = 1;
        let ghost before = self@;
        let ghost corners = face@;
        assert(before.triangles + fan(corners).take(0) =~= before.triangles);
        while t + 1 < face.len()
            invariant
                1 <= t,
                t + 1 <= face@.len() <= usize::MAX,
                corners == face@,
                self.sound(),
                before.triangles == start.triangles,
                self@ == (ObjState {
                    triangles: before.triangles + fan(corners).take(t - 1),
                    ..before
                }),
                forall|j: int| 0 <= j < face@.len() ==> #[trigger] face@[j] < self@.keys.len(),
            decreases face@.len() - t,
        {
            let triangle: [usize; 3] = [face[0], face[t], face[t + 1]];
            let ghost now = self@;
            proof {
                assert(triangle@ =~= fan(corners)[t - 1]@);
                assert(triangle =~= fan(corners)[t - 1]);
            }
            self.triangles.push(triangle);
            proof {
                assert(self@.triangles =~= before.triangles + fan(corners).take(t as int));
                assert(self@ =~= (ObjState {
                    triangles: before.triangles + fan(corners).take(t as int),
                    ..before
                }));
                assert(face@[0] < self@.keys.len() && face@[t as int] < self@.keys.len()
                    && face@[t + 1] < self@.keys.len());
                assert forall|u: int, k: int|
                    0 <= u < self@.triangles.len() && 0 <= k < 3 implies
                #[trigger] self@.triangles[u][k] < self@.keys.len() by {
                    if u < now.triangles.len() {
                        assert(self@.triangles[u] == now.triangles[u]);
                        assert(now.triangles[u][k] < now.keys.len());
                    } else {
                        assert(self@.triangles[u] == triangle);
                        assert(k == 0 || k == 1 || k == 2);
                    }
                }
                assert(forall|j: int|
                    0 <= j < self@.keys.len() ==> key_fits(now, #[trigger] self@.keys[j])
                        ==> key_fits(self@, self@.keys[j]));
            }
            t += 1;
        }
        assert(fan(corners).take(t - 1) =~= fan(corners));
        Ok(())
    }

    fn finish_group(&mut self)
        requires
            old(self).sound(),
        ensures
            final(self)@ == (ObjState {
                groups: finished_groups(old(self)@),
                active: None,
                active_start: old(self)@.triangles.len() as usize,
                ..old(self)@
            }),
            final(self).sound(),
    {
        let ghost before = self@;
        let end: usize = self.triangles.len();
        let start: usize = self.active_start;
        match self.active.take() {
            Some(name) => {
                if start < end {
                    let group: MaterialGroup = MaterialGroup { material_name: name, start, end };
                    let ghost found = group@;
                    self.groups.push(group);
                    assert(self@.groups =~= before.groups.push(found));
                }
            },
            None => {},
        }
        self.active_start = end;
        assert(self@.groups =~= finished_groups(before));
        assert(forall|j: int|
            0 <= j < self@.keys.len() ==> key_fits(before, #[trigger] self@.keys[j]) ==> key_fits(
                self@,
                self@.keys[j],
            ));
        assert(self@.triangles == before.triangles);
        assert forall|t: int, k: int| 0 <= t < self@.triangles.len() && 0 <= k < 3 implies
        #[trigger] self@.triangles[t][k] < self@.keys.len() by {
            assert(before.triangles[t][k] < before.keys.len());
        }
    }

    fn take_line(&mut self, content: &[char]) -> (result: Result<(), String>)
        requires
            old(self).sound(),
        ensures
            match result {
                Ok(_) => final(self).sound() && obj_line(old(self)@, content@) == Ok::<
                    ObjState,
                    Seq<char>,
                >(final(self)@),
                Err(message) => obj_line(old(self)@, content@) == Err::<ObjState, Seq<char>>(
                    message@,
                ),
            },
    {
        let list: Vec<Vec<char>> = split_words(content);
        let ghost all = words(content@);
        assert(all.len() == list@.len());
        if list.len() == 0 {
            return Ok(());
        }
        assert(all[0] == list@[0]@);
        let ghost before = self@;
        if is_text(list[0].as_slice(), "v") {
            let value: Vec3 = parse_vec3(&list, "v")?;
            self.positions.push(value);
            let none: Vec<usize> = Vec::new();
            let ghost users = self.users@;
            self.users.push(none);
            proof {
                assert(self@ =~= (ObjState {
                    positions: before.positions.push(value),
                    ..before
                }));
                assert(self.users@.drop_last() =~= users);
                self.lemma_more_entries(before, users);
            }
        } else if is_text(list[0].as_slice(), "vt") {
            let value: Vec2 = parse_vec2(&list)?;
            self.texcoords.push(value);
            proof {
                assert(self@ =~= (ObjState {
                    texcoords: before.texcoords.push(value),
                    ..before
                }));
                self.lemma_more_entries(before, self.users@);
            }
        } else if is_text(list[0].as_slice(), "vn") {
            let value: Vec3 = parse_vec3(&list, "vn")?;
            self.normals.push(value);
            proof {
                assert(self@ =~= (ObjState { normals: before.normals.push(value), ..before }));
                self.lemma_more_entries(before, self.users@);
            }
        } else if is_text(list[0].as_slice(), "f") {
            if list.len() < 4 {
                return Err("f needs at least 3 vertices".to_owned());
            }
            self.take_face(&list)?;
        } else if is_text(list[0].as_slice(), "usemtl") {
            if list.len() < 2 {
                return Err("usemtl needs a name".to_owned());
            }
            self.finish_group();
            let name: Vec<char> = join_words(list.as_slice(), 1);
            let ghost ended = self@;
            self.active = Some(whole_text(name.as_slice()));
            proof {
                assert(self@ =~= (ObjState { active: Some(joined(all, 1)), ..ended }));
                assert(forall|j: int|
                    0 <= j < self@.keys.len() ==> key_fits(ended, #[trigger] self@.keys[j])
                        ==> key_fits(self@, self@.keys[j]));
                assert forall|t: int, k: int|
                    0 <= t < self@.triangles.len() && 0 <= k < 3 implies
                #[trigger] self@.triangles[t][k] < self@.keys.len() by {
                    assert(ended.triangles[t][k] < ended.keys.len());
                }
            }
        }
        Ok(())
    }

    /// More stream entries leave a sound reader sound.
    proof fn lemma_more_entries(&self, before: ObjState, users: Seq<Vec<usize>>)
        requires
            state_is_sound(before),
            users_fit(users, before.keys),
            self@.keys == before.keys,
            self@.triangles == before.triangles,
            self@.groups == before.groups,
            self@.active_start == before.active_start,
            self@.positions.len() >= before.positions.len(),
            self@.texcoords.len() >= before.texcoords.len(),
            self@.normals.len() >= before.normals.len(),
            self.users@.len() == self@.positions.len(),
            self.users@ == users || (self.users@.len() == users.len() + 1 && self.users@.last()@.len()
                == 0 && self.users@.drop_last() == users),
        ensures
            self.sound(),
    {
        assert forall|p: int, k: int|
            0 <= p < self.users@.len() && 0 <= k < self.users@[p]@.len() implies (
        #[trigger] self.users@[p]@[k]) < self.keys@.len()
            && self.keys@[self.users@[p]@[k] as int].position == p by {
            if p < users.len() {
                assert(self.users@[p] == users[p]);
                assert(users[p]@[k] < before.keys.len());
            }
        }
        assert forall|i: int| 0 <= i < self.keys@.len() implies (
        #[trigger] self.keys@[i]).position < self.users@.len()
            && self.users@[self.keys@[i].position as int]@.contains(i as usize) by {
            assert(before.keys[i].position < users.len());
            let p = before.keys[i].position as int;
            assert(self.users@[p] == users[p]);
        }
        assert forall|i: int| 0 <= i < self@.keys.len() implies key_fits(
            self@,
            #[trigger] self@.keys[i],
        ) by {
            assert(key_fits(before, before.keys[i]));
        }
        assert forall|t: int, k: int| 0 <= t < self@.triangles.len() && 0 <= k < 3 implies
        #[trigger] self@.triangles[t][k] < self@.keys.len() by {
            assert(before.triangles[t][k] < before.keys.len());
        }
    }
}

/// Whether a mesh is whole: its triangles name vertices, every vertex has a position stream
/// entry, and its groups have triangles and follow one another.
pub open spec fn mesh_is_whole(mesh: MeshModel) -> bool {
    &&& mesh.position_indices.len() == mesh.vertices.len()
    &&& forall|t: int, k: int|
        0 <= t < mesh.triangles.len() && 0 <= k < 3 ==> #[trigger] mesh.triangles[t][k]
            < mesh.vertices.len()
    &&& mesh.triangles.len() <= usize::MAX
    &&& groups_are_ordered(mesh.groups, mesh.triangles.len() as usize)
}

impl ObjReader {
    /// The mesh that was read.
    fn into_mesh(self) -> (result: Mesh)
        requires
            self.sound(),
        ensures
            result@ == finished_mesh(self@),
            mesh_is_whole(result@),
    {
        let ghost state = self@;
        let mut reader: ObjReader = self;
        reader.finish_group();
        assert(reader@.keys == state.keys);
        let mut vertices: Vec<MeshVertex> = Vec::new();
        let mut position_indices: Vec<usize> = Vec::new();
        let mut i: usize = 0;
        while i < reader.keys.len()
            invariant
                i <= reader.keys@.len(),
                reader.sound(),
                reader@ == (ObjState {
                    groups: finished_groups(state),
                    active: None,
                    active_start: state.triangles.len() as usize,
                    ..state
                }),
                vertices@ =~= Seq::new(i as nat, |j: int| vertex_of(state, state.keys[j])),
                position_indices@ =~= Seq::new(i as nat, |j: int| state.keys[j].position),
            decreases reader.keys@.len() - i,
        {
            let key: VertexKey = reader.keys[i];
            assert(key == reader@.keys[i as int]);
            assert(key_fits(reader@, reader@.keys[i as int]));
            let texcoord: Option<Vec2> = match key.texcoord {
                Some(entry) => Some(reader.texcoords[entry]),
                None => None,
            };
            let normal: Option<Vec3> = match key.normal {
                Some(entry) => Some(reader.normals[entry]),
                None => None,
            };
            let vertex: MeshVertex = MeshVertex::with_normal_source(
                reader.positions[key.position],
                texcoord,
                normal,
                key.normal.is_none(),
            );
            assert(vertex == vertex_of(state, state.keys[i as int]));
            vertices.push(vertex);
            position_indices.push(key.position);
            i += 1;
        }
        assert(reader.triangles.len() == reader@.triangles.len());
        assert(groups_are_ordered(reader@.groups, reader@.active_start));
        let mut mesh: Mesh = Mesh {
            vertices,
            triangles: reader.triangles,
            position_indices,
            material_groups: reader.groups,
            bounds: Aabb::empty(),
        };
        mesh.rebuild_derived_attributes();
        assert(mesh@ =~= finished_mesh(state));
        assert forall|t: int, k: int| 0 <= t < mesh@.triangles.len() && 0 <= k < 3 implies
        #[trigger] mesh@.triangles[t][k] < mesh@.vertices.len() by {
            assert(state.triangles[t][k] < state.keys.len());
        }
        mesh
    }
}

impl Mesh {
    /// Parses a mesh. The normals that no record gives, and the tangents, are derived.
    pub fn parse(source: &str) -> (result: Result<Mesh, ObjError>)
        ensures
            match result {
                Ok(mesh) => mesh_in(source@) == Ok::<MeshModel, Complaint>(mesh@) && mesh_is_whole(
                    mesh@,
                ),
                Err(error) => mesh_in(source@) == Err::<MeshModel, Complaint>(error.complaint()),
            },
    {
        let text: Vec<char> = characters(source);
        assert(text.len() == text@.len());
        let mut reader: ObjReader = ObjReader::new();
        let mut start: usize = 0;
        let mut line: usize = 1;
        while start < text.len()
            invariant
                text@ == source@,
                text@.len() <= usize::MAX,
                start <= text@.len(),
                1 <= line,
                start < text@.len() ==> line <= start + 1,
                reader.sound(),
                obj_lines(text@, 0, 1, empty_state()) == obj_lines(
                    text@,
                    start as int,
                    line as int,
                    reader@,
                ),
            decreases text@.len() - start,
        {
            let end: usize = find_next(text.as_slice(), '\n', start);
            let content: Vec<char> = read_line(text.as_slice(), start, end);
            match reader.take_line(content.as_slice()) {
                Err(message) => {
                    return Err(ObjError { line, message });
                },
                Ok(_) => {},
            }
            if text.len() - end <= 1 {
                assert(obj_lines(text@, end + 1, line + 1, reader@) == Ok::<ObjState, Complaint>(
                    reader@,
                ));
                start = text.len();
            } else {
                start = end + 1;
                line += 1;
            }
        }
        Ok(reader.into_mesh())
    }
}

proof fn lemma_complaint_lines(text: Seq<char>, start: int, line: int, state: ObjState)
    requires
        0 <= start,
        1 <= line <= start + 1,
    ensures
        obj_lines(text, start, line, state) matches Err((at, _)) ==> 1 <= at <= text.len(),
    decreases text.len() + 1 - start,
{
    if start < text.len() {
        let end = next_position(text, '\n', start);
        lemma_next_position(text, '\n', start);
        let content = line_content(text.subrange(start, end));
        if let Ok(next) = obj_line(state, content) {
            lemma_complaint_lines(text, end + 1, line + 1, next);
        }
    }
}

/// Every complaint about a mesh names a line of its text.
pub proof fn law_mesh_complaints_name_their_line(text: Seq<char>)
    ensures
        mesh_in(text) matches Err((line, _)) ==> 1 <= line <= text.len(),
{
    lemma_complaint_lines(text, 0, 1, empty_state());
}

proof fn lemma_take_of_take<A>(last: Seq<A>, middle: Seq<A>, first: Seq<A>)
    requires
        first.len() <= middle.len() <= last.len(),
        last.take(middle.len() as int) == middle,
        middle.take(first.len() as int) == first,
    ensures
        last.take(first.len() as int) == first,
{
    assert forall|i: int| 0 <= i < first.len() implies last[i] == first[i] by {
        assert(middle[i] == last.take(middle.len() as int)[i]);
        assert(first[i] == middle.take(first.len() as int)[i]);
    }
    assert(last.take(first.len() as int) =~= first);
}

proof fn lemma_face_keeps_keys(
    state: ObjState,
    list: Seq<Seq<char>>,
    index: int,
    keys: Seq<VertexKey>,
    face: Seq<usize>,
)
    ensures
        face_from(state, list, index, keys, face) matches Ok((last, _)) ==> keys.len()
            <= last.len() && last.take(keys.len() as int) == keys,
    decreases list.len() - index,
{
    if 0 <= index < list.len() {
        if let Ok(key) = key_in(state, list[index]) {
            let next = with_key(keys, key);
            let corner = vertex_with(keys, key, 0) as usize;
            lemma_face_keeps_keys(state, list, index + 1, next, face.push(corner));
            assert(next.take(keys.len() as int) =~= keys);
            if let Ok((last, _)) = face_from(state, list, index + 1, next, face.push(corner)) {
                lemma_take_of_take(last, next, keys);
            }
        }
    } else {
        assert(keys.take(keys.len() as int) =~= keys);
    }
}

/// Later lines change nothing that earlier lines gave: an index is resolved at the line of its
/// face, and what it then named stays where it is.
pub proof fn law_later_lines_keep_earlier_ones(text: Seq<char>, start: int, line: int, state: ObjState)
    requires
        0 <= start,
    ensures
        obj_lines(text, start, line, state) matches Ok(last) ==> state.positions.len()
            <= last.positions.len() && last.positions.take(state.positions.len() as int)
            == state.positions && state.keys.len() <= last.keys.len() && last.keys.take(
            state.keys.len() as int,
        ) == state.keys && state.triangles.len() <= last.triangles.len() && last.triangles.take(
            state.triangles.len() as int,
        ) == state.triangles,
    decreases text.len() + 1 - start,
{
    if start < text.len() {
        let end = next_position(text, '\n', start);
        lemma_next_position(text, '\n', start);
        let content = line_content(text.subrange(start, end));
        if let Ok(next) = obj_line(state, content) {
            let list = words(content);
            if list.len() >= 4 {
                lemma_face_keeps_keys(state, list, 1, state.keys, Seq::empty());
            }
            assert(next.positions.take(state.positions.len() as int) =~= state.positions);
            assert(next.triangles.take(state.triangles.len() as int) =~= state.triangles);
            assert(next.keys.take(state.keys.len() as int) =~= state.keys);
            law_later_lines_keep_earlier_ones(text, end + 1, line + 1, next);
            if let Ok(last) = obj_lines(text, end + 1, line + 1, next) {
                lemma_take_of_take(last.positions, next.positions, state.positions);
                lemma_take_of_take(last.triangles, next.triangles, state.triangles);
                lemma_take_of_take(last.keys, next.keys, state.keys);
            }
        }
    } else {
        assert(state.positions.take(state.positions.len() as int) =~= state.positions);
        assert(state.triangles.take(state.triangles.len() as int) =~= state.triangles);
        assert(state.keys.take(state.keys.len() as int) =~= state.keys);
    }
}

/// What a corner names depends on the streams alone.
proof fn lemma_key_ignores_vertices(first: ObjState, second: ObjState, token: Seq<char>)
    requires
        first.positions == second.positions,
        first.texcoords == second.texcoords,
        first.normals == second.normals,
    ensures
        key_in(first, token) == key_in(second, token),
{
}

} // verus!
