//! Wavefront MTL materials.
//!
//! Unknown records are ignored, so records used by other renderers do not prevent a scene from
//! loading. Records that affect this renderer are validated, and errors name their line.

use crate::decimal::Reading;
use crate::float::{Float32, ONE};
use crate::math::Vec3;
use crate::records::{
    find_next, find_word_end, is_text, join_words, joined, line_content, next_position, piece,
    read_line, read_single, read_unsigned, reading_value, single_reading, split_words, trim,
    trimmed, unsigned_number, word_contents, word_end, words,
};
use crate::text::{characters, decimal_digits, decimal_text, join2, join3, same_text, text_of};
use crate::texture::{Texture, TextureModel};
use vstd::prelude::*;
use vstd::string::*;

verus! {

/// A material.
#[derive(Debug, PartialEq)]
pub struct Material {
    pub name: String,
    /// Authored colors, before any conversion from sRGB.
    pub ambient: Vec3,
    pub diffuse: Vec3,
    pub specular: Vec3,
    pub shininess: Float32,
    pub alpha: Float32,
    pub map_kd: Option<String>,
    pub map_bump: Option<String>,
    /// The line that named the albedo map.
    pub map_kd_line: usize,
    /// The line that named the normal map.
    pub map_bump_line: usize,
    /// The loaded albedo map.
    pub albedo_texture: Option<Texture>,
    /// The loaded normal map.
    pub normal_map_texture: Option<Texture>,
}

/// A material as mathematics.
#[verifier::ext_equal]
pub struct MtlModel {
    pub name: Seq<char>,
    pub ambient: Vec3,
    pub diffuse: Vec3,
    pub specular: Vec3,
    pub shininess: Float32,
    pub alpha: Float32,
    pub map_kd: Option<Seq<char>>,
    pub map_bump: Option<Seq<char>>,
    pub map_kd_line: int,
    pub map_bump_line: int,
    pub albedo_texture: Option<TextureModel>,
    pub normal_map_texture: Option<TextureModel>,
}

/// The characters of an optional text.
pub open spec fn optional_characters(text: Option<String>) -> Option<Seq<char>> {
    match text {
        Some(found) => Some(found@),
        None => None,
    }
}

/// The picture of an optional texture.
pub open spec fn optional_picture(texture: Option<Texture>) -> Option<TextureModel> {
    match texture {
        Some(found) => Some(found@),
        None => None,
    }
}

impl View for Material {
    type V = MtlModel;

    open spec fn view(&self) -> MtlModel {
        MtlModel {
            name: self.name@,
            ambient: self.ambient,
            diffuse: self.diffuse,
            specular: self.specular,
            shininess: self.shininess,
            alpha: self.alpha,
            map_kd: optional_characters(self.map_kd),
            map_bump: optional_characters(self.map_bump),
            map_kd_line: self.map_kd_line as int,
            map_bump_line: self.map_bump_line as int,
            albedo_texture: optional_picture(self.albedo_texture),
            normal_map_texture: optional_picture(self.normal_map_texture),
        }
    }
}

/// The views of a list of materials.
pub open spec fn mtl_models(materials: Seq<Material>) -> Seq<MtlModel> {
    Seq::new(materials.len(), |i: int| materials[i]@)
}

/// The bits of the default diffuse color, eight tenths.
pub const DEFAULT_DIFFUSE: u32 = 0x3f4c_cccd;

/// A material before any record changed it.
pub open spec fn new_material(name: Seq<char>) -> MtlModel {
    let zero = Float32 { bits: 0 };
    let grey = Float32 { bits: DEFAULT_DIFFUSE };
    MtlModel {
        name,
        ambient: Vec3 { x: zero, y: zero, z: zero },
        diffuse: Vec3 { x: grey, y: grey, z: grey },
        specular: Vec3 { x: zero, y: zero, z: zero },
        shininess: zero,
        alpha: Float32 { bits: ONE },
        map_kd: None,
        map_bump: None,
        map_kd_line: 0,
        map_bump_line: 0,
        albedo_texture: None,
        normal_map_texture: None,
    }
}

/// Why a library was refused, and at which line; line zero is the whole file.
#[derive(Clone, Debug, PartialEq, Eq)]
pub struct MtlError {
    pub line: usize,
    pub message: String,
}

/// A line with a message.
pub type Complaint = (int, Seq<char>);

impl MtlError {
    /// The error as a line and a message.
    pub open spec fn complaint(self) -> Complaint {
        (self.line as int, self.message@)
    }

    pub fn new(line: usize, message: &str) -> (result: MtlError)
        ensures
            result.complaint() == (line as int, message@),
    {
        MtlError { line, message: message.to_owned() }
    }

    /// The error with its own line, or with `line` where it has none.
    pub fn or_line(self, line: usize) -> (result: MtlError)
        ensures
            result.complaint() == (
                if self.line == 0 {
                    line as int
                } else {
                    self.line as int
                },
                self.message@,
            ),
    {
        if self.line == 0 {
            MtlError { line, message: self.message }
        } else {
            self
        }
    }

    /// The error as text, with its line where it has one.
    pub fn to_text(&self) -> (result: String)
        ensures
            result@ == (if self.line == 0 {
                self.message@
            } else {
                "line "@ + decimal_digits(self.line as nat) + ": "@ + self.message@
            }),
    {
        if self.line == 0 {
            self.message.clone()
        } else {
            let mut text: String = join3("line ", decimal_text(self.line as u64).as_str(), ": ");
            text.append(self.message.as_str());
            text
        }
    }
}

/// A list of materials with distinct names.
#[derive(Debug, PartialEq)]
pub struct MaterialLibrary {
    pub materials: Vec<Material>,
}

impl View for MaterialLibrary {
    type V = Seq<MtlModel>;

    open spec fn view(&self) -> Seq<MtlModel> {
        mtl_models(self.materials@)
    }
}

/// The record name of a line: its first word.
pub open spec fn record_name(line: Seq<char>) -> Seq<char> {
    line.subrange(0, word_end(line, 0))
}

/// What follows the record name of a line.
pub open spec fn record_rest(line: Seq<char>) -> Seq<char> {
    let end = word_end(line, 0);
    if end < line.len() {
        trimmed(line.subrange(end + 1, line.len() as int))
    } else {
        Seq::empty()
    }
}

/// The number that a value writes.
pub open spec fn number_in(value: Seq<char>, record: Seq<char>) -> Result<Float32, Seq<char>> {
    match single_reading(value) {
        Reading::Invalid => Err("invalid "@ + record + " value "@ + value),
        Reading::NotANumber | Reading::Infinite { .. } => Err(record + " value is not finite"@),
        Reading::Finite { negative, magnitude } => Ok(
            reading_value(Reading::Finite { negative, magnitude }),
        ),
    }
}

/// The numbers that values from `index` on write, after `found`.
pub open spec fn numbers_from(
    values: Seq<Seq<char>>,
    record: Seq<char>,
    index: int,
    found: Seq<Float32>,
) -> Result<Seq<Float32>, Seq<char>>
    decreases values.len() - index,
{
    if !(0 <= index < values.len()) {
        Ok(found)
    } else {
        match number_in(values[index], record) {
            Err(message) => Err(message),
            Ok(value) => numbers_from(values, record, index + 1, found.push(value)),
        }
    }
}

/// The color that the first three values write. All values must be numbers.
pub open spec fn color_in(rest: Seq<char>, record: Seq<char>) -> Result<Vec3, Seq<char>> {
    let values = words(rest);
    if values.len() < 3 {
        Err(record + " needs 3 values"@)
    } else {
        match numbers_from(values, record, 0, Seq::empty()) {
            Err(message) => Err(message),
            Ok(numbers) => Ok(Vec3 { x: numbers[0], y: numbers[1], z: numbers[2] }),
        }
    }
}

/// Whether a word is an option of a map: it begins with a minus and is no number.
pub open spec fn is_option_word(word: Seq<char>) -> bool {
    word.len() > 0 && word[0] == '-' && single_reading(word) is Invalid
}

/// How many of the words from `start` on are numbers, up to `limit`.
pub open spec fn numeric_run(list: Seq<Seq<char>>, start: int, limit: nat) -> nat
    decreases limit,
{
    if limit == 0 || !(0 <= start < list.len()) || single_reading(list[start]) is Invalid {
        0
    } else {
        1 + numeric_run(list, start + 1, (limit - 1) as nat)
    }
}

/// The name of an option in messages.
pub open spec fn option_name(record: Seq<char>, option: Seq<char>) -> Seq<char> {
    record + " option "@ + option
}

/// Where the option at `index` ends.
pub open spec fn option_end(list: Seq<Seq<char>>, record: Seq<char>, index: int) -> Result<
    int,
    Seq<char>,
> {
    let option = list[index];
    let next = index + 1;
    if option == "-blendu"@ || option == "-blendv"@ || option == "-cc"@ || option == "-clamp"@ {
        if next >= list.len() {
            Err("truncated "@ + option_name(record, option))
        } else if list[next] != "on"@ && list[next] != "off"@ {
            Err(option_name(record, option) + " needs on or off"@)
        } else {
            Ok(next + 1)
        }
    } else if option == "-texres"@ {
        if next >= list.len() {
            Err("truncated "@ + option_name(record, option))
        } else {
            match unsigned_number(list[next], usize::MAX as nat) {
                None => Err(option_name(record, option) + " needs an integer"@),
                Some(resolution) => if resolution == 0 {
                    Err(option_name(record, option) + " needs a positive integer"@)
                } else {
                    Ok(next + 1)
                },
            }
        }
    } else if option == "-mm"@ {
        let count = numeric_run(list, next, 2);
        if count < 2 {
            Err(option_name(record, option) + " needs 2 to 2 numeric values"@)
        } else {
            Ok(next + count)
        }
    } else if option == "-o"@ || option == "-s"@ || option == "-t"@ {
        let count = numeric_run(list, next, 3);
        if count < 1 {
            Err(option_name(record, option) + " needs 1 to 3 numeric values"@)
        } else {
            Ok(next + count)
        }
    } else {
        Err("unknown "@ + option_name(record, option))
    }
}

/// The path that follows the options from word `index` on.
pub open spec fn path_from(list: Seq<Seq<char>>, record: Seq<char>, index: int) -> Result<
    Seq<char>,
    Seq<char>,
>
    decreases list.len() - index,
{
    if 0 <= index < list.len() && is_option_word(list[index]) {
        proof {
            lemma_option_end(list, record, index);
        }
        match option_end(list, record, index) {
            Err(message) => Err(message),
            Ok(end) => path_from(list, record, end),
        }
    } else {
        Ok(joined(list, index))
    }
}

proof fn lemma_numeric_run(list: Seq<Seq<char>>, start: int, limit: nat)
    requires
        0 <= start,
    ensures
        numeric_run(list, start, limit) <= limit,
        start <= list.len() ==> start + numeric_run(list, start, limit) <= list.len(),
    decreases limit,
{
    if limit > 0 && start < list.len() && single_reading(list[start]) !is Invalid {
        lemma_numeric_run(list, start + 1, (limit - 1) as nat);
    }
}

/// An option ends after it begins, among the words.
pub proof fn lemma_option_end(list: Seq<Seq<char>>, record: Seq<char>, index: int)
    requires
        0 <= index < list.len(),
    ensures
        option_end(list, record, index) matches Ok(end) ==> index < end <= list.len(),
{
    lemma_numeric_run(list, index + 1, 2);
    lemma_numeric_run(list, index + 1, 3);
}

/// The path of a map.
pub open spec fn map_path(rest: Seq<char>, record: Seq<char>) -> Result<Seq<char>, Seq<char>> {
    match path_from(words(rest), record, 0) {
        Err(message) => Err(message),
        Ok(path) => if path.len() == 0 {
            Err(record + " needs a path"@)
        } else {
            Ok(path)
        },
    }
}

/// A library while it is read: the finished materials and the one that records change.
#[verifier::ext_equal]
pub struct Progress {
    pub done: Seq<MtlModel>,
    pub current: Option<MtlModel>,
}

/// Whether some material of a list has a name.
pub open spec fn has_name(materials: Seq<MtlModel>, name: Seq<char>) -> bool {
    exists|i: int| 0 <= i < materials.len() && (#[trigger] materials[i]).name == name
}

/// The finished materials, with the current one at the end.
pub open spec fn all_materials(progress: Progress) -> Seq<MtlModel> {
    match progress.current {
        Some(material) => progress.done.push(material),
        None => progress.done,
    }
}

/// What a record makes of the current material.
pub open spec fn changed(
    material: MtlModel,
    record: Seq<char>,
    rest: Seq<char>,
    line: int,
) -> Result<MtlModel, Seq<char>> {
    if record == "Ka"@ {
        match color_in(rest, record) {
            Err(message) => Err(message),
            Ok(color) => Ok(MtlModel { ambient: color, ..material }),
        }
    } else if record == "Kd"@ {
        match color_in(rest, record) {
            Err(message) => Err(message),
            Ok(color) => Ok(MtlModel { diffuse: color, ..material }),
        }
    } else if record == "Ks"@ {
        match color_in(rest, record) {
            Err(message) => Err(message),
            Ok(color) => Ok(MtlModel { specular: color, ..material }),
        }
    } else if record == "Ns"@ {
        match number_in(rest, record) {
            Err(message) => Err(message),
            Ok(value) => Ok(MtlModel { shininess: value, ..material }),
        }
    } else if record == "d"@ {
        match number_in(rest, record) {
            Err(message) => Err(message),
            Ok(value) => Ok(MtlModel { alpha: value.clamped_to_unit(), ..material }),
        }
    } else if record == "Tr"@ {
        match number_in(rest, record) {
            Err(message) => Err(message),
            Ok(value) => Ok(MtlModel { alpha: value.complement(), ..material }),
        }
    } else if record == "map_Kd"@ {
        match map_path(rest, record) {
            Err(message) => Err(message),
            Ok(path) => Ok(MtlModel { map_kd: Some(path), map_kd_line: line, ..material }),
        }
    } else {
        match map_path(rest, record) {
            Err(message) => Err(message),
            Ok(path) => Ok(MtlModel { map_bump: Some(path), map_bump_line: line, ..material }),
        }
    }
}

/// Whether a record changes the current material.
pub open spec fn is_material_record(record: Seq<char>) -> bool {
    ||| record == "Ka"@
    ||| record == "Kd"@
    ||| record == "Ks"@
    ||| record == "Ns"@
    ||| record == "d"@
    ||| record == "Tr"@
    ||| record == "map_Kd"@
    ||| record == "map_bump"@
    ||| record == "bump"@
}

/// What a line makes of a library.
pub open spec fn after_line(progress: Progress, content: Seq<char>, line: int) -> Result<
    Progress,
    Complaint,
> {
    let record = record_name(content);
    let rest = record_rest(content);
    if content.len() == 0 {
        Ok(progress)
    } else if record == "newmtl"@ {
        if rest.len() == 0 {
            Err((line, "newmtl needs a name"@))
        } else if has_name(all_materials(progress), rest) {
            Err((line, "duplicate material name "@ + rest))
        } else {
            Ok(Progress { done: all_materials(progress), current: Some(new_material(rest)) })
        }
    } else if is_material_record(record) {
        match progress.current {
            None => Err((line, record + " appears before newmtl"@)),
            Some(material) => match changed(material, record, rest, line) {
                Err(message) => Err((line, message)),
                Ok(next) => Ok(Progress { current: Some(next), ..progress }),
            },
        }
    } else {
        Ok(progress)
    }
}

/// What the lines from `start` on, the first of which is line `line`, make of a library.
pub open spec fn after_lines(text: Seq<char>, start: int, line: int, progress: Progress) -> Result<
    Progress,
    Complaint,
>
    decreases text.len() + 1 - start,
{
    if !(0 <= start < text.len()) {
        Ok(progress)
    } else {
        let end = next_position(text, '\n', start);
        proof {
            lemma_next_position(text, '\n', start);
        }
        match after_line(progress, line_content(text.subrange(start, end)), line) {
            Err(complaint) => Err(complaint),
            Ok(next) => after_lines(text, end + 1, line + 1, next),
        }
    }
}

/// Looking for a character moves forward inside the text.
pub proof fn lemma_next_position(text: Seq<char>, wanted: char, start: int)
    requires
        0 <= start <= text.len(),
    ensures
        start <= next_position(text, wanted, start) <= text.len(),
    decreases text.len() - start,
{
    if start < text.len() && text[start] != wanted {
        lemma_next_position(text, wanted, start + 1);
    }
}

/// The materials that a library text defines.
pub open spec fn library_of(text: Seq<char>) -> Result<Seq<MtlModel>, Complaint> {
    match after_lines(text, 0, 1, Progress { done: Seq::empty(), current: None }) {
        Err(complaint) => Err(complaint),
        Ok(progress) => if all_materials(progress).len() == 0 {
            Err((0, "MTL file contains no newmtl records"@))
        } else {
            Ok(all_materials(progress))
        },
    }
}

/// Splits a line into its record name and what follows.
pub fn split_record(line: &[char]) -> (result: (Vec<char>, Vec<char>))
    ensures
        result.0@ == record_name(line@),
        result.1@ == record_rest(line@),
{
    let end: usize = find_word_end(line, 0);
    let name: Vec<char> = piece(line, 0, end);
    if end < line.len() {
        let rest: Vec<char> = piece(line, end + 1, line.len());
        (name, trim(rest.as_slice()))
    } else {
        let rest: Vec<char> = Vec::new();
        assert(rest@ =~= record_rest(line@));
        (name, rest)
    }
}

fn whole_text(text: &[char]) -> (result: String)
    ensures
        result@ == text@,
{
    let made: String = text_of(text, 0, text.len());
    assert(text@.subrange(0, text@.len() as int) =~= text@);
    made
}

fn parse_number(value: &[char], record: &str) -> (result: Result<Float32, String>)
    ensures
        match result {
            Ok(number) => number_in(value@, record@) == Ok::<Float32, Seq<char>>(number)
                && number.finite(),
            Err(message) => number_in(value@, record@) == Err::<Float32, Seq<char>>(message@),
        },
{
    match read_single(value) {
        Reading::Invalid => {
            let mut message: String = join3("invalid ", record, " value ");
            message.append(whole_text(value).as_str());
            Err(message)
        },
        Reading::NotANumber | Reading::Infinite { .. } => Err(join2(record, " value is not finite")),
        Reading::Finite { negative, magnitude } => {
            Ok(Float32::from_parts(negative, magnitude as u32))
        },
    }
}

fn parse_color(rest: &[char], record: &str) -> (result: Result<Vec3, String>)
    ensures
        match result {
            Ok(color) => color_in(rest@, record@) == Ok::<Vec3, Seq<char>>(color),
            Err(message) => color_in(rest@, record@) == Err::<Vec3, Seq<char>>(message@),
        },
{
    let values: Vec<Vec<char>> = split_words(rest);
    let ghost all = words(rest@);
    assert(values@.len() == word_contents(values@).len());
    if values.len() < 3 {
        return Err(join2(record, " needs 3 values"));
    }
    let mut numbers: Vec<Float32> = Vec::new();
    let mut i: usize = 0;
    while i < values.len()
        invariant
            i <= values@.len(),
            values@.len() >= 3,
            all == word_contents(values@),
            all == words(rest@),
            numbers@.len() == i,
            numbers_from(all, record@, 0, Seq::empty()) == numbers_from(
                all,
                record@,
                i as int,
                numbers@,
            ),
        decreases values@.len() - i,
    {
        assert(all[i as int] == values@[i as int]@);
        match parse_number(values[i].as_slice(), record) {
            Err(message) => {
                return Err(message);
            },
            Ok(number) => {
                numbers.push(number);
            },
        }
        i += 1;
    }
    Ok(Vec3 { x: numbers[0], y: numbers[1], z: numbers[2] })
}

fn is_map_option(word: &[char]) -> (result: bool)
    ensures
        result == is_option_word(word@),
{
    word.len() > 0 && word[0] == '-' && matches!(read_single(word), Reading::Invalid)
}

fn count_numeric(list: &Vec<Vec<char>>, start: usize, limit: usize) -> (result: usize)
    requires
        start <= list@.len(),
        limit <= 3,
    ensures
        result == numeric_run(word_contents(list@), start as int, limit as nat),
        start + result <= list@.len(),
        result <= limit,
    decreases limit,
{
    let ghost all = word_contents(list@);
    if limit == 0 || start >= list.len() {
        return 0;
    }
    assert(all[start as int] == list@[start as int]@);
    match read_single(list[start].as_slice()) {
        Reading::Invalid => 0,
        _ => 1 + count_numeric(list, start + 1, limit - 1),
    }
}

fn option_text(record: &str, option: &[char]) -> (result: String)
    ensures
        result@ == option_name(record@, option@),
{
    join3(record, " option ", whole_text(option).as_str())
}

fn find_option_end(list: &Vec<Vec<char>>, record: &str, index: usize) -> (result: Result<
    usize,
    String,
>)
    requires
        index < list@.len(),
    ensures
        match result {
            Ok(end) => option_end(word_contents(list@), record@, index as int) == Ok::<
                int,
                Seq<char>,
            >(end as int) && index < end <= list@.len(),
            Err(message) => option_end(word_contents(list@), record@, index as int) == Err::<
                int,
                Seq<char>,
            >(message@),
        },
{
    let ghost all = word_contents(list@);
    let option: &[char] = list[index].as_slice();
    assert(list.len() == list@.len());
    assert(all[index as int] == option@);
    let next: usize = index + 1;
    let name: String = option_text(record, option);
    if is_text(option, "-blendu") || is_text(option, "-blendv") || is_text(option, "-cc")
        || is_text(option, "-clamp") {
        if next >= list.len() {
            return Err(join2("truncated ", name.as_str()));
        }
        assert(all[next as int] == list@[next as int]@);
        if !is_text(list[next].as_slice(), "on") && !is_text(list[next].as_slice(), "off") {
            return Err(join2(name.as_str(), " needs on or off"));
        }
        return Ok(next + 1);
    }
    if is_text(option, "-texres") {
        if next >= list.len() {
            return Err(join2("truncated ", name.as_str()));
        }
        assert(all[next as int] == list@[next as int]@);
        return match read_unsigned(list[next].as_slice(), usize::MAX as u64) {
            None => Err(join2(name.as_str(), " needs an integer")),
            Some(resolution) => if resolution == 0 {
                Err(join2(name.as_str(), " needs a positive integer"))
            } else {
                Ok(next + 1)
            },
        };
    }
    if is_text(option, "-mm") {
        let count: usize = count_numeric(list, next, 2);
        if count < 2 {
            return Err(join2(name.as_str(), " needs 2 to 2 numeric values"));
        }
        return Ok(next + count);
    }
    if is_text(option, "-o") || is_text(option, "-s") || is_text(option, "-t") {
        let count: usize = count_numeric(list, next, 3);
        if count < 1 {
            return Err(join2(name.as_str(), " needs 1 to 3 numeric values"));
        }
        return Ok(next + count);
    }
    Err(join2("unknown ", name.as_str()))
}

fn parse_map_path(rest: &[char], record: &str) -> (result: Result<String, String>)
    ensures
        match result {
            Ok(path) => map_path(rest@, record@) == Ok::<Seq<char>, Seq<char>>(path@),
            Err(message) => map_path(rest@, record@) == Err::<Seq<char>, Seq<char>>(message@),
        },
{
    let list: Vec<Vec<char>> = split_words(rest);
    let ghost all = words(rest@);
    let mut index: usize = 0;
    while index < list.len() && is_map_option(list[index].as_slice())
        invariant
            index <= list@.len(),
            all == word_contents(list@),
            all == words(rest@),
            path_from(all, record@, 0) == path_from(all, record@, index as int),
        decreases list@.len() - index,
    {
        assert(all[index as int] == list@[index as int]@);
        match find_option_end(&list, record, index) {
            Err(message) => {
                return Err(message);
            },
            Ok(end) => {
                index = end;
            },
        }
    }
    assert(index < list@.len() ==> all[index as int] == list@[index as int]@);
    let path: Vec<char> = join_words(list.as_slice(), index);
    if path.len() == 0 {
        return Err(join2(record, " needs a path"));
    }
    Ok(whole_text(path.as_slice()))
}

/// What loading a map gave: its texture, or why there is none.
pub type MapOutcome = Result<TextureModel, Complaint>;

/// What loading an optional map gave.
pub open spec fn map_outcome(loaded: Option<Result<Texture, MtlError>>) -> Option<MapOutcome> {
    match loaded {
        Some(Ok(texture)) => Some(Ok(texture@)),
        Some(Err(error)) => Some(Err(error.complaint())),
        None => None,
    }
}

/// The texture that goes with a path: none without a path, else the one that was loaded.
pub open spec fn map_texture(path: Option<Seq<char>>, loaded: Option<MapOutcome>) -> Result<
    Option<TextureModel>,
    Complaint,
> {
    match (path, loaded) {
        (None, _) => Ok(None),
        (Some(_), None) => Ok(None),
        (Some(_), Some(Ok(texture))) => Ok(Some(texture)),
        (Some(_), Some(Err(complaint))) => Err(complaint),
    }
}

/// What loading the maps of one material gave.
pub struct LoadedMaps {
    pub albedo: Option<Result<Texture, MtlError>>,
    pub normal_map: Option<Result<Texture, MtlError>>,
}

/// What loading the maps of one material gave, as mathematics.
pub struct LoadedModel {
    pub albedo: Option<MapOutcome>,
    pub normal_map: Option<MapOutcome>,
}

impl View for LoadedMaps {
    type V = LoadedModel;

    open spec fn view(&self) -> LoadedModel {
        LoadedModel { albedo: map_outcome(self.albedo), normal_map: map_outcome(self.normal_map) }
    }
}

/// Whether something was loaded for each map that a material names.
pub open spec fn maps_fit(material: MtlModel, maps: LoadedModel) -> bool {
    &&& material.map_kd is Some ==> maps.albedo is Some
    &&& material.map_bump is Some ==> maps.normal_map is Some
}

/// A material with its textures, or why its first map that failed did so.
pub open spec fn with_maps(material: MtlModel, maps: LoadedModel) -> Result<MtlModel, Complaint> {
    match map_texture(material.map_kd, maps.albedo) {
        Err(complaint) => Err(complaint),
        Ok(albedo_texture) => match map_texture(material.map_bump, maps.normal_map) {
            Err(complaint) => Err(complaint),
            Ok(normal_map_texture) => Ok(
                MtlModel { albedo_texture, normal_map_texture, ..material },
            ),
        },
    }
}

/// What loading the maps of several materials gave.
pub open spec fn loaded_models(maps: Seq<LoadedMaps>) -> Seq<LoadedModel> {
    Seq::new(maps.len(), |i: int| maps[i]@)
}

/// The complaint about the first map from `index` on that failed to load.
pub open spec fn first_failure(
    materials: Seq<MtlModel>,
    maps: Seq<LoadedModel>,
    index: int,
) -> Option<Complaint>
    decreases materials.len() - index,
{
    if index < 0 || index >= materials.len() {
        None
    } else {
        match with_maps(materials[index], maps[index]) {
            Err(complaint) => Some(complaint),
            Ok(_) => first_failure(materials, maps, index + 1),
        }
    }
}

/// The materials with their textures from `index` on, up to the first whose maps failed.
pub open spec fn all_with_maps(
    materials: Seq<MtlModel>,
    maps: Seq<LoadedModel>,
    index: int,
) -> Seq<MtlModel>
    decreases materials.len() - index,
{
    if index < 0 || index >= materials.len() {
        materials
    } else {
        match with_maps(materials[index], maps[index]) {
            Err(_) => materials,
            Ok(material) => all_with_maps(materials.update(index, material), maps, index + 1),
        }
    }
}

/// What failed does not depend on the materials before.
proof fn lemma_later_failures(
    first: Seq<MtlModel>,
    second: Seq<MtlModel>,
    maps: Seq<LoadedModel>,
    index: int,
)
    requires
        0 <= index,
        first.len() == second.len(),
        forall|i: int| index <= i < first.len() ==> first[i] == second[i],
    ensures
        first_failure(first, maps, index) == first_failure(second, maps, index),
    decreases first.len() - index,
{
    if index < first.len() {
        lemma_later_failures(first, second, maps, index + 1);
    }
}

fn take_texture(
    named: bool,
    loaded: Option<Result<Texture, MtlError>>,
) -> (result: Result<Option<Texture>, MtlError>)
    ensures
        match result {
            Ok(texture) => forall|path: Option<Seq<char>>|
                path is Some == named ==> #[trigger] map_texture(path, map_outcome(loaded))
                    == Ok::<Option<TextureModel>, Complaint>(optional_picture(texture)),
            Err(error) => forall|path: Option<Seq<char>>|
                path is Some == named ==> #[trigger] map_texture(path, map_outcome(loaded))
                    == Err::<Option<TextureModel>, Complaint>(error.complaint()),
        },
{
    if !named {
        return Ok(None);
    }
    match loaded {
        None => Ok(None),
        Some(Ok(texture)) => Ok(Some(texture)),
        Some(Err(error)) => Err(error),
    }
}

impl Material {
    /// A material before any record changed it.
    pub fn new(name: String) -> (result: Material)
        ensures
            result@ == new_material(name@),
    {
        let zero: Float32 = Float32 { bits: 0 };
        let grey: Float32 = Float32 { bits: DEFAULT_DIFFUSE };
        Material {
            name,
            ambient: Vec3 { x: zero, y: zero, z: zero },
            diffuse: Vec3 { x: grey, y: grey, z: grey },
            specular: Vec3 { x: zero, y: zero, z: zero },
            shininess: zero,
            alpha: Float32 { bits: ONE },
            map_kd: None,
            map_bump: None,
            map_kd_line: 0,
            map_bump_line: 0,
            albedo_texture: None,
            normal_map_texture: None,
        }
    }

    /// The path of the albedo map.
    pub fn map_kd(&self) -> (result: Option<&str>)
        ensures
            match result {
                Some(path) => self@.map_kd == Some(path@),
                None => self@.map_kd is None,
            },
    {
        match &self.map_kd {
            Some(path) => Some(path.as_str()),
            None => None,
        }
    }

    /// The path of the normal map.
    pub fn map_bump(&self) -> (result: Option<&str>)
        ensures
            match result {
                Some(path) => self@.map_bump == Some(path@),
                None => self@.map_bump is None,
            },
    {
        match &self.map_bump {
            Some(path) => Some(path.as_str()),
            None => None,
        }
    }

    /// The loaded albedo map.
    pub fn albedo_texture(&self) -> (result: Option<&Texture>)
        ensures
            match result {
                Some(texture) => self@.albedo_texture == Some(texture@),
                None => self@.albedo_texture is None,
            },
    {
        match &self.albedo_texture {
            Some(texture) => Some(texture),
            None => None,
        }
    }

    /// The loaded normal map.
    pub fn normal_map_texture(&self) -> (result: Option<&Texture>)
        ensures
            match result {
                Some(texture) => self@.normal_map_texture == Some(texture@),
                None => self@.normal_map_texture is None,
            },
    {
        match &self.normal_map_texture {
            Some(texture) => Some(texture),
            None => None,
        }
    }

    /// Replaces the albedo map, its path and its texture as one. A map that failed to load changes
    /// nothing.
    pub fn set_map_kd(
        &mut self,
        path: Option<String>,
        loaded: Option<Result<Texture, MtlError>>,
    ) -> (result: Result<(), MtlError>)
        requires
            path is Some ==> loaded is Some,
        ensures
            match result {
                Ok(_) => map_texture(optional_characters(path), map_outcome(loaded)) == Ok::<
                    Option<TextureModel>,
                    Complaint,
                >(final(self)@.albedo_texture) && final(self)@ == (MtlModel {
                    map_kd: optional_characters(path),
                    map_kd_line: 0,
                    albedo_texture: final(self)@.albedo_texture,
                    ..old(self)@
                }),
                Err(error) => map_texture(optional_characters(path), map_outcome(loaded)) == Err::<
                    Option<TextureModel>,
                    Complaint,
                >(error.complaint()) && final(self)@ == old(self)@,
            },
            path is None ==> result is Ok,
    {
        match take_texture(path.is_some(), loaded) {
            Err(error) => Err(error),
            Ok(texture) => {
                self.map_kd = path;
                self.map_kd_line = 0;
                self.albedo_texture = texture;
                Ok(())
            },
        }
    }

    /// Replaces the normal map, its path and its texture as one. A map that failed to load changes
    /// nothing.
    pub fn set_map_bump(
        &mut self,
        path: Option<String>,
        loaded: Option<Result<Texture, MtlError>>,
    ) -> (result: Result<(), MtlError>)
        requires
            path is Some ==> loaded is Some,
        ensures
            match result {
                Ok(_) => map_texture(optional_characters(path), map_outcome(loaded)) == Ok::<
                    Option<TextureModel>,
                    Complaint,
                >(final(self)@.normal_map_texture) && final(self)@ == (MtlModel {
                    map_bump: optional_characters(path),
                    map_bump_line: 0,
                    normal_map_texture: final(self)@.normal_map_texture,
                    ..old(self)@
                }),
                Err(error) => map_texture(optional_characters(path), map_outcome(loaded)) == Err::<
                    Option<TextureModel>,
                    Complaint,
                >(error.complaint()) && final(self)@ == old(self)@,
            },
            path is None ==> result is Ok,
    {
        match take_texture(path.is_some(), loaded) {
            Err(error) => Err(error),
            Ok(texture) => {
                self.map_bump = path;
                self.map_bump_line = 0;
                self.normal_map_texture = texture;
                Ok(())
            },
        }
    }

    /// Takes what loading the maps gave. Neither texture is replaced unless both maps loaded.
    pub fn load_maps(&mut self, maps: LoadedMaps) -> (result: Result<(), MtlError>)
        requires
            maps_fit(old(self)@, maps@),
        ensures
            match result {
                Ok(_) => with_maps(old(self)@, maps@) == Ok::<MtlModel, Complaint>(final(self)@),
                Err(error) => with_maps(old(self)@, maps@) == Err::<MtlModel, Complaint>(
                    error.complaint(),
                ) && final(self)@ == old(self)@,
            },
    {
        let LoadedMaps { albedo, normal_map }: LoadedMaps = maps;
        let albedo_texture: Option<Texture> = match take_texture(
            self.map_kd.is_some(),
            albedo,
        ) {
            Err(error) => {
                return Err(error);
            },
            Ok(texture) => texture,
        };
        let normal_map_texture: Option<Texture> = match take_texture(
            self.map_bump.is_some(),
            normal_map,
        ) {
            Err(error) => {
                return Err(error);
            },
            Ok(texture) => texture,
        };
        self.albedo_texture = albedo_texture;
        self.normal_map_texture = normal_map_texture;
        Ok(())
    }

    fn change(&mut self, record: &str, rest: &[char], line: usize) -> (result: Result<(), String>)
        requires
            is_material_record(record@),
        ensures
            match result {
                Ok(_) => changed(old(self)@, record@, rest@, line as int) == Ok::<
                    MtlModel,
                    Seq<char>,
                >(final(self)@),
                Err(message) => changed(old(self)@, record@, rest@, line as int) == Err::<
                    MtlModel,
                    Seq<char>,
                >(message@),
            },
    {
        if same_text(record, "Ka") {
            self.ambient = parse_color(rest, record)?;
        } else if same_text(record, "Kd") {
            self.diffuse = parse_color(rest, record)?;
        } else if same_text(record, "Ks") {
            self.specular = parse_color(rest, record)?;
        } else if same_text(record, "Ns") {
            self.shininess = parse_number(rest, record)?;
        } else if same_text(record, "d") {
            self.alpha = parse_number(rest, record)?.clamp_to_unit();
        } else if same_text(record, "Tr") {
            self.alpha = parse_number(rest, record)?.one_minus();
        } else if same_text(record, "map_Kd") {
            self.map_kd = Some(parse_map_path(rest, record)?);
            self.map_kd_line = line;
        } else {
            self.map_bump = Some(parse_map_path(rest, record)?);
            self.map_bump_line = line;
        }
        Ok(())
    }
}

fn is_material_name(record: &str) -> (result: bool)
    ensures
        result == is_material_record(record@),
{
    same_text(record, "Ka") || same_text(record, "Kd") || same_text(record, "Ks") || same_text(
        record,
        "Ns",
    ) || same_text(record, "d") || same_text(record, "Tr") || same_text(record, "map_Kd")
        || same_text(record, "map_bump") || same_text(record, "bump")
}

/// A library while it is read.
struct Reader {
    done: Vec<Material>,
    current: Option<Material>,
}

impl View for Reader {
    type V = Progress;

    closed spec fn view(&self) -> Progress {
        Progress {
            done: mtl_models(self.done@),
            current: match self.current {
                Some(material) => Some(material@),
                None => None,
            },
        }
    }
}

fn find_material(materials: &Vec<Material>, name: &str) -> (result: Option<usize>)
    ensures
        match result {
            Some(index) => index < materials@.len() && materials@[index as int]@.name == name@
                && forall|j: int|
                0 <= j < index ==> (#[trigger] materials@[j])@.name != name@,
            None => !has_name(mtl_models(materials@), name@),
        },
{
    let ghost all = mtl_models(materials@);
    let mut i: usize = 0;
    while i < materials.len()
        invariant
            i <= materials@.len(),
            all == mtl_models(materials@),
            forall|j: int| 0 <= j < i ==> (#[trigger] materials@[j])@.name != name@,
        decreases materials@.len() - i,
    {
        if same_text(materials[i].name.as_str(), name) {
            return Some(i);
        }
        i += 1;
    }
    assert forall|j: int| 0 <= j < all.len() implies (#[trigger] all[j]).name != name@ by {
        assert(all[j] == materials@[j]@);
    }
    None
}

impl Reader {
    /// Finishes the current material.
    fn finish(&mut self)
        ensures
            final(self)@ == (Progress { done: all_materials(old(self)@), current: None }),
    {
        let ghost before = self@;
        match self.current.take() {
            Some(material) => {
                let ghost found = material@;
                self.done.push(material);
                assert(self@.done =~= before.done.push(found));
            },
            None => {},
        }
    }

    fn start(&mut self, rest: &[char], line: usize) -> (result: Result<(), MtlError>)
        ensures
            match result {
                Ok(_) => {
                    &&& rest@.len() > 0
                    &&& !has_name(all_materials(old(self)@), rest@)
                    &&& final(self)@ == (Progress {
                        done: all_materials(old(self)@),
                        current: Some(new_material(rest@)),
                    })
                },
                Err(error) => if rest@.len() == 0 {
                    error.complaint() == (line as int, "newmtl needs a name"@)
                } else {
                    has_name(all_materials(old(self)@), rest@) && error.complaint() == (
                        line as int,
                        "duplicate material name "@ + rest@,
                    )
                },
            },
    {
        if rest.len() == 0 {
            return Err(MtlError::new(line, "newmtl needs a name"));
        }
        let name: String = whole_text(rest);
        self.finish();
        if find_material(&self.done, name.as_str()).is_some() {
            proof {
                let index = choose|index: int|
                    0 <= index < self.done@.len() && self.done@[index]@.name == name@;
                assert(self@.done[index].name == name@);
            }
            return Err(
                MtlError::new(line, join2("duplicate material name ", name.as_str()).as_str()),
            );
        }
        self.current = Some(Material::new(name));
        Ok(())
    }

    fn take_line(&mut self, content: &[char], line: usize) -> (result: Result<(), MtlError>)
        ensures
            match result {
                Ok(_) => after_line(old(self)@, content@, line as int) == Ok::<
                    Progress,
                    Complaint,
                >(final(self)@),
                Err(error) => after_line(old(self)@, content@, line as int) == Err::<
                    Progress,
                    Complaint,
                >(error.complaint()),
            },
    {
        if content.len() == 0 {
            return Ok(());
        }
        let (name, rest): (Vec<char>, Vec<char>) = split_record(content);
        let record: String = whole_text(name.as_slice());
        if same_text(record.as_str(), "newmtl") {
            return self.start(rest.as_slice(), line);
        }
        if !is_material_name(record.as_str()) {
            return Ok(());
        }
        match self.current.take() {
            None => Err(
                MtlError::new(line, join2(record.as_str(), " appears before newmtl").as_str()),
            ),
            Some(mut material) => match material.change(record.as_str(), rest.as_slice(), line) {
                Err(message) => Err(MtlError { line, message }),
                Ok(_) => {
                    self.current = Some(material);
                    Ok(())
                },
            },
        }
    }
}

impl MaterialLibrary {
    /// Parses a library.
    pub fn parse(source: &str) -> (result: Result<MaterialLibrary, MtlError>)
        ensures
            match result {
                Ok(library) => library_of(source@) == Ok::<Seq<MtlModel>, Complaint>(library@),
                Err(error) => library_of(source@) == Err::<Seq<MtlModel>, Complaint>(
                    error.complaint(),
                ),
            },
    {
        let text: Vec<char> = characters(source);
        let mut reader: Reader = Reader { done: Vec::new(), current: None };
        let ghost empty = Progress { done: Seq::empty(), current: None };
        assert(reader@ =~= empty);
        let mut start: usize = 0;
        let mut line: usize = 1;
        while start < text.len()
            invariant
                text@ == source@,
                text@.len() <= usize::MAX,
                start <= text@.len(),
                1 <= line,
                start < text@.len() ==> line <= start + 1,
                empty == (Progress { done: Seq::empty(), current: None }),
                after_lines(text@, 0, 1, empty) == after_lines(
                    text@,
                    start as int,
                    line as int,
                    reader@,
                ),
            decreases text@.len() - start,
        {
            let end: usize = find_next(text.as_slice(), '\n', start);
            let content: Vec<char> = read_line(text.as_slice(), start, end);
            match reader.take_line(content.as_slice(), line) {
                Err(error) => {
                    return Err(error);
                },
                Ok(_) => {},
            }
            if text.len() - end <= 1 {
                assert(after_lines(text@, end + 1, line + 1, reader@) == Ok::<Progress, Complaint>(
                    reader@,
                ));
                start = text.len();
            } else {
                start = end + 1;
                line += 1;
            }
        }
        reader.finish();
        if reader.done.len() == 0 {
            return Err(MtlError::new(0, "MTL file contains no newmtl records"));
        }
        Ok(MaterialLibrary { materials: reader.done })
    }

    /// Takes what loading the maps of each material gave, up to the first map that failed.
    pub fn load_maps(&mut self, maps: Vec<LoadedMaps>) -> (result: Result<(), MtlError>)
        requires
            maps@.len() == old(self)@.len(),
            forall|i: int| 0 <= i < maps@.len() ==> maps_fit(old(self)@[i], (#[trigger] maps@[i])@),
        ensures
            match result {
                Ok(_) => first_failure(old(self)@, loaded_models(maps@), 0) is None,
                Err(error) => first_failure(old(self)@, loaded_models(maps@), 0) == Some(
                    error.complaint(),
                ),
            },
            final(self)@ == all_with_maps(old(self)@, loaded_models(maps@), 0),
    {
        let ghost all = loaded_models(maps@);
        let mut rest: Vec<LoadedMaps> = maps;
        let mut i: usize = 0;
        assert(rest@ =~= maps@.skip(0));
        while i < self.materials.len()
            invariant
                i <= self.materials@.len(),
                all == loaded_models(maps@),
                maps@.len() == old(self)@.len() == self.materials@.len(),
                rest@ == maps@.skip(i as int),
                forall|j: int| i <= j < maps@.len() ==> self@[j] == old(self)@[j],
                forall|j: int|
                    0 <= j < maps@.len() ==> maps_fit(old(self)@[j], (#[trigger] maps@[j])@),
                first_failure(old(self)@, all, 0) == first_failure(self@, all, i as int),
                all_with_maps(old(self)@, all, 0) == all_with_maps(self@, all, i as int),
            decreases self.materials@.len() - i,
        {
            let ghost before = self@;
            let ghost list = self.materials@;
            let found: LoadedMaps = rest.remove(0);
            assert(found == maps@[i as int]);
            assert(all[i as int] == found@);
            assert(before[i as int] == list[i as int]@);
            let outcome: Result<(), MtlError> = self.materials[i].load_maps(found);
            assert(self@ =~= before.update(i as int, self.materials@[i as int]@));
            match outcome {
                Err(error) => {
                    assert(self@ =~= before);
                    return Err(error);
                },
                Ok(_) => {},
            }
            proof {
                lemma_later_failures(before, self@, all, i + 1);
            }
            assert(rest@ =~= maps@.skip(i + 1));
            i += 1;
        }
        Ok(())
    }

    pub fn materials(&self) -> (result: &[Material])
        ensures
            mtl_models(result@) == self@,
    {
        self.materials.as_slice()
    }

    /// The first material with a name, to be changed.
    pub fn get_mut(&mut self, name: &str) -> (result: Option<&mut Material>)
        ensures
            match result {
                Some(material) => exists|i: int|
                    #![trigger old(self).materials@[i]]
                    0 <= i < old(self).materials@.len() && *material == old(self).materials@[i]
                        && old(self).materials@[i]@.name == name@ && (forall|j: int|
                        0 <= j < i ==> (#[trigger] old(self).materials@[j])@.name != name@)
                        && final(self).materials@ == old(self).materials@.update(
                        i,
                        *final(material),
                    ),
                None => !has_name(old(self)@, name@) && final(self)@ == old(self)@,
            },
    {
        match find_material(&self.materials, name) {
            None => None,
            Some(index) => Some(&mut self.materials[index]),
        }
    }

    /// The first material with a name.
    pub fn get(&self, name: &str) -> (result: Option<&Material>)
        ensures
            match result {
                Some(material) => exists|i: int|
                    #![trigger self@[i]]
                    0 <= i < self@.len() && self@[i] == material@ && self@[i].name == name@
                        && forall|j: int| 0 <= j < i ==> (#[trigger] self@[j]).name != name@,
                None => !has_name(self@, name@),
            },
    {
        match find_material(&self.materials, name) {
            None => None,
            Some(index) => {
                assert(self@[index as int] == self.materials@[index as int]@);
                assert forall|j: int| 0 <= j < index implies (#[trigger] self@[j]).name
                    != name@ by {
                    assert(self@[j] == self.materials@[j]@);
                }
                Some(&self.materials[index])
            },
        }
    }
}

/// Whether no two materials of a list have the same name.
pub open spec fn names_are_distinct(materials: Seq<MtlModel>) -> bool {
    forall|i: int, j: int|
        0 <= i < j < materials.len() ==> (#[trigger] materials[i]).name != (
        #[trigger] materials[j]).name
}

/// Whether the opacity of every material lies between zero and one.
pub open spec fn alphas_are_valid(materials: Seq<MtlModel>) -> bool {
    forall|i: int|
        0 <= i < materials.len() ==> 0 <= (#[trigger] materials[i]).alpha.rank() <= ONE
            && materials[i].alpha.finite()
}

proof fn lemma_change_keeps(material: MtlModel, record: Seq<char>, rest: Seq<char>, line: int)
    requires
        0 <= material.alpha.rank() <= ONE && material.alpha.finite(),
    ensures
        changed(material, record, rest, line) matches Ok(next) ==> next.name == material.name && 0
            <= next.alpha.rank() <= ONE && next.alpha.finite(),
{
    if let Ok(value) = number_in(rest, record) {
        lemma_finite_number(rest, record);
        crate::float::law_complement_lies_in_the_unit_interval(value);
    }
}

proof fn lemma_finite_number(value: Seq<char>, record: Seq<char>)
    ensures
        number_in(value, record) matches Ok(number) ==> number.finite(),
{
}

proof fn lemma_lines_keep(text: Seq<char>, start: int, line: int, progress: Progress)
    requires
        0 <= start,
        names_are_distinct(all_materials(progress)),
        alphas_are_valid(all_materials(progress)),
    ensures
        after_lines(text, start, line, progress) matches Ok(last) ==> names_are_distinct(
            all_materials(last),
        ) && alphas_are_valid(all_materials(last)),
    decreases text.len() + 1 - start,
{
    if start < text.len() {
        let end = next_position(text, '\n', start);
        lemma_next_position(text, '\n', start);
        let content = line_content(text.subrange(start, end));
        if let Ok(next) = after_line(progress, content, line) {
            let before = all_materials(progress);
            let after = all_materials(next);
            let record = record_name(content);
            let rest = record_rest(content);
            if let Some(material) = progress.current {
                assert(before[before.len() - 1] == material);
                lemma_change_keeps(material, record, rest, line);
            }
            assert(names_are_distinct(after) && alphas_are_valid(after)) by {
                if content.len() > 0 && record == "newmtl"@ {
                    assert(after =~= before.push(new_material(rest)));
                    assert forall|i: int, j: int| 0 <= i < j < after.len() implies (
                    #[trigger] after[i]).name != (#[trigger] after[j]).name by {
                        assert(after[i] == before[i]);
                        if j < before.len() {
                            assert(after[j] == before[j]);
                        }
                    }
                } else if content.len() > 0 && is_material_record(record) {
                    let done = progress.done;
                    assert forall|i: int, j: int| 0 <= i < j < after.len() implies (
                    #[trigger] after[i]).name != (#[trigger] after[j]).name by {
                        assert(after[i].name == before[i].name);
                        assert(after[j].name == before[j].name);
                    }
                    assert forall|i: int| 0 <= i < after.len() implies 0 <= (
                    #[trigger] after[i]).alpha.rank() <= ONE && after[i].alpha.finite() by {
                        if i < done.len() {
                            assert(after[i] == before[i]);
                        }
                    }
                }
            }
            lemma_lines_keep(text, end + 1, line + 1, next);
        }
    }
}

/// The materials of an accepted library have distinct names and valid opacities, and there is one.
pub proof fn law_accepted_libraries_are_valid(text: Seq<char>)
    ensures
        library_of(text) matches Ok(materials) ==> materials.len() > 0 && names_are_distinct(
            materials,
        ) && alphas_are_valid(materials),
{
    let empty = Progress { done: Seq::empty(), current: None };
    lemma_lines_keep(text, 0, 1, empty);
}

/// The complaints of an accepted line are none, and every complaint names a line of the text or
/// the whole file.
proof fn lemma_complaint_lines(text: Seq<char>, start: int, line: int, progress: Progress)
    requires
        0 <= start,
        1 <= line <= start + 1,
    ensures
        after_lines(text, start, line, progress) matches Err((at, _)) ==> 1 <= at <= text.len(),
    decreases text.len() + 1 - start,
{
    if start < text.len() {
        let end = next_position(text, '\n', start);
        lemma_next_position(text, '\n', start);
        let content = line_content(text.subrange(start, end));
        if let Ok(next) = after_line(progress, content, line) {
            lemma_complaint_lines(text, end + 1, line + 1, next);
        }
    }
}

/// A complaint about a record names its line; only the lack of any material names none.
pub proof fn law_complaints_name_their_line(text: Seq<char>)
    ensures
        library_of(text) matches Err((line, message)) ==> (1 <= line <= text.len()) || (line == 0
            && message == "MTL file contains no newmtl records"@),
{
    let empty = Progress { done: Seq::empty(), current: None };
    lemma_complaint_lines(text, 0, 1, empty);
}

pub type MtlMaterial = Material;

pub type MtlLibrary = MaterialLibrary;

pub type Mtl = MaterialLibrary;

} // verus!
