//! A small JSON value parser.
//!
//! The parser accepts JSON values only. It does not serialize values. Every error contains the
//! byte offset where parsing stopped. Nesting is limited to 128 levels so hostile input cannot
//! exhaust the stack.

use crate::decimal::{read_decimal, reading, Reading};
use crate::float::Float64;
use crate::rounding::Format;
use crate::text::{decimal_digits, decimal_text, join3};
use vstd::prelude::*;
use vstd::string::*;
use vstd::utf8::{decode_utf8, encode_utf8, encode_utf8_decode_utf8, is_scalar, valid_utf8};

verus! {

/// The deepest nesting of arrays and objects that is accepted.
pub const MAX_DEPTH: usize = 128;

/// A JSON value.
#[derive(Debug, PartialEq)]
pub enum Value {
    Null,
    Bool(bool),
    Number(Float64),
    String(String),
    Array(Vec<Value>),
    Object(Vec<(String, Value)>),
}

/// Why a text is no JSON value, and at which byte.
#[derive(Clone, Debug, PartialEq, Eq)]
pub struct Error {
    pub offset: usize,
    pub message: String,
}

/// A JSON value as mathematics.
#[verifier::ext_equal]
pub enum Model {
    Null,
    Bool(bool),
    Number(Float64),
    Text(Seq<char>),
    Array(Seq<Model>),
    Object(Seq<(Seq<char>, Model)>),
}

/// An error offset with its message.
pub type Failure = (int, Seq<char>);

/// The model of a value.
pub open spec fn model(value: Value) -> Model
    decreases value,
{
    match value {
        Value::Null => Model::Null,
        Value::Bool(value) => Model::Bool(value),
        Value::Number(value) => Model::Number(value),
        Value::String(value) => Model::Text(value@),
        Value::Array(values) => Model::Array(
            Seq::new(
                values@.len(),
                |i: int|
                    if 0 <= i < values@.len() {
                        model(values@[i])
                    } else {
                        Model::Null
                    },
            ),
        ),
        Value::Object(members) => Model::Object(
            Seq::new(
                members@.len(),
                |i: int|
                    if 0 <= i < members@.len() {
                        (members@[i].0@, model(members@[i].1))
                    } else {
                        (Seq::empty(), Model::Null)
                    },
            ),
        ),
    }
}

impl View for Value {
    type V = Model;

    open spec fn view(&self) -> Model {
        model(*self)
    }
}

/// The models of a list of values.
pub open spec fn models(values: Seq<Value>) -> Seq<Model> {
    Seq::new(values.len(), |i: int| values[i]@)
}

/// The models of a list of object members.
pub open spec fn member_models(members: Seq<(String, Value)>) -> Seq<(Seq<char>, Model)> {
    Seq::new(members.len(), |i: int| (members[i].0@, members[i].1@))
}

/// The view of an array is made of the views of its values.
pub proof fn lemma_array_view(values: Vec<Value>)
    ensures
        Value::Array(values)@ == Model::Array(models(values@)),
{
    assert(Value::Array(values)@->Array_0 =~= models(values@));
}

/// The view of an object is made of the views of its members.
pub proof fn lemma_object_view(members: Vec<(String, Value)>)
    ensures
        Value::Object(members)@ == Model::Object(member_models(members@)),
{
    assert(Value::Object(members)@->Object_0 =~= member_models(members@));
}

/// `std::str::from_utf8` accepts exactly the byte sequences that are valid UTF-8 and keeps their
/// bytes.
pub assume_specification<'a>[ std::str::from_utf8 ](bytes: &'a [u8]) -> (result: std::result::Result<
    &'a str,
    std::str::Utf8Error,
>)
    ensures
        result is Ok <==> valid_utf8(bytes@),
        result matches Ok(text) ==> encode_utf8(text@) == bytes@,
;

/// The error of `std::str::from_utf8`.
#[verifier::external_type_specification]
#[verifier::external_body]
pub struct ExUtf8Error(std::str::Utf8Error);

/// `char::from_u32` gives the character of every Unicode scalar value and nothing else.
pub assume_specification[ char::from_u32 ](code: u32) -> (result: std::option::Option<char>)
    ensures
        result == (if is_scalar(code) {
            Some(code as char)
        } else {
            None
        }),
;

/// Whether `byte` stands at `position`.
pub open spec fn byte_at(bytes: Seq<u8>, position: int, byte: u8) -> bool {
    0 <= position < bytes.len() && bytes[position] == byte
}

pub open spec fn is_space(byte: u8) -> bool {
    byte == 0x20 || byte == 0x0a || byte == 0x0d || byte == 0x09
}

/// The first position from `position` on that holds no white space.
pub open spec fn skip_space(bytes: Seq<u8>, position: int) -> int
    decreases bytes.len() - position,
{
    if 0 <= position < bytes.len() && is_space(bytes[position]) {
        skip_space(bytes, position + 1)
    } else {
        position
    }
}

/// White space ends where it begins or later, inside the text.
pub proof fn lemma_skip_space(bytes: Seq<u8>, position: int)
    ensures
        skip_space(bytes, position) >= position,
        0 <= position <= bytes.len() ==> skip_space(bytes, position) <= bytes.len(),
    decreases bytes.len() - position,
{
    if 0 <= position < bytes.len() && is_space(bytes[position]) {
        lemma_skip_space(bytes, position + 1);
    }
}

pub open spec fn digit_at(bytes: Seq<u8>, position: int) -> bool {
    0 <= position < bytes.len() && 0x30 <= bytes[position] <= 0x39
}

/// The first position from `position` on that holds no digit.
pub open spec fn skip_digits(bytes: Seq<u8>, position: int) -> int
    decreases bytes.len() - position,
{
    if digit_at(bytes, position) {
        skip_digits(bytes, position + 1)
    } else {
        position
    }
}

/// Where the whole part of a number that starts at `position`, after its sign, ends.
pub open spec fn whole_end(bytes: Seq<u8>, position: int) -> Result<int, Failure> {
    if byte_at(bytes, position, 0x30) {
        if digit_at(bytes, position + 1) {
            Err((position + 1, "leading zero in number"@))
        } else {
            Ok(position + 1)
        }
    } else if digit_at(bytes, position) {
        Ok(skip_digits(bytes, position + 1))
    } else {
        Err((position, "invalid number"@))
    }
}

/// Where the fraction at `position`, which may be missing, ends.
pub open spec fn fraction_end(bytes: Seq<u8>, position: int) -> Result<int, Failure> {
    if byte_at(bytes, position, 0x2e) {
        let end = skip_digits(bytes, position + 1);
        if end == position + 1 {
            Err((end, "fraction needs digits"@))
        } else {
            Ok(end)
        }
    } else {
        Ok(position)
    }
}

/// Where the exponent at `position`, which may be missing, ends.
pub open spec fn exponent_end(bytes: Seq<u8>, position: int) -> Result<int, Failure> {
    if byte_at(bytes, position, 0x65) || byte_at(bytes, position, 0x45) {
        let plus = if byte_at(bytes, position + 1, 0x2b) {
            position + 2
        } else {
            position + 1
        };
        let start = if byte_at(bytes, plus, 0x2d) {
            plus + 1
        } else {
            plus
        };
        let end = skip_digits(bytes, start);
        if end == start {
            Err((end, "exponent needs digits"@))
        } else {
            Ok(end)
        }
    } else {
        Ok(position)
    }
}

/// Where the number that starts at `position` ends.
pub open spec fn number_end(bytes: Seq<u8>, position: int) -> Result<int, Failure> {
    let start = if byte_at(bytes, position, 0x2d) {
        position + 1
    } else {
        position
    };
    match whole_end(bytes, start) {
        Err(failure) => Err(failure),
        Ok(whole) => match fraction_end(bytes, whole) {
            Err(failure) => Err(failure),
            Ok(fraction) => exponent_end(bytes, fraction),
        },
    }
}

/// ASCII bytes as characters.
pub open spec fn ascii(bytes: Seq<u8>) -> Seq<char> {
    Seq::new(bytes.len(), |i: int| bytes[i] as char)
}

/// The number at `position`: the double nearest to what its text says.
pub open spec fn number_at(bytes: Seq<u8>, position: int) -> Result<(Float64, int), Failure> {
    match number_end(bytes, position) {
        Err(failure) => Err(failure),
        Ok(end) => match reading(Format::Binary64, ascii(bytes.subrange(position, end))) {
            Reading::Invalid => Err((position, "number is out of range"@)),
            Reading::NotANumber | Reading::Infinite { .. } => Err((position, "number is not finite"@)),
            Reading::Finite { negative, magnitude } => Ok(
                (Float64::of(negative, magnitude as nat), end),
            ),
        },
    }
}

/// The value of a hexadecimal digit.
pub open spec fn hex_digit(byte: u8) -> Option<int> {
    if 0x30 <= byte <= 0x39 {
        Some(byte - 0x30)
    } else if 0x61 <= byte <= 0x66 {
        Some(byte - 0x61 + 10)
    } else if 0x41 <= byte <= 0x46 {
        Some(byte - 0x41 + 10)
    } else {
        None
    }
}

/// The number that `count` more hexadecimal digits from `position` on complete, where `value`
/// was read so far, in an escape whose digits begin at `start`.
pub open spec fn hex_at(
    bytes: Seq<u8>,
    start: int,
    position: int,
    count: nat,
    value: int,
) -> Result<int, Failure>
    decreases count,
{
    if count == 0 {
        Ok(value)
    } else if !(0 <= position < bytes.len()) {
        Err((position, "truncated Unicode escape"@))
    } else {
        match hex_digit(bytes[position]) {
            None => Err((start, "Unicode escape overflow"@)),
            Some(digit) => hex_at(
                bytes,
                start,
                position + 1,
                (count - 1) as nat,
                value * 16 + digit,
            ),
        }
    }
}

/// The character that a two-character escape stands for.
pub open spec fn simple_escape(byte: u8) -> Option<char> {
    if byte == 0x22 {
        Some('"')
    } else if byte == 0x5c {
        Some('\\')
    } else if byte == 0x2f {
        Some('/')
    } else if byte == 0x62 {
        Some('\u{8}')
    } else if byte == 0x66 {
        Some('\u{c}')
    } else if byte == 0x6e {
        Some('\n')
    } else if byte == 0x72 {
        Some('\r')
    } else if byte == 0x74 {
        Some('\t')
    } else {
        None
    }
}

/// The second half of a surrogate pair, whose backslash belongs at `position`.
pub open spec fn low_surrogate_at(bytes: Seq<u8>, position: int) -> Result<int, Failure> {
    if position >= bytes.len() {
        Err((position, "high surrogate needs a pair"@))
    } else if bytes[position] != 0x5c {
        Err((position + 1, "high surrogate needs a pair"@))
    } else if position + 1 >= bytes.len() {
        Err((position + 1, "high surrogate needs a pair"@))
    } else if bytes[position + 1] != 0x75 {
        Err((position + 2, "high surrogate needs a pair"@))
    } else {
        match hex_at(bytes, position + 2, position + 2, 4, 0) {
            Err(failure) => Err(failure),
            Ok(code) => if 0xdc00 <= code <= 0xdfff {
                Ok(code)
            } else {
                Err((position + 2, "invalid low surrogate"@))
            },
        }
    }
}

/// The character that the escape after the backslash, at `position`, stands for.
pub open spec fn escape_at(bytes: Seq<u8>, position: int) -> Result<(char, int), Failure> {
    if !(0 <= position < bytes.len()) {
        Err((position, "truncated escape"@))
    } else if bytes[position] == 0x75 {
        match hex_at(bytes, position + 1, position + 1, 4, 0) {
            Err(failure) => Err(failure),
            Ok(first) => if 0xd800 <= first <= 0xdbff {
                match low_surrogate_at(bytes, position + 5) {
                    Err(failure) => Err(failure),
                    Ok(second) => Ok(
                        (
                            (0x1_0000 + (first - 0xd800) * 0x400 + (second - 0xdc00)) as char,
                            position + 11,
                        ),
                    ),
                }
            } else if 0xdc00 <= first <= 0xdfff {
                Err((position, "unexpected low surrogate"@))
            } else {
                Ok((first as char, position + 5))
            },
        }
    } else {
        match simple_escape(bytes[position]) {
            Some(c) => Ok((c, position + 1)),
            None => Err((position, "invalid escape"@)),
        }
    }
}

proof fn lemma_hex_advances(bytes: Seq<u8>, start: int, position: int, count: nat, value: int)
    requires
        0 <= position,
        hex_at(bytes, start, position, count, value) is Ok,
        position <= bytes.len(),
    ensures
        position + count <= bytes.len(),
    decreases count,
{
    if count > 0 {
        let digit = hex_digit(bytes[position])->0;
        lemma_hex_advances(bytes, start, position + 1, (count - 1) as nat, value * 16 + digit);
    }
}

/// An escape ends after it begins, inside the text.
pub proof fn lemma_escape_advances(bytes: Seq<u8>, position: int)
    requires
        0 <= position,
    ensures
        escape_at(bytes, position) matches Ok((_, next)) ==> position < next <= bytes.len(),
{
    if escape_at(bytes, position) is Ok && bytes[position] == 0x75 {
        lemma_hex_advances(bytes, position + 1, position + 1, 4, 0);
        let first = hex_at(bytes, position + 1, position + 1, 4, 0)->Ok_0;
        if 0xd800 <= first <= 0xdbff {
            lemma_hex_advances(bytes, position + 7, position + 7, 4, 0);
        }
    }
}

/// How many bytes the character that begins with `byte` has; zero where none begins with it.
pub open spec fn character_width(byte: u8) -> int {
    if 0xc2 <= byte <= 0xdf {
        2
    } else if 0xe0 <= byte <= 0xef {
        3
    } else if 0xf0 <= byte <= 0xf4 {
        4
    } else {
        0
    }
}

/// The text that reads on from `position` to the closing quote, after `text`.
pub open spec fn text_from(bytes: Seq<u8>, position: int, text: Seq<char>) -> Result<
    (Seq<char>, int),
    Failure,
>
    decreases bytes.len() - position,
{
    if !(0 <= position < bytes.len()) {
        Err((position, "unterminated string"@))
    } else {
        proof {
            lemma_escape_advances(bytes, position + 1);
        }
        let byte = bytes[position];
        let width = character_width(byte);
        if byte == 0x22 {
            Ok((text, position + 1))
        } else if byte == 0x5c {
            match escape_at(bytes, position + 1) {
                Err(failure) => Err(failure),
                Ok((c, next)) => text_from(bytes, next, text.push(c)),
            }
        } else if byte < 0x20 {
            Err((position, "control byte in string"@))
        } else if byte < 0x80 {
            text_from(bytes, position + 1, text.push(byte as char))
        } else if width == 0 {
            Err((position, "invalid UTF-8 in string"@))
        } else if position + width > bytes.len() {
            Err((position, "truncated UTF-8 in string"@))
        } else if !valid_utf8(bytes.subrange(position, position + width)) {
            Err((position, "invalid UTF-8 in string"@))
        } else {
            text_from(
                bytes,
                position + width,
                text + decode_utf8(bytes.subrange(position, position + width)),
            )
        }
    }
}

/// The string whose opening quote belongs at `position`.
pub open spec fn string_at(bytes: Seq<u8>, position: int) -> Result<(Seq<char>, int), Failure> {
    if byte_at(bytes, position, 0x22) {
        text_from(bytes, position + 1, Seq::empty())
    } else {
        Err((position, "expected string"@))
    }
}

/// The literal `word`, which stands for `value`, at `position`.
pub open spec fn literal_at(bytes: Seq<u8>, position: int, word: Seq<u8>, value: Model) -> Result<
    (Model, int),
    Failure,
> {
    if position + word.len() <= bytes.len() && bytes.subrange(position, position + word.len())
        == word {
        Ok((value, position + word.len()))
    } else {
        Err((position, "invalid literal"@))
    }
}

/// The value that begins after the white space at `position`, `depth` levels deep.
pub open spec fn value_at(bytes: Seq<u8>, position: int, depth: int) -> Result<
    (Model, int),
    Failure,
>
    decreases bytes.len() - position, 0int,
{
    proof {
        lemma_skip_space(bytes, position);
        lemma_skip_space(bytes, skip_space(bytes, position) + 1);
    }
    let start = skip_space(bytes, position);
    if !(0 <= start < bytes.len()) {
        Err((start, "unexpected end of input"@))
    } else {
        let byte = bytes[start];
        if byte == 0x6e {
            literal_at(bytes, start, seq![0x6eu8, 0x75, 0x6c, 0x6c], Model::Null)
        } else if byte == 0x74 {
            literal_at(bytes, start, seq![0x74u8, 0x72, 0x75, 0x65], Model::Bool(true))
        } else if byte == 0x66 {
            literal_at(bytes, start, seq![0x66u8, 0x61, 0x6c, 0x73, 0x65], Model::Bool(false))
        } else if byte == 0x22 {
            match string_at(bytes, start) {
                Err(failure) => Err(failure),
                Ok((text, next)) => Ok((Model::Text(text), next)),
            }
        } else if (byte == 0x5b || byte == 0x7b) && depth >= MAX_DEPTH {
            Err((start, "maximum nesting depth exceeded"@))
        } else if byte == 0x5b {
            let first = skip_space(bytes, start + 1);
            if byte_at(bytes, first, 0x5d) {
                Ok((Model::Array(Seq::empty()), first + 1))
            } else {
                items_at(bytes, first, depth + 1, Seq::empty())
            }
        } else if byte == 0x7b {
            let first = skip_space(bytes, start + 1);
            if byte_at(bytes, first, 0x7d) {
                Ok((Model::Object(Seq::empty()), first + 1))
            } else {
                members_at(bytes, first, depth + 1, Seq::empty())
            }
        } else if byte == 0x2d || 0x30 <= byte <= 0x39 {
            match number_at(bytes, start) {
                Err(failure) => Err(failure),
                Ok((number, next)) => Ok((Model::Number(number), next)),
            }
        } else {
            Err((start, "expected a JSON value"@))
        }
    }
}

/// The array whose next item begins at `position`, after `items`.
pub open spec fn items_at(bytes: Seq<u8>, position: int, depth: int, items: Seq<Model>) -> Result<
    (Model, int),
    Failure,
>
    decreases bytes.len() - position, 1int,
{
    match value_at(bytes, position, depth) {
        Err(failure) => Err(failure),
        Ok((value, next)) => {
            let after = skip_space(bytes, next);
            let start = skip_space(bytes, after + 1);
            if byte_at(bytes, after, 0x5d) {
                Ok((Model::Array(items.push(value)), after + 1))
            } else if !byte_at(bytes, after, 0x2c) {
                Err((after, "expected ',' or ']'"@))
            } else if byte_at(bytes, start, 0x5d) {
                Err((start, "trailing comma in array"@))
            } else if !(position < start <= bytes.len()) {
                Err((start, Seq::empty()))
            } else {
                items_at(bytes, start, depth, items.push(value))
            }
        },
    }
}

/// The object whose next member begins at `position`, after `members`.
pub open spec fn members_at(
    bytes: Seq<u8>,
    position: int,
    depth: int,
    members: Seq<(Seq<char>, Model)>,
) -> Result<(Model, int), Failure>
    decreases bytes.len() - position, 1int,
{
    if !byte_at(bytes, position, 0x22) {
        Err((position, "object key must be a string"@))
    } else {
        match string_at(bytes, position) {
            Err(failure) => Err(failure),
            Ok((key, key_end)) => {
                let colon = skip_space(bytes, key_end);
                if !byte_at(bytes, colon, 0x3a) {
                    Err((colon, "expected ':' after object key"@))
                } else if !(position < colon) {
                    Err((colon, Seq::empty()))
                } else {
                    match value_at(bytes, colon + 1, depth) {
                        Err(failure) => Err(failure),
                        Ok((value, next)) => {
                            let after = skip_space(bytes, next);
                            let start = skip_space(bytes, after + 1);
                            if byte_at(bytes, after, 0x7d) {
                                Ok((Model::Object(members.push((key, value))), after + 1))
                            } else if !byte_at(bytes, after, 0x2c) {
                                Err((after, "expected ',' or '}'"@))
                            } else if byte_at(bytes, start, 0x7d) {
                                Err((start, "trailing comma in object"@))
                            } else if !(position < start <= bytes.len()) {
                                Err((start, Seq::empty()))
                            } else {
                                members_at(bytes, start, depth, members.push((key, value)))
                            }
                        },
                    }
                }
            },
        }
    }
}

/// The one value that a document is, or where and why it is none.
pub open spec fn document(bytes: Seq<u8>) -> Result<Model, Failure> {
    match value_at(bytes, 0, 0) {
        Err(failure) => Err(failure),
        Ok((value, next)) => {
            let end = skip_space(bytes, next);
            if end == bytes.len() {
                Ok(value)
            } else {
                Err((end, "trailing characters"@))
            }
        },
    }
}

impl Error {
    /// What the error says, as an offset and a message.
    pub open spec fn failure(self) -> Failure {
        (self.offset as int, self.message@)
    }

    fn new(offset: usize, message: &str) -> (result: Error)
        ensures
            result.failure() == (offset as int, message@),
    {
        Error { offset, message: message.to_owned() }
    }

    /// The error as text, with its byte offset.
    pub fn to_text(&self) -> (result: String)
        ensures
            result@ == "byte "@ + decimal_digits(self.offset as nat) + ": "@ + self.message@,
    {
        let mut text: String = join3("byte ", decimal_text(self.offset as u64).as_str(), ": ");
        text.append(self.message.as_str());
        text
    }
}

/// The outcome of parsing a part of a document, as mathematics.
pub open spec fn outcome(result: Result<(Value, usize), Error>) -> Result<(Model, int), Failure> {
    match result {
        Ok((value, next)) => Ok((value@, next as int)),
        Err(error) => Err(error.failure()),
    }
}

/// The outcome of parsing a string, as mathematics.
pub open spec fn text_outcome(result: Result<(String, usize), Error>) -> Result<
    (Seq<char>, int),
    Failure,
> {
    match result {
        Ok((text, next)) => Ok((text@, next as int)),
        Err(error) => Err(error.failure()),
    }
}

/// The outcome of looking for an end, as mathematics.
pub open spec fn end_outcome(result: Result<usize, Error>) -> Result<int, Failure> {
    match result {
        Ok(end) => Ok(end as int),
        Err(error) => Err(error.failure()),
    }
}

fn peek(bytes: &[u8], position: usize) -> (result: Option<u8>)
    ensures
        result == (if position < bytes@.len() {
            Some(bytes@[position as int])
        } else {
            None
        }),
        bytes@.len() <= usize::MAX,
{
    if position < bytes.len() {
        Some(bytes[position])
    } else {
        None
    }
}

fn is_at(bytes: &[u8], position: usize, byte: u8) -> (result: bool)
    ensures
        result == byte_at(bytes@, position as int, byte),
        bytes@.len() <= usize::MAX,
{
    position < bytes.len() && bytes[position] == byte
}

fn whitespace(bytes: &[u8], position: usize) -> (result: usize)
    requires
        position <= bytes@.len(),
    ensures
        result == skip_space(bytes@, position as int),
        position <= result <= bytes@.len() <= usize::MAX,
{
    let mut end: usize = position;
    while end < bytes.len() && (bytes[end] == 0x20 || bytes[end] == 0x0a || bytes[end] == 0x0d
        || bytes[end] == 0x09)
        invariant
            position <= end <= bytes@.len(),
            skip_space(bytes@, position as int) == skip_space(bytes@, end as int),
        decreases bytes@.len() - end,
    {
        end += 1;
    }
    end
}

fn digits(bytes: &[u8], position: usize) -> (result: usize)
    requires
        position <= bytes@.len(),
    ensures
        result == skip_digits(bytes@, position as int),
        position <= result <= bytes@.len(),
{
    let mut end: usize = position;
    while end < bytes.len() && bytes[end] >= 0x30 && bytes[end] <= 0x39
        invariant
            position <= end <= bytes@.len(),
            skip_digits(bytes@, position as int) == skip_digits(bytes@, end as int),
        decreases bytes@.len() - end,
    {
        end += 1;
    }
    end
}

fn find_whole_end(bytes: &[u8], position: usize) -> (result: Result<usize, Error>)
    requires
        position <= bytes@.len(),
    ensures
        end_outcome(result) == whole_end(bytes@, position as int),
        result matches Ok(end) ==> position < end <= bytes@.len(),
{
    match peek(bytes, position) {
        Some(byte) => {
            if byte == 0x30 {
                if position + 1 < bytes.len() && bytes[position + 1] >= 0x30 && bytes[position + 1]
                    <= 0x39 {
                    return Err(Error::new(position + 1, "leading zero in number"));
                }
                return Ok(position + 1);
            }
            if byte > 0x30 && byte <= 0x39 {
                return Ok(digits(bytes, position + 1));
            }
            Err(Error::new(position, "invalid number"))
        },
        None => Err(Error::new(position, "invalid number")),
    }
}

fn find_fraction_end(bytes: &[u8], position: usize) -> (result: Result<usize, Error>)
    requires
        position <= bytes@.len(),
    ensures
        end_outcome(result) == fraction_end(bytes@, position as int),
        result matches Ok(end) ==> position <= end <= bytes@.len(),
{
    if !is_at(bytes, position, 0x2e) {
        return Ok(position);
    }
    let end: usize = digits(bytes, position + 1);
    if end == position + 1 {
        return Err(Error::new(end, "fraction needs digits"));
    }
    Ok(end)
}

fn find_exponent_end(bytes: &[u8], position: usize) -> (result: Result<usize, Error>)
    requires
        position <= bytes@.len(),
    ensures
        end_outcome(result) == exponent_end(bytes@, position as int),
        result matches Ok(end) ==> position <= end <= bytes@.len(),
{
    if !is_at(bytes, position, 0x65) && !is_at(bytes, position, 0x45) {
        return Ok(position);
    }
    let plus: usize = if is_at(bytes, position + 1, 0x2b) {
        position + 2
    } else {
        position + 1
    };
    let start: usize = if is_at(bytes, plus, 0x2d) {
        plus + 1
    } else {
        plus
    };
    let end: usize = digits(bytes, start);
    if end == start {
        return Err(Error::new(end, "exponent needs digits"));
    }
    Ok(end)
}

/// The outcome of parsing a number, as mathematics.
pub open spec fn number_outcome(result: Result<(Float64, usize), Error>) -> Result<
    (Float64, int),
    Failure,
> {
    match result {
        Ok((value, next)) => Ok((value, next as int)),
        Err(error) => Err(error.failure()),
    }
}

fn number(bytes: &[u8], position: usize) -> (result: Result<(Float64, usize), Error>)
    requires
        position < bytes@.len(),
    ensures
        number_outcome(result) == number_at(bytes@, position as int),
        result matches Ok((_, next)) ==> position < next <= bytes@.len(),
{
    let start: usize = if is_at(bytes, position, 0x2d) {
        position + 1
    } else {
        position
    };
    let whole: usize = match find_whole_end(bytes, start) {
        Ok(end) => end,
        Err(error) => return Err(error),
    };
    let fraction: usize = match find_fraction_end(bytes, whole) {
        Ok(end) => end,
        Err(error) => return Err(error),
    };
    let end: usize = match find_exponent_end(bytes, fraction) {
        Ok(end) => end,
        Err(error) => return Err(error),
    };
    let mut text: Vec<char> = Vec::new();
    let mut i: usize = position;
    while i < end
        invariant
            position <= i <= end <= bytes@.len(),
            text@ =~= ascii(bytes@.subrange(position as int, i as int)),
        decreases end - i,
    {
        text.push(bytes[i] as char);
        i += 1;
    }
    match read_decimal(Format::Binary64, text.as_slice()) {
        Reading::Invalid => Err(Error::new(position, "number is out of range")),
        Reading::NotANumber | Reading::Infinite { .. } => Err(Error::new(position, "number is not finite")),
        Reading::Finite { negative, magnitude } => {
            Ok((Float64::from_parts(negative, magnitude), end))
        },
    }
}

/// The value of a hexadecimal digit.
fn hex_value(byte: u8) -> (result: Option<u32>)
    ensures
        result matches Some(value) ==> hex_digit(byte) == Some(value as int) && value < 16,
        result is None ==> hex_digit(byte) is None,
{
    if byte >= 0x30 && byte <= 0x39 {
        Some((byte - 0x30) as u32)
    } else if byte >= 0x61 && byte <= 0x66 {
        Some((byte - 0x61 + 10) as u32)
    } else if byte >= 0x41 && byte <= 0x46 {
        Some((byte - 0x41 + 10) as u32)
    } else {
        None
    }
}

fn hex_u16(bytes: &[u8], start: usize) -> (result: Result<u32, Error>)
    requires
        start <= bytes@.len(),
    ensures
        match result {
            Ok(value) => hex_at(bytes@, start as int, start as int, 4, 0) == Ok::<int, Failure>(
                value as int,
            ) && value < 0x1_0000 && start + 4 <= bytes@.len(),
            Err(error) => hex_at(bytes@, start as int, start as int, 4, 0) == Err::<int, Failure>(
                error.failure(),
            ),
        },
{
    let mut value: u32 = 0;
    let mut count: usize = 0;
    assert(bytes.len() == bytes@.len());
    while count < 4
        invariant
            bytes@.len() <= usize::MAX,
            count <= 4,
            start + count <= bytes@.len(),
            count == 0 ==> value == 0,
            count == 1 ==> value < 0x10,
            count == 2 ==> value < 0x100,
            count == 3 ==> value < 0x1000,
            count == 4 ==> value < 0x1_0000,
            hex_at(bytes@, start as int, start as int, 4, 0) == hex_at(
                bytes@,
                start as int,
                start + count,
                (4 - count) as nat,
                value as int,
            ),
        decreases 4 - count,
    {
        match peek(bytes, start + count) {
            None => {
                return Err(Error::new(start + count, "truncated Unicode escape"));
            },
            Some(byte) => match hex_value(byte) {
                None => {
                    return Err(Error::new(start, "Unicode escape overflow"));
                },
                Some(digit) => {
                    value = value * 16 + digit;
                },
            },
        }
        count += 1;
    }
    Ok(value)
}

fn low_surrogate(bytes: &[u8], position: usize) -> (result: Result<u32, Error>)
    requires
        position <= bytes@.len(),
    ensures
        match result {
            Ok(value) => low_surrogate_at(bytes@, position as int) == Ok::<int, Failure>(
                value as int,
            ) && 0xdc00 <= value <= 0xdfff && position + 6 <= bytes@.len(),
            Err(error) => low_surrogate_at(bytes@, position as int) == Err::<int, Failure>(
                error.failure(),
            ),
        },
{
    match peek(bytes, position) {
        None => Err(Error::new(position, "high surrogate needs a pair")),
        Some(slash) => {
            if slash != 0x5c {
                return Err(Error::new(position + 1, "high surrogate needs a pair"));
            }
            match peek(bytes, position + 1) {
                None => Err(Error::new(position + 1, "high surrogate needs a pair")),
                Some(letter) => {
                    if letter != 0x75 {
                        return Err(Error::new(position + 2, "high surrogate needs a pair"));
                    }
                    match hex_u16(bytes, position + 2) {
                        Err(error) => Err(error),
                        Ok(code) => if code >= 0xdc00 && code <= 0xdfff {
                            Ok(code)
                        } else {
                            Err(Error::new(position + 2, "invalid low surrogate"))
                        },
                    }
                },
            }
        },
    }
}

/// The outcome of parsing an escape, as mathematics.
pub open spec fn escape_outcome(result: Result<(char, usize), Error>) -> Result<
    (char, int),
    Failure,
> {
    match result {
        Ok((c, next)) => Ok((c, next as int)),
        Err(error) => Err(error.failure()),
    }
}

fn escape(bytes: &[u8], position: usize) -> (result: Result<(char, usize), Error>)
    requires
        position <= bytes@.len(),
    ensures
        escape_outcome(result) == escape_at(bytes@, position as int),
        result matches Ok((_, next)) ==> position < next <= bytes@.len(),
{
    let byte: u8 = match peek(bytes, position) {
        Some(byte) => byte,
        None => return Err(Error::new(position, "truncated escape")),
    };
    if byte == 0x75 {
        let first: u32 = match hex_u16(bytes, position + 1) {
            Ok(value) => value,
            Err(error) => return Err(error),
        };
        if first >= 0xd800 && first <= 0xdbff {
            let second: u32 = match low_surrogate(bytes, position + 5) {
                Ok(value) => value,
                Err(error) => return Err(error),
            };
            let code: u32 = 0x1_0000 + (first - 0xd800) * 0x400 + (second - 0xdc00);
            return match char::from_u32(code) {
                Some(c) => Ok((c, position + 11)),
                None => Err(Error::new(position, "invalid Unicode escape")),
            };
        }
        if first >= 0xdc00 && first <= 0xdfff {
            return Err(Error::new(position, "unexpected low surrogate"));
        }
        return match char::from_u32(first) {
            Some(c) => Ok((c, position + 5)),
            None => Err(Error::new(position, "invalid Unicode escape")),
        };
    }
    let c: char = if byte == 0x22 {
        '"'
    } else if byte == 0x5c {
        '\\'
    } else if byte == 0x2f {
        '/'
    } else if byte == 0x62 {
        '\u{8}'
    } else if byte == 0x66 {
        '\u{c}'
    } else if byte == 0x6e {
        '\n'
    } else if byte == 0x72 {
        '\r'
    } else if byte == 0x74 {
        '\t'
    } else {
        return Err(Error::new(position, "invalid escape"));
    };
    Ok((c, position + 1))
}

fn utf8_width(byte: u8) -> (result: usize)
    ensures
        result == character_width(byte),
{
    if byte >= 0xc2 && byte <= 0xdf {
        2
    } else if byte >= 0xe0 && byte <= 0xef {
        3
    } else if byte >= 0xf0 && byte <= 0xf4 {
        4
    } else {
        0
    }
}

fn string(bytes: &[u8], start: usize) -> (result: Result<(String, usize), Error>)
    requires
        start <= bytes@.len(),
    ensures
        text_outcome(result) == string_at(bytes@, start as int),
        result matches Ok((_, next)) ==> start < next <= bytes@.len(),
{
    if !is_at(bytes, start, 0x22) {
        return Err(Error::new(start, "expected string"));
    }
    let mut text: String = String::new();
    let mut position: usize = start + 1;
    while position < bytes.len()
        invariant
            start < position <= bytes@.len(),
            byte_at(bytes@, start as int, 0x22),
            string_at(bytes@, start as int) == text_from(bytes@, position as int, text@),
        decreases bytes@.len() - position,
    {
        let byte: u8 = bytes[position];
        if byte == 0x22 {
            return Ok((text, position + 1));
        }
        if byte == 0x5c {
            match escape(bytes, position + 1) {
                Err(error) => {
                    return Err(error);
                },
                Ok((c, next)) => {
                    text.push(c);
                    position = next;
                },
            }
        } else if byte < 0x20 {
            return Err(Error::new(position, "control byte in string"));
        } else if byte < 0x80 {
            text.push(byte as char);
            position += 1;
        } else {
            let width: usize = utf8_width(byte);
            if width == 0 {
                return Err(Error::new(position, "invalid UTF-8 in string"));
            }
            if width > bytes.len() - position {
                return Err(Error::new(position, "truncated UTF-8 in string"));
            }
            let slice: &[u8] = vstd::slice::slice_subrange(bytes, position, position + width);
            match std::str::from_utf8(slice) {
                Err(_) => {
                    return Err(Error::new(position, "invalid UTF-8 in string"));
                },
                Ok(more) => {
                    proof {
                        encode_utf8_decode_utf8(more@);
                    }
                    text.append(more);
                    position += width;
                },
            }
        }
    }
    Err(Error::new(position, "unterminated string"))
}

fn literal(bytes: &[u8], start: usize, word: &[u8], value: Value) -> (result: Result<
    (Value, usize),
    Error,
>)
    requires
        start < bytes@.len(),
        word@.len() > 0,
    ensures
        outcome(result) == literal_at(bytes@, start as int, word@, value@),
        result matches Ok((_, next)) ==> start < next <= bytes@.len(),
{
    if word.len() > bytes.len() - start {
        return Err(Error::new(start, "invalid literal"));
    }
    let mut i: usize = 0;
    while i < word.len()
        invariant
            i <= word@.len(),
            start + word@.len() <= bytes@.len(),
            bytes@.len() <= usize::MAX,
            bytes@.subrange(start as int, start + i) == word@.subrange(0, i as int),
        decreases word@.len() - i,
    {
        if bytes[start + i] != word[i] {
            assert(bytes@.subrange(start as int, start + word@.len())[i as int] != word@[i as int]);
            return Err(Error::new(start, "invalid literal"));
        }
        proof {
            assert(bytes@.subrange(start as int, start + i + 1) =~= bytes@.subrange(
                start as int,
                start + i,
            ).push(bytes@[start + i]));
            assert(word@.subrange(0, i + 1) =~= word@.subrange(0, i as int).push(
                word@[i as int],
            ));
        }
        i += 1;
    }
    assert(word@.subrange(0, word@.len() as int) =~= word@);
    Ok((value, start + word.len()))
}

fn value(bytes: &[u8], position: usize, depth: usize) -> (result: Result<(Value, usize), Error>)
    requires
        position <= bytes@.len(),
        depth <= MAX_DEPTH,
    ensures
        outcome(result) == value_at(bytes@, position as int, depth as int),
        result matches Ok((_, next)) ==> position < next <= bytes@.len(),
    decreases bytes@.len() - position, 1int,
{
    let start: usize = whitespace(bytes, position);
    let byte: u8 = match peek(bytes, start) {
        Some(byte) => byte,
        None => return Err(Error::new(start, "unexpected end of input")),
    };
    if byte == 0x6e {
        let word: [u8; 4] = [0x6e, 0x75, 0x6c, 0x6c];
        assert(word@ =~= seq![0x6eu8, 0x75, 0x6c, 0x6c]);
        literal(bytes, start, &word, Value::Null)
    } else if byte == 0x74 {
        let word: [u8; 4] = [0x74, 0x72, 0x75, 0x65];
        assert(word@ =~= seq![0x74u8, 0x72, 0x75, 0x65]);
        literal(bytes, start, &word, Value::Bool(true))
    } else if byte == 0x66 {
        let word: [u8; 5] = [0x66, 0x61, 0x6c, 0x73, 0x65];
        assert(word@ =~= seq![0x66u8, 0x61, 0x6c, 0x73, 0x65]);
        literal(bytes, start, &word, Value::Bool(false))
    } else if byte == 0x22 {
        match string(bytes, start) {
            Err(error) => Err(error),
            Ok((text, next)) => Ok((Value::String(text), next)),
        }
    } else if (byte == 0x5b || byte == 0x7b) && depth >= MAX_DEPTH {
        Err(Error::new(start, "maximum nesting depth exceeded"))
    } else if byte == 0x5b {
        array(bytes, start, depth + 1)
    } else if byte == 0x7b {
        object(bytes, start, depth + 1)
    } else if byte == 0x2d || (byte >= 0x30 && byte <= 0x39) {
        match number(bytes, start) {
            Err(error) => Err(error),
            Ok((number, next)) => Ok((Value::Number(number), next)),
        }
    } else {
        Err(Error::new(start, "expected a JSON value"))
    }
}

/// The array whose bracket stands at `start`.
pub open spec fn array_at(bytes: Seq<u8>, start: int, depth: int) -> Result<
    (Model, int),
    Failure,
> {
    let first = skip_space(bytes, start + 1);
    if byte_at(bytes, first, 0x5d) {
        Ok((Model::Array(Seq::empty()), first + 1))
    } else {
        items_at(bytes, first, depth, Seq::empty())
    }
}

/// The object whose brace stands at `start`.
pub open spec fn object_at(bytes: Seq<u8>, start: int, depth: int) -> Result<
    (Model, int),
    Failure,
> {
    let first = skip_space(bytes, start + 1);
    if byte_at(bytes, first, 0x7d) {
        Ok((Model::Object(Seq::empty()), first + 1))
    } else {
        members_at(bytes, first, depth, Seq::empty())
    }
}

fn array(bytes: &[u8], start: usize, depth: usize) -> (result: Result<(Value, usize), Error>)
    requires
        start < bytes@.len(),
        depth <= MAX_DEPTH,
    ensures
        outcome(result) == array_at(bytes@, start as int, depth as int),
        result matches Ok((_, next)) ==> start < next <= bytes@.len(),
    decreases bytes@.len() - start, 0int,
{
    assert(bytes.len() == bytes@.len());
    let mut position: usize = whitespace(bytes, start + 1);
    let mut items: Vec<Value> = Vec::new();
    if is_at(bytes, position, 0x5d) {
        proof {
            lemma_array_view(items);
            assert(models(items@) =~= Seq::empty());
        }
        return Ok((Value::Array(items), position + 1));
    }
    assert(models(items@) =~= Seq::empty());
    loop
        invariant
            start < position <= bytes@.len(),
            depth <= MAX_DEPTH,
            array_at(bytes@, start as int, depth as int) == items_at(
                bytes@,
                position as int,
                depth as int,
                models(items@),
            ),
        decreases bytes@.len() - position,
    {
        let (item, next): (Value, usize) = match value(bytes, position, depth) {
            Err(error) => {
                return Err(error);
            },
            Ok(found) => found,
        };
        let ghost before = models(items@);
        let ghost found = item@;
        items.push(item);
        assert(models(items@) =~= before.push(found));
        let after: usize = whitespace(bytes, next);
        if is_at(bytes, after, 0x5d) {
            proof {
                lemma_array_view(items);
            }
            return Ok((Value::Array(items), after + 1));
        }
        if !is_at(bytes, after, 0x2c) {
            return Err(Error::new(after, "expected ',' or ']'"));
        }
        let following: usize = whitespace(bytes, after + 1);
        if is_at(bytes, following, 0x5d) {
            return Err(Error::new(following, "trailing comma in array"));
        }
        position = following;
    }
}

fn object(bytes: &[u8], start: usize, depth: usize) -> (result: Result<(Value, usize), Error>)
    requires
        start < bytes@.len(),
        depth <= MAX_DEPTH,
    ensures
        outcome(result) == object_at(bytes@, start as int, depth as int),
        result matches Ok((_, next)) ==> start < next <= bytes@.len(),
    decreases bytes@.len() - start, 0int,
{
    assert(bytes.len() == bytes@.len());
    let mut position: usize = whitespace(bytes, start + 1);
    let mut members: Vec<(String, Value)> = Vec::new();
    if is_at(bytes, position, 0x7d) {
        proof {
            lemma_object_view(members);
            assert(member_models(members@) =~= Seq::empty());
        }
        return Ok((Value::Object(members), position + 1));
    }
    assert(member_models(members@) =~= Seq::empty());
    loop
        invariant
            start < position <= bytes@.len(),
            depth <= MAX_DEPTH,
            object_at(bytes@, start as int, depth as int) == members_at(
                bytes@,
                position as int,
                depth as int,
                member_models(members@),
            ),
        decreases bytes@.len() - position,
    {
        if !is_at(bytes, position, 0x22) {
            return Err(Error::new(position, "object key must be a string"));
        }
        let (key, key_end): (String, usize) = match string(bytes, position) {
            Err(error) => {
                return Err(error);
            },
            Ok(found) => found,
        };
        let colon: usize = whitespace(bytes, key_end);
        if !is_at(bytes, colon, 0x3a) {
            return Err(Error::new(colon, "expected ':' after object key"));
        }
        let (item, next): (Value, usize) = match value(bytes, colon + 1, depth) {
            Err(error) => {
                return Err(error);
            },
            Ok(found) => found,
        };
        let ghost before = member_models(members@);
        let ghost found = (key@, item@);
        members.push((key, item));
        assert(member_models(members@) =~= before.push(found));
        let after: usize = whitespace(bytes, next);
        if is_at(bytes, after, 0x7d) {
            proof {
                lemma_object_view(members);
            }
            return Ok((Value::Object(members), after + 1));
        }
        if !is_at(bytes, after, 0x2c) {
            return Err(Error::new(after, "expected ',' or '}'"));
        }
        let following: usize = whitespace(bytes, after + 1);
        if is_at(bytes, following, 0x7d) {
            return Err(Error::new(following, "trailing comma in object"));
        }
        position = following;
    }
}

/// Parses a JSON document.
pub fn parse(source: &str) -> (result: Result<Value, Error>)
    ensures
        match result {
            Ok(value) => document(encode_utf8(source@)) == Ok::<Model, Failure>(value@),
            Err(error) => document(encode_utf8(source@)) == Err::<Model, Failure>(
                error.failure(),
            ),
        },
{
    let bytes: &[u8] = source.as_bytes();
    let (found, next): (Value, usize) = match value(bytes, 0, 0) {
        Err(error) => return Err(error),
        Ok(found) => found,
    };
    let end: usize = whitespace(bytes, next);
    if end != bytes.len() {
        return Err(Error::new(end, "trailing characters"));
    }
    Ok(found)
}

/// Whether at most `levels` arrays and objects lie one within the other in a value, the value
/// itself included.
pub open spec fn nests_within(model: Model, levels: int) -> bool
    decreases model,
{
    match model {
        Model::Array(items) => levels >= 1 && forall|i: int|
            0 <= i < items.len() ==> nests_within(#[trigger] items[i], levels - 1),
        Model::Object(members) => levels >= 1 && forall|i: int|
            0 <= i < members.len() ==> nests_within((#[trigger] members[i]).1, levels - 1),
        _ => true,
    }
}

/// What holds of every outcome at `position`: a value ends after it begins and inside the text,
/// nests no deeper than the limit leaves room for, and an error lies inside the text and has a
/// message.
pub open spec fn sound_outcome(
    outcome: Result<(Model, int), Failure>,
    bytes: Seq<u8>,
    position: int,
    levels: int,
) -> bool {
    match outcome {
        Ok((value, next)) => position < next <= bytes.len() && nests_within(value, levels),
        Err((offset, message)) => 0 <= offset <= bytes.len() && message.len() > 0,
    }
}

/// Digits end where they begin or later, inside the text.
pub proof fn lemma_skip_digits(bytes: Seq<u8>, position: int)
    ensures
        skip_digits(bytes, position) >= position,
        0 <= position <= bytes.len() ==> skip_digits(bytes, position) <= bytes.len(),
    decreases bytes.len() - position,
{
    if digit_at(bytes, position) {
        lemma_skip_digits(bytes, position + 1);
    }
}

proof fn lemma_messages_are_not_empty()
    ensures
        "leading zero in number"@.len() > 0,
        "invalid number"@.len() > 0,
        "fraction needs digits"@.len() > 0,
        "exponent needs digits"@.len() > 0,
        "number is out of range"@.len() > 0,
        "number is not finite"@.len() > 0,
        "truncated Unicode escape"@.len() > 0,
        "Unicode escape overflow"@.len() > 0,
        "high surrogate needs a pair"@.len() > 0,
        "invalid low surrogate"@.len() > 0,
        "truncated escape"@.len() > 0,
        "unexpected low surrogate"@.len() > 0,
        "invalid escape"@.len() > 0,
        "unterminated string"@.len() > 0,
        "control byte in string"@.len() > 0,
        "invalid UTF-8 in string"@.len() > 0,
        "truncated UTF-8 in string"@.len() > 0,
        "expected string"@.len() > 0,
        "invalid literal"@.len() > 0,
        "maximum nesting depth exceeded"@.len() > 0,
        "unexpected end of input"@.len() > 0,
        "expected a JSON value"@.len() > 0,
        "expected ',' or ']'"@.len() > 0,
        "trailing comma in array"@.len() > 0,
        "object key must be a string"@.len() > 0,
        "expected ':' after object key"@.len() > 0,
        "expected ',' or '}'"@.len() > 0,
        "trailing comma in object"@.len() > 0,
        "trailing characters"@.len() > 0,
{
    reveal_strlit("leading zero in number");
    reveal_strlit("invalid number");
    reveal_strlit("fraction needs digits");
    reveal_strlit("exponent needs digits");
    reveal_strlit("number is out of range");
    reveal_strlit("number is not finite");
    reveal_strlit("truncated Unicode escape");
    reveal_strlit("Unicode escape overflow");
    reveal_strlit("high surrogate needs a pair");
    reveal_strlit("invalid low surrogate");
    reveal_strlit("truncated escape");
    reveal_strlit("unexpected low surrogate");
    reveal_strlit("invalid escape");
    reveal_strlit("unterminated string");
    reveal_strlit("control byte in string");
    reveal_strlit("invalid UTF-8 in string");
    reveal_strlit("truncated UTF-8 in string");
    reveal_strlit("expected string");
    reveal_strlit("invalid literal");
    reveal_strlit("maximum nesting depth exceeded");
    reveal_strlit("unexpected end of input");
    reveal_strlit("expected a JSON value");
    reveal_strlit("expected ',' or ']'");
    reveal_strlit("trailing comma in array");
    reveal_strlit("object key must be a string");
    reveal_strlit("expected ':' after object key");
    reveal_strlit("expected ',' or '}'");
    reveal_strlit("trailing comma in object");
    reveal_strlit("trailing characters");
}

proof fn lemma_number_outcome(bytes: Seq<u8>, position: int)
    requires
        0 <= position < bytes.len(),
    ensures
        match number_at(bytes, position) {
            Ok((_, next)) => position < next <= bytes.len(),
            Err((offset, message)) => 0 <= offset <= bytes.len() && message.len() > 0,
        },
{
    lemma_messages_are_not_empty();
    let start = if byte_at(bytes, position, 0x2d) {
        position + 1
    } else {
        position
    };
    lemma_skip_digits(bytes, start + 1);
    if let Ok(whole) = whole_end(bytes, start) {
        lemma_skip_digits(bytes, whole + 1);
        if let Ok(fraction) = fraction_end(bytes, whole) {
            lemma_skip_digits(bytes, fraction + 1);
            lemma_skip_digits(bytes, fraction + 2);
            lemma_skip_digits(bytes, fraction + 3);
        }
    }
}

proof fn lemma_hex_outcome(bytes: Seq<u8>, start: int, position: int, count: nat, value: int)
    requires
        0 <= start <= position <= bytes.len(),
    ensures
        match hex_at(bytes, start, position, count, value) {
            Ok(_) => position + count <= bytes.len(),
            Err((offset, message)) => 0 <= offset <= bytes.len() && message.len() > 0,
        },
    decreases count,
{
    lemma_messages_are_not_empty();
    if count > 0 && position < bytes.len() {
        if let Some(digit) = hex_digit(bytes[position]) {
            lemma_hex_outcome(bytes, start, position + 1, (count - 1) as nat, value * 16 + digit);
        }
    }
}

/// A string ends inside the text, and so does an error in one.
pub proof fn lemma_text_outcome(bytes: Seq<u8>, position: int, text: Seq<char>)
    requires
        0 <= position <= bytes.len(),
    ensures
        match text_from(bytes, position, text) {
            Ok((_, next)) => position < next <= bytes.len(),
            Err((offset, message)) => 0 <= offset <= bytes.len() && message.len() > 0,
        },
    decreases bytes.len() - position,
{
    lemma_messages_are_not_empty();
    if position < bytes.len() {
        let byte = bytes[position];
        let width = character_width(byte);
        if byte == 0x22 {
        } else if byte == 0x5c {
            lemma_escape_advances(bytes, position + 1);
            if position + 1 < bytes.len() && bytes[position + 1] == 0x75 {
                lemma_hex_outcome(bytes, position + 2, position + 2, 4, 0);
                if position + 8 <= bytes.len() {
                    lemma_hex_outcome(bytes, position + 8, position + 8, 4, 0);
                }
            }
            if let Ok((c, next)) = escape_at(bytes, position + 1) {
                lemma_text_outcome(bytes, next, text.push(c));
            }
        } else if byte < 0x20 {
        } else if byte < 0x80 {
            lemma_text_outcome(bytes, position + 1, text.push(byte as char));
        } else if width > 0 && position + width <= bytes.len() {
            let more = bytes.subrange(position, position + width);
            lemma_text_outcome(bytes, position + width, text + decode_utf8(more));
        }
    }
}

/// What holds of every value that is looked for.
pub proof fn lemma_value_outcome(bytes: Seq<u8>, position: int, depth: int)
    requires
        0 <= position <= bytes.len(),
    ensures
        sound_outcome(value_at(bytes, position, depth), bytes, position, MAX_DEPTH - depth),
    decreases bytes.len() - position, 0int,
{
    lemma_messages_are_not_empty();
    lemma_skip_space(bytes, position);
    let start = skip_space(bytes, position);
    if start < bytes.len() {
        let byte = bytes[start];
        let first = skip_space(bytes, start + 1);
        lemma_skip_space(bytes, start + 1);
        if byte == 0x22 {
            lemma_text_outcome(bytes, start + 1, Seq::empty());
        } else if (byte == 0x5b || byte == 0x7b) && depth >= MAX_DEPTH {
        } else if byte == 0x5b {
            if !byte_at(bytes, first, 0x5d) {
                lemma_items_outcome(bytes, first, depth + 1, Seq::empty());
            }
        } else if byte == 0x7b {
            if !byte_at(bytes, first, 0x7d) {
                lemma_members_outcome(bytes, first, depth + 1, Seq::empty());
            }
        } else if byte == 0x2d || 0x30 <= byte <= 0x39 {
            lemma_number_outcome(bytes, start);
        }
    }
}

proof fn lemma_items_outcome(bytes: Seq<u8>, position: int, depth: int, items: Seq<Model>)
    requires
        0 <= position <= bytes.len(),
        depth <= MAX_DEPTH,
        forall|i: int|
            0 <= i < items.len() ==> nests_within(#[trigger] items[i], MAX_DEPTH - depth),
    ensures
        sound_outcome(
            items_at(bytes, position, depth, items),
            bytes,
            position,
            MAX_DEPTH - depth + 1,
        ),
    decreases bytes.len() - position, 1int,
{
    lemma_messages_are_not_empty();
    lemma_value_outcome(bytes, position, depth);
    if let Ok((value, next)) = value_at(bytes, position, depth) {
        let after = skip_space(bytes, next);
        let start = skip_space(bytes, after + 1);
        lemma_skip_space(bytes, next);
        lemma_skip_space(bytes, after + 1);
        if byte_at(bytes, after, 0x2c) && !byte_at(bytes, start, 0x5d) {
            lemma_items_outcome(bytes, start, depth, items.push(value));
        }
    }
}

proof fn lemma_members_outcome(
    bytes: Seq<u8>,
    position: int,
    depth: int,
    members: Seq<(Seq<char>, Model)>,
)
    requires
        0 <= position <= bytes.len(),
        depth <= MAX_DEPTH,
        forall|i: int|
            0 <= i < members.len() ==> nests_within((#[trigger] members[i]).1, MAX_DEPTH - depth),
    ensures
        sound_outcome(
            members_at(bytes, position, depth, members),
            bytes,
            position,
            MAX_DEPTH - depth + 1,
        ),
    decreases bytes.len() - position, 1int,
{
    lemma_messages_are_not_empty();
    if byte_at(bytes, position, 0x22) {
        lemma_text_outcome(bytes, position + 1, Seq::empty());
        if let Ok((key, key_end)) = string_at(bytes, position) {
            let colon = skip_space(bytes, key_end);
            lemma_skip_space(bytes, key_end);
            if byte_at(bytes, colon, 0x3a) {
                lemma_value_outcome(bytes, colon + 1, depth);
                if let Ok((value, next)) = value_at(bytes, colon + 1, depth) {
                    let after = skip_space(bytes, next);
                    let start = skip_space(bytes, after + 1);
                    lemma_skip_space(bytes, next);
                    lemma_skip_space(bytes, after + 1);
                    if byte_at(bytes, after, 0x2c) && !byte_at(bytes, start, 0x7d) {
                        lemma_members_outcome(bytes, start, depth, members.push((key, value)));
                    }
                }
            }
        }
    }
}

/// Every error names a byte of the text or its end, and says something.
pub proof fn law_errors_lie_in_the_text(bytes: Seq<u8>)
    ensures
        document(bytes) matches Err((offset, message)) ==> 0 <= offset <= bytes.len()
            && message.len() > 0,
{
    lemma_messages_are_not_empty();
    lemma_value_outcome(bytes, 0, 0);
    if let Ok((_, next)) = value_at(bytes, 0, 0) {
        lemma_skip_space(bytes, next);
    }
}

/// No accepted document nests more than `MAX_DEPTH` arrays and objects.
pub proof fn law_nesting_is_limited(bytes: Seq<u8>)
    ensures
        document(bytes) matches Ok(value) ==> nests_within(value, MAX_DEPTH as int),
{
    lemma_value_outcome(bytes, 0, 0);
}

} // verus!
