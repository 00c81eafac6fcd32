//! What holds of JSON texts that are put together from others.
//!
//! A value is read in the same way wherever its text stands, as long as what follows the text cannot
//! belong to a number.

use crate::json::{
    byte_at, digit_at, document, escape_at, exponent_end, fraction_end, hex_at, hex_digit, is_space,
    items_at, law_nesting_is_limited, lemma_escape_advances, lemma_skip_digits, lemma_skip_space,
    literal_at, low_surrogate_at, members_at, nests_within, number_at, number_end, skip_digits,
    skip_space, string_at, text_from, value_at, whole_end, character_width, lemma_value_outcome,
    lemma_text_outcome, Failure, Model, MAX_DEPTH,
};
use vstd::prelude::*;
use vstd::utf8::{encode_utf8, is_ascii_chars, is_ascii_chars_encode_utf8};

verus! {

/// Whether a byte can follow every value, or a key.
pub open spec fn is_end(byte: u8) -> bool {
    is_space(byte) || byte == 0x2c || byte == 0x3a || byte == 0x5d || byte == 0x7d
}

/// Whether a text stands within another from `start` on, and what follows it can follow every value.
pub open spec fn stands_in(part: Seq<u8>, whole: Seq<u8>, start: int) -> bool {
    &&& 0 <= start
    &&& start + part.len() <= whole.len()
    &&& forall|i: int| 0 <= i < part.len() ==> #[trigger] whole[start + i] == part[i]
    &&& start + part.len() == whole.len() || is_end(whole[start + part.len()])
}

proof fn lemma_byte_at(part: Seq<u8>, whole: Seq<u8>, start: int, position: int)
    requires
        stands_in(part, whole, start),
        0 <= position <= part.len(),
    ensures
        position < part.len() ==> whole[start + position] == part[position],
        forall|byte: u8|
            position < part.len() || !is_end(byte) ==> #[trigger] byte_at(
                whole,
                start + position,
                byte,
            ) == byte_at(part, position, byte),
        digit_at(whole, start + position) == digit_at(part, position),
{
    if position < part.len() {
        assert(whole[start + position] == part[position]);
    }
}

proof fn lemma_space_moves(part: Seq<u8>, whole: Seq<u8>, start: int, position: int)
    requires
        stands_in(part, whole, start),
        0 <= position <= part.len(),
        skip_space(part, position) < part.len(),
    ensures
        skip_space(whole, start + position) == start + skip_space(part, position),
    decreases part.len() - position,
{
    lemma_byte_at(part, whole, start, position);
    if position < part.len() && is_space(part[position]) {
        lemma_space_moves(part, whole, start, position + 1);
    }
}

proof fn lemma_space_run(bytes: Seq<u8>, position: int, end: int)
    requires
        0 <= position <= end <= bytes.len(),
        forall|i: int| position <= i < end ==> is_space(#[trigger] bytes[i]),
    ensures
        skip_space(bytes, position) == skip_space(bytes, end),
    decreases end - position,
{
    if position < end {
        lemma_space_run(bytes, position + 1, end);
    }
}

proof fn lemma_skipped_is_space(bytes: Seq<u8>, position: int)
    requires
        0 <= position,
    ensures
        forall|i: int|
            position <= i < skip_space(bytes, position) && i < bytes.len() ==> is_space(
                #[trigger] bytes[i],
            ),
        skip_space(bytes, position) < bytes.len() && position <= bytes.len() ==> !is_space(
            bytes[skip_space(bytes, position)],
        ),
    decreases bytes.len() - position,
{
    if position < bytes.len() && is_space(bytes[position]) {
        lemma_skipped_is_space(bytes, position + 1);
    }
}

/// White space at the end of a text reaches on to what follows the text.
proof fn lemma_space_reaches_on(part: Seq<u8>, whole: Seq<u8>, start: int, position: int)
    requires
        stands_in(part, whole, start),
        0 <= position <= part.len(),
        skip_space(part, position) == part.len(),
    ensures
        skip_space(whole, start + position) == skip_space(whole, start + part.len()),
{
    lemma_skipped_is_space(part, position);
    assert forall|i: int| start + position <= i < start + part.len() implies is_space(
        #[trigger] whole[i],
    ) by {
        assert(whole[start + (i - start)] == part[i - start]);
    }
    lemma_space_run(whole, start + position, start + part.len());
}

proof fn lemma_digits_move(part: Seq<u8>, whole: Seq<u8>, start: int, position: int)
    requires
        stands_in(part, whole, start),
        0 <= position <= part.len(),
    ensures
        skip_digits(whole, start + position) == start + skip_digits(part, position),
    decreases part.len() - position,
{
    lemma_byte_at(part, whole, start, position);
    if digit_at(part, position) {
        lemma_digits_move(part, whole, start, position + 1);
    }
}

proof fn lemma_number_moves(part: Seq<u8>, whole: Seq<u8>, start: int, position: int)
    requires
        stands_in(part, whole, start),
        0 <= position < part.len(),
        number_end(part, position) is Ok,
    ensures
        number_end(whole, start + position) == Ok::<int, Failure>(
            start + number_end(part, position)->Ok_0,
        ),
        number_end(part, position)->Ok_0 <= part.len(),
        position <= number_end(part, position)->Ok_0,
{
    lemma_byte_at(part, whole, start, position);
    let first = if byte_at(part, position, 0x2d) {
        position + 1
    } else {
        position
    };
    lemma_byte_at(part, whole, start, first);
    if first < part.len() {
        lemma_byte_at(part, whole, start, first + 1);
        lemma_digits_move(part, whole, start, first + 1);
        lemma_skip_digits(part, first + 1);
    }
    let whole_part = whole_end(part, first)->Ok_0;
    assert(whole_end(whole, start + first) == Ok::<int, Failure>(start + whole_part));
    lemma_byte_at(part, whole, start, whole_part);
    if whole_part < part.len() {
        lemma_digits_move(part, whole, start, whole_part + 1);
        lemma_skip_digits(part, whole_part + 1);
    }
    let fraction = fraction_end(part, whole_part)->Ok_0;
    assert(fraction_end(whole, start + whole_part) == Ok::<int, Failure>(start + fraction));
    lemma_byte_at(part, whole, start, fraction);
    if byte_at(part, fraction, 0x65) || byte_at(part, fraction, 0x45) {
        lemma_byte_at(part, whole, start, fraction + 1);
        let plus = if byte_at(part, fraction + 1, 0x2b) {
            fraction + 2
        } else {
            fraction + 1
        };
        lemma_byte_at(part, whole, start, plus);
        let digits = if byte_at(part, plus, 0x2d) {
            plus + 1
        } else {
            plus
        };
        lemma_digits_move(part, whole, start, digits);
        lemma_skip_digits(part, digits);
    }
    assert(exponent_end(whole, start + fraction) == Ok::<int, Failure>(
        start + exponent_end(part, fraction)->Ok_0,
    ));
}

proof fn lemma_hex_moves(
    part: Seq<u8>,
    whole: Seq<u8>,
    start: int,
    first: int,
    position: int,
    count: nat,
    value: int,
)
    requires
        stands_in(part, whole, start),
        0 <= position,
        hex_at(part, first, position, count, value) is Ok,
    ensures
        hex_at(whole, start + first, start + position, count, value) == hex_at(
            part,
            first,
            position,
            count,
            value,
        ),
    decreases count,
{
    if count > 0 {
        assert(whole[start + position] == part[position]);
        let digit = hex_digit(part[position])->0;
        lemma_hex_moves(
            part,
            whole,
            start,
            first,
            position + 1,
            (count - 1) as nat,
            value * 16 + digit,
        );
    }
}

proof fn lemma_escape_moves(part: Seq<u8>, whole: Seq<u8>, start: int, position: int)
    requires
        stands_in(part, whole, start),
        0 <= position,
        escape_at(part, position) is Ok,
    ensures
        escape_at(whole, start + position) == Ok::<(char, int), Failure>(
            (escape_at(part, position)->Ok_0.0, start + escape_at(part, position)->Ok_0.1),
        ),
{
    assert(whole[start + position] == part[position]);
    if part[position] == 0x75 {
        lemma_hex_moves(part, whole, start, position + 1, position + 1, 4, 0);
        let first = hex_at(part, position + 1, position + 1, 4, 0)->Ok_0;
        if 0xd800 <= first <= 0xdbff {
            let low = position + 5;
            assert(low_surrogate_at(part, low) is Ok);
            assert(whole[start + low] == part[low]);
            assert(whole[start + (low + 1)] == part[low + 1]);
            lemma_hex_moves(part, whole, start, low + 2, low + 2, 4, 0);
            assert(low_surrogate_at(whole, start + low) == low_surrogate_at(part, low));
        }
    }
}

proof fn lemma_text_moves(
    part: Seq<u8>,
    whole: Seq<u8>,
    start: int,
    position: int,
    text: Seq<char>,
)
    requires
        stands_in(part, whole, start),
        0 <= position,
        text_from(part, position, text) is Ok,
    ensures
        text_from(whole, start + position, text) == Ok::<(Seq<char>, int), Failure>(
            (
                text_from(part, position, text)->Ok_0.0,
                start + text_from(part, position, text)->Ok_0.1,
            ),
        ),
    decreases part.len() - position,
{
    assert(whole[start + position] == part[position]);
    let byte = part[position];
    let width = character_width(byte);
    if byte == 0x22 {
    } else if byte == 0x5c {
        lemma_escape_advances(part, position + 1);
        lemma_escape_moves(part, whole, start, position + 1);
        let (c, next) = escape_at(part, position + 1)->Ok_0;
        lemma_text_moves(part, whole, start, next, text.push(c));
    } else if byte < 0x80 {
        lemma_text_moves(part, whole, start, position + 1, text.push(byte as char));
    } else {
        let more = part.subrange(position, position + width);
        assert(whole.subrange(start + position, start + position + width) =~= more) by {
            assert forall|i: int| 0 <= i < width implies whole.subrange(
                start + position,
                start + position + width,
            )[i] == #[trigger] more[i] by {
                assert(whole[start + (position + i)] == part[position + i]);
            }
        }
        lemma_text_moves(
            part,
            whole,
            start,
            position + width,
            text + vstd::utf8::decode_utf8(more),
        );
    }
}

proof fn lemma_range_moves(part: Seq<u8>, whole: Seq<u8>, start: int, from: int, to: int)
    requires
        stands_in(part, whole, start),
        0 <= from <= to <= part.len(),
    ensures
        whole.subrange(start + from, start + to) == part.subrange(from, to),
{
    assert forall|i: int| 0 <= i < to - from implies whole.subrange(start + from, start + to)[i]
        == #[trigger] part.subrange(from, to)[i] by {
        assert(whole[start + (from + i)] == part[from + i]);
    }
    assert(whole.subrange(start + from, start + to) =~= part.subrange(from, to));
}

proof fn lemma_literal_moves(
    part: Seq<u8>,
    whole: Seq<u8>,
    start: int,
    position: int,
    word: Seq<u8>,
    value: Model,
)
    requires
        stands_in(part, whole, start),
        0 <= position <= part.len(),
        literal_at(part, position, word, value) is Ok,
    ensures
        literal_at(whole, start + position, word, value) == Ok::<(Model, int), Failure>(
            (value, start + position + word.len()),
        ),
{
    lemma_range_moves(part, whole, start, position, position + word.len());
}

/// What is read before comes first in the array.
proof fn lemma_items_come_first(part: Seq<u8>, position: int, depth: int, items: Seq<Model>)
    ensures
        items_at(part, position, depth, items) matches Ok((Model::Array(all), _)) ==> items.len()
            <= all.len() && forall|i: int|
            0 <= i < items.len() ==> #[trigger] all[i] == items[i],
        items_at(part, position, depth, items) matches Ok((model, _)) ==> model is Array,
    decreases part.len() - position,
{
    if let Ok((value, next)) = value_at(part, position, depth) {
        let after = skip_space(part, next);
        let begin = skip_space(part, after + 1);
        if byte_at(part, after, 0x2c) && !byte_at(part, begin, 0x5d) && position < begin
            <= part.len() {
            lemma_items_come_first(part, begin, depth, items.push(value));
            if let Ok((Model::Array(all), _)) = items_at(part, begin, depth, items.push(value)) {
                assert forall|i: int| 0 <= i < items.len() implies #[trigger] all[i] == items[i] by {
                    assert(items.push(value)[i] == items[i]);
                }
            }
        }
    }
}

/// What is read before comes first in the object.
proof fn lemma_members_come_first(
    part: Seq<u8>,
    position: int,
    depth: int,
    members: Seq<(Seq<char>, Model)>,
)
    ensures
        members_at(part, position, depth, members) matches Ok((Model::Object(all), _))
            ==> members.len() <= all.len() && forall|i: int|
            0 <= i < members.len() ==> #[trigger] all[i] == members[i],
        members_at(part, position, depth, members) matches Ok((model, _)) ==> model is Object,
    decreases part.len() - position,
{
    if let Ok((key, key_end)) = string_at(part, position) {
        let colon = skip_space(part, key_end);
        if let Ok((value, next)) = value_at(part, colon + 1, depth) {
            let after = skip_space(part, next);
            let begin = skip_space(part, after + 1);
            if byte_at(part, position, 0x22) && byte_at(part, colon, 0x3a) && position < colon
                && byte_at(part, after, 0x2c) && !byte_at(part, begin, 0x7d) && position < begin
                <= part.len() {
                let longer = members.push((key, value));
                lemma_members_come_first(part, begin, depth, longer);
                if let Ok((Model::Object(all), _)) = members_at(part, begin, depth, longer) {
                    assert forall|i: int|
                        0 <= i < members.len() implies #[trigger] all[i] == members[i] by {
                        assert(longer[i] == members[i]);
                    }
                }
            }
        }
    }
}

/// A value is read in the same way wherever its text stands, if there is room for its nesting.
proof fn lemma_value_moves(
    part: Seq<u8>,
    whole: Seq<u8>,
    start: int,
    position: int,
    depth: int,
    other: int,
)
    requires
        stands_in(part, whole, start),
        0 <= position <= part.len(),
        value_at(part, position, depth) is Ok,
        nests_within(value_at(part, position, depth)->Ok_0.0, MAX_DEPTH - other),
    ensures
        value_at(whole, start + position, other) == Ok::<(Model, int), Failure>(
            (
                value_at(part, position, depth)->Ok_0.0,
                start + value_at(part, position, depth)->Ok_0.1,
            ),
        ),
    decreases part.len() - position, 0int,
{
    lemma_skip_space(part, position);
    lemma_space_moves(part, whole, start, position);
    let begin = skip_space(part, position);
    assert(whole[start + begin] == part[begin]);
    let byte = part[begin];
    lemma_skip_space(part, begin + 1);
    let first = skip_space(part, begin + 1);
    if byte == 0x6e {
        lemma_literal_moves(
            part,
            whole,
            start,
            begin,
            seq![0x6eu8, 0x75, 0x6c, 0x6c],
            Model::Null,
        );
    } else if byte == 0x74 {
        lemma_literal_moves(
            part,
            whole,
            start,
            begin,
            seq![0x74u8, 0x72, 0x75, 0x65],
            Model::Bool(true),
        );
    } else if byte == 0x66 {
        lemma_literal_moves(
            part,
            whole,
            start,
            begin,
            seq![0x66u8, 0x61, 0x6c, 0x73, 0x65],
            Model::Bool(false),
        );
    } else if byte == 0x22 {
        lemma_text_moves(part, whole, start, begin + 1, Seq::empty());
    } else if byte == 0x5b {
        if byte_at(part, first, 0x5d) {
            lemma_space_moves(part, whole, start, begin + 1);
            lemma_byte_at(part, whole, start, first);
        } else {
            lemma_items_come_first(part, first, depth + 1, Seq::empty());
            lemma_first_is_inside(part, begin + 1, depth + 1);
            lemma_space_moves(part, whole, start, begin + 1);
            lemma_byte_at(part, whole, start, first);
            lemma_items_move(part, whole, start, first, depth + 1, other + 1, Seq::empty());
        }
    } else if byte == 0x7b {
        if byte_at(part, first, 0x7d) {
            lemma_space_moves(part, whole, start, begin + 1);
            lemma_byte_at(part, whole, start, first);
        } else {
            lemma_members_come_first(part, first, depth + 1, Seq::empty());
            lemma_space_moves(part, whole, start, begin + 1);
            lemma_byte_at(part, whole, start, first);
            lemma_members_move(part, whole, start, first, depth + 1, other + 1, Seq::empty());
        }
    } else {
        lemma_number_moves(part, whole, start, begin);
        let end = number_end(part, begin)->Ok_0;
        lemma_range_moves(part, whole, start, begin, end);
        assert(number_at(whole, start + begin) == Ok::<(crate::float::Float64, int), Failure>(
            (number_at(part, begin)->Ok_0.0, start + end),
        ));
    }
}

/// A value that follows white space begins inside the text.
proof fn lemma_first_is_inside(part: Seq<u8>, position: int, depth: int)
    requires
        0 <= position <= part.len(),
        value_at(part, skip_space(part, position), depth) is Ok,
    ensures
        skip_space(part, position) < part.len(),
{
    lemma_skip_space(part, position);
    lemma_skip_space(part, skip_space(part, position));
}

proof fn lemma_items_move(
    part: Seq<u8>,
    whole: Seq<u8>,
    start: int,
    position: int,
    depth: int,
    other: int,
    items: Seq<Model>,
)
    requires
        stands_in(part, whole, start),
        0 <= position <= part.len(),
        items_at(part, position, depth, items) is Ok,
        nests_within(items_at(part, position, depth, items)->Ok_0.0, MAX_DEPTH - other + 1),
    ensures
        items_at(whole, start + position, other, items) == Ok::<(Model, int), Failure>(
            (
                items_at(part, position, depth, items)->Ok_0.0,
                start + items_at(part, position, depth, items)->Ok_0.1,
            ),
        ),
    decreases part.len() - position, 1int,
{
    let (value, next) = value_at(part, position, depth)->Ok_0;
    let after = skip_space(part, next);
    let begin = skip_space(part, after + 1);
    let longer = items.push(value);
    lemma_value_outcome(part, position, depth);
    lemma_skip_space(part, next);
    if !byte_at(part, after, 0x5d) {
        lemma_items_come_first(part, begin, depth, longer);
    }
    let model = items_at(part, position, depth, items)->Ok_0.0;
    assert(model is Array);
    assert(model->Array_0[items.len() as int] == value) by {
        assert(longer[items.len() as int] == value);
    }
    lemma_value_moves(part, whole, start, position, depth, other);
    lemma_space_moves(part, whole, start, next);
    lemma_byte_at(part, whole, start, after);
    if !byte_at(part, after, 0x5d) {
        lemma_skip_space(part, after + 1);
        lemma_first_is_inside(part, after + 1, depth);
        lemma_space_moves(part, whole, start, after + 1);
        lemma_byte_at(part, whole, start, begin);
        lemma_items_move(part, whole, start, begin, depth, other, longer);
    }
}

proof fn lemma_members_move(
    part: Seq<u8>,
    whole: Seq<u8>,
    start: int,
    position: int,
    depth: int,
    other: int,
    members: Seq<(Seq<char>, Model)>,
)
    requires
        stands_in(part, whole, start),
        0 <= position <= part.len(),
        members_at(part, position, depth, members) is Ok,
        nests_within(members_at(part, position, depth, members)->Ok_0.0, MAX_DEPTH - other + 1),
    ensures
        members_at(whole, start + position, other, members) == Ok::<(Model, int), Failure>(
            (
                members_at(part, position, depth, members)->Ok_0.0,
                start + members_at(part, position, depth, members)->Ok_0.1,
            ),
        ),
    decreases part.len() - position, 1int,
{
    lemma_byte_at(part, whole, start, position);
    lemma_text_outcome(part, position + 1, Seq::empty());
    lemma_text_moves(part, whole, start, position + 1, Seq::empty());
    let (key, key_end) = string_at(part, position)->Ok_0;
    let colon = skip_space(part, key_end);
    lemma_skip_space(part, key_end);
    lemma_space_moves(part, whole, start, key_end);
    lemma_byte_at(part, whole, start, colon);
    let (value, next) = value_at(part, colon + 1, depth)->Ok_0;
    let after = skip_space(part, next);
    let begin = skip_space(part, after + 1);
    let longer = members.push((key, value));
    lemma_value_outcome(part, colon + 1, depth);
    lemma_skip_space(part, next);
    if !byte_at(part, after, 0x7d) {
        lemma_members_come_first(part, begin, depth, longer);
    }
    let model = members_at(part, position, depth, members)->Ok_0.0;
    assert(model is Object);
    assert(model->Object_0[members.len() as int] == (key, value)) by {
        assert(longer[members.len() as int] == (key, value));
    }
    assert(nests_within(model->Object_0[members.len() as int].1, MAX_DEPTH - other));
    lemma_value_moves(part, whole, start, colon + 1, depth, other);
    lemma_space_moves(part, whole, start, next);
    lemma_byte_at(part, whole, start, after);
    if !byte_at(part, after, 0x7d) {
        lemma_skip_space(part, after + 1);
        assert(byte_at(part, begin, 0x22));
        lemma_space_moves(part, whole, start, after + 1);
        lemma_byte_at(part, whole, start, begin);
        lemma_members_move(part, whole, start, begin, depth, other, longer);
    }
}

/// The encoding of a text is that of its parts.
pub proof fn lemma_encoding_of_parts(first: Seq<char>, second: Seq<char>)
    ensures
        encode_utf8(first + second) == encode_utf8(first) + encode_utf8(second),
    decreases first.len(),
{
    if first.len() == 0 {
        assert(first + second =~= second);
        assert(encode_utf8(first) + encode_utf8(second) =~= encode_utf8(second));
    } else {
        lemma_encoding_of_parts(first.drop_first(), second);
        assert((first + second).drop_first() =~= first.drop_first() + second);
        let head = vstd::utf8::encode_scalar(first[0] as u32);
        assert(head + (encode_utf8(first.drop_first()) + encode_utf8(second)) =~= (head
            + encode_utf8(first.drop_first())) + encode_utf8(second));
    }
}

/// The encoding of an ASCII character is one byte.
proof fn lemma_encoding_of_character(c: char)
    requires
        c <= '\u{7f}',
    ensures
        encode_utf8(seq![c]) == seq![c as u8],
{
    assert(is_ascii_chars(seq![c]));
    is_ascii_chars_encode_utf8(seq![c]);
    assert(seq![c][0] as u8 == encode_utf8(seq![c])[0]);
    assert(encode_utf8(seq![c]) =~= seq![c as u8]);
}

/// Where a value begins matters only up to white space.
proof fn lemma_value_skips_space(bytes: Seq<u8>, first: int, second: int, depth: int)
    requires
        skip_space(bytes, first) == skip_space(bytes, second),
    ensures
        value_at(bytes, first, depth) == value_at(bytes, second, depth),
{
}

/// A whole document that stands in a text is read there too, from its start or from its first
/// character that is no white space, up to its end.
proof fn lemma_document_moves(part: Seq<u8>, whole: Seq<u8>, start: int, depth: int)
    requires
        stands_in(part, whole, start),
        document(part) is Ok,
        nests_within(document(part)->Ok_0, MAX_DEPTH - depth),
    ensures
        ({
            let first = start + skip_space(part, 0);
            &&& skip_space(whole, start) == first
            &&& start <= first < start + part.len()
            &&& !is_end(whole[first])
            &&& value_at(whole, first, depth) matches Ok((value, next)) && value == document(
                part,
            )->Ok_0 && first < next <= start + part.len() && skip_space(whole, next) == skip_space(
                whole,
                start + part.len(),
            )
        }),
{
    let (value, next) = value_at(part, 0, 0)->Ok_0;
    lemma_value_outcome(part, 0, 0);
    lemma_skip_space(part, 0);
    lemma_skip_space(part, next);
    lemma_skipped_is_space(part, 0);
    let first = skip_space(part, 0);
    lemma_space_moves(part, whole, start, 0);
    lemma_byte_at(part, whole, start, first);
    lemma_value_moves(part, whole, start, 0, 0, depth);
    lemma_space_run(part, first, first);
    assert(skip_space(whole, start + first) == start + first) by {
        assert(!is_space(whole[start + first]));
    }
    lemma_value_skips_space(whole, start, start + first, depth);
    lemma_space_reaches_on(part, whole, start, next);
    assert(skip_space(part, first) == first);
    lemma_value_skips_space(part, 0, first, 0);
    lemma_value_outcome(part, first, 0);
}

/// Whether a character is white space between the parts of a document.
pub open spec fn is_blank(c: char) -> bool {
    c == ' ' || c == '\n' || c == '\r' || c == '\t'
}

proof fn lemma_blanks_are_space(blanks: Seq<char>)
    requires
        forall|i: int| 0 <= i < blanks.len() ==> is_blank(#[trigger] blanks[i]),
    ensures
        forall|i: int|
            0 <= i < encode_utf8(blanks).len() ==> is_space(#[trigger] encode_utf8(blanks)[i]),
{
    assert(is_ascii_chars(blanks));
    is_ascii_chars_encode_utf8(blanks);
    assert forall|i: int| 0 <= i < encode_utf8(blanks).len() implies is_space(
        #[trigger] encode_utf8(blanks)[i],
    ) by {
        assert(is_blank(blanks[i]));
        assert(blanks[i] as u8 == encode_utf8(blanks)[i]);
    }
}

/// White space around a document changes nothing.
pub proof fn law_white_space_around_changes_nothing(
    before: Seq<char>,
    source: Seq<char>,
    after: Seq<char>,
)
    requires
        forall|i: int| 0 <= i < before.len() ==> is_blank(#[trigger] before[i]),
        forall|i: int| 0 <= i < after.len() ==> is_blank(#[trigger] after[i]),
        document(encode_utf8(source)) is Ok,
    ensures
        document(encode_utf8(before + source + after)) == document(encode_utf8(source)),
{
    let head = encode_utf8(before);
    let part = encode_utf8(source);
    let tail = encode_utf8(after);
    let whole = encode_utf8(before + source + after);
    lemma_encoding_of_parts(before + source, after);
    lemma_encoding_of_parts(before, source);
    assert(whole =~= head + part + tail);
    lemma_blanks_are_space(before);
    lemma_blanks_are_space(after);
    let start = head.len() as int;
    let end = start + part.len();
    assert forall|i: int| 0 <= i < start implies is_space(#[trigger] whole[i]) by {
        assert(whole[i] == head[i]);
    }
    assert forall|i: int| end <= i < whole.len() implies is_space(#[trigger] whole[i]) by {
        assert(whole[i] == tail[i - end]);
    }
    assert(stands_in(part, whole, start));
    law_nesting_is_limited(part);
    lemma_document_moves(part, whole, start, 0);
    lemma_space_run(whole, 0, start);
    let first = start + skip_space(part, 0);
    assert(skip_space(whole, first) == first) by {
        assert(!is_space(whole[first]));
    }
    lemma_value_skips_space(whole, 0, first, 0);
    lemma_space_run(whole, end, whole.len() as int);
}

/// Parts one after the other, with commas between them.
pub open spec fn with_commas<T>(parts: Seq<Seq<T>>, comma: T) -> Seq<T>
    decreases parts.len(),
{
    if parts.len() == 0 {
        Seq::empty()
    } else if parts.len() == 1 {
        parts[0]
    } else {
        parts[0] + seq![comma] + with_commas(parts.drop_first(), comma)
    }
}

/// The encodings of texts.
pub open spec fn encodings(sources: Seq<Seq<char>>) -> Seq<Seq<u8>> {
    Seq::new(sources.len(), |i: int| encode_utf8(sources[i]))
}

/// Whether every part is a document that leaves room for one more level.
pub open spec fn all_fit(parts: Seq<Seq<u8>>) -> bool {
    forall|i: int|
        0 <= i < parts.len() ==> document(#[trigger] parts[i]) is Ok && nests_within(
            document(parts[i])->Ok_0,
            MAX_DEPTH - 1,
        )
}

/// The values of documents.
pub open spec fn values_of(parts: Seq<Seq<u8>>) -> Seq<Model> {
    Seq::new(parts.len(), |i: int| document(parts[i])->Ok_0)
}

/// Whether some bytes stand within others from `start` on.
spec fn lies_in(part: Seq<u8>, whole: Seq<u8>, start: int) -> bool {
    &&& 0 <= start
    &&& start + part.len() <= whole.len()
    &&& forall|i: int| 0 <= i < part.len() ==> #[trigger] whole[start + i] == part[i]
}

proof fn lemma_encoding_with_commas(sources: Seq<Seq<char>>)
    ensures
        encode_utf8(with_commas(sources, ',')) == with_commas(encodings(sources), 0x2cu8),
    decreases sources.len(),
{
    if sources.len() > 1 {
        let rest = sources.drop_first();
        lemma_encoding_with_commas(rest);
        lemma_encoding_of_parts(sources[0] + seq![','], with_commas(rest, ','));
        lemma_encoding_of_parts(sources[0], seq![',']);
        lemma_encoding_of_character(',');
        assert(encodings(sources).drop_first() =~= encodings(rest));
    } else if sources.len() == 0 {
        assert(encode_utf8(Seq::<char>::empty()) =~= Seq::empty());
    }
}

/// The first of several parts lies at the start, and the others after a comma.
proof fn lemma_first_part(parts: Seq<Seq<u8>>, whole: Seq<u8>, start: int)
    requires
        parts.len() > 1,
        lies_in(with_commas(parts, 0x2cu8), whole, start),
    ensures
        lies_in(parts[0], whole, start),
        whole[start + parts[0].len()] == 0x2c,
        lies_in(
            with_commas(parts.drop_first(), 0x2cu8),
            whole,
            start + parts[0].len() + 1,
        ),
        with_commas(parts, 0x2cu8).len() == parts[0].len() + 1 + with_commas(
            parts.drop_first(),
            0x2cu8,
        ).len(),
{
    let body = with_commas(parts, 0x2cu8);
    let first = parts[0];
    let rest = with_commas(parts.drop_first(), 0x2cu8);
    let comma = first.len() as int;
    assert(body == first + seq![0x2cu8] + rest);
    assert forall|i: int| 0 <= i < first.len() implies #[trigger] whole[start + i] == first[i] by {
        assert(whole[start + i] == body[i]);
    }
    assert(whole[start + comma] == body[comma]);
    let after = start + comma + 1;
    assert forall|i: int| 0 <= i < rest.len() implies #[trigger] whole[after + i] == rest[i] by {
        assert(whole[start + (comma + 1 + i)] == body[comma + 1 + i]);
    }
}

/// Documents with commas between them and a bracket after them are read as the items of a list.
proof fn lemma_items_of(whole: Seq<u8>, start: int, parts: Seq<Seq<u8>>, items: Seq<Model>)
    requires
        parts.len() > 0,
        all_fit(parts),
        lies_in(with_commas(parts, 0x2cu8), whole, start),
        start + with_commas(parts, 0x2cu8).len() < whole.len(),
        whole[start + with_commas(parts, 0x2cu8).len()] == 0x5d,
    ensures
        start <= skip_space(whole, start) < whole.len(),
        !is_end(whole[skip_space(whole, start)]),
        items_at(whole, skip_space(whole, start), 1, items) == Ok::<(Model, int), Failure>(
            (
                Model::Array(items + values_of(parts)),
                start + with_commas(parts, 0x2cu8).len() + 1,
            ),
        ),
    decreases parts.len(),
{
    let first = parts[0];
    let value = document(first)->Ok_0;
    let end = start + first.len();
    if parts.len() == 1 {
        lemma_document_moves(first, whole, start, 1);
        assert(skip_space(whole, end) == end);
        assert(items.push(value) =~= items + values_of(parts));
    } else {
        let rest = parts.drop_first();
        lemma_first_part(parts, whole, start);
        assert(all_fit(rest)) by {
            assert forall|i: int| 0 <= i < rest.len() implies document(#[trigger] rest[i]) is Ok
                && nests_within(document(rest[i])->Ok_0, MAX_DEPTH - 1) by {
                assert(rest[i] == parts[i + 1]);
            }
        }
        lemma_document_moves(first, whole, start, 1);
        lemma_items_of(whole, end + 1, rest, items.push(value));
        assert(skip_space(whole, end) == end);
        assert(items.push(value) + values_of(rest) =~= items + values_of(parts));
    }
}

/// A list of documents is accepted, with their values, if there is room for one more level.
pub proof fn law_lists_hold_their_items(sources: Seq<Seq<char>>)
    requires
        all_fit(encodings(sources)),
    ensures
        document(encode_utf8(seq!['['] + with_commas(sources, ',') + seq![']'])) == Ok::<
            Model,
            Failure,
        >(Model::Array(values_of(encodings(sources)))),
{
    let parts = encodings(sources);
    let body = with_commas(parts, 0x2cu8);
    let whole = encode_utf8(seq!['['] + with_commas(sources, ',') + seq![']']);
    lemma_encoding_of_parts(seq!['['] + with_commas(sources, ','), seq![']']);
    lemma_encoding_of_parts(seq!['['], with_commas(sources, ','));
    lemma_encoding_with_commas(sources);
    lemma_encoding_of_character('[');
    lemma_encoding_of_character(']');
    assert(whole =~= seq![0x5bu8] + body + seq![0x5du8]);
    let close = 1 + body.len() as int;
    assert(whole[0] == 0x5b && whole[close] == 0x5d);
    assert(skip_space(whole, 0) == 0);
    assert(skip_space(whole, close) == close);
    assert(skip_space(whole, close + 1) == close + 1);
    if sources.len() == 0 {
        assert(values_of(parts) =~= Seq::empty());
    } else {
        assert forall|i: int| 0 <= i < body.len() implies #[trigger] whole[1 + i] == body[i] by {}
        lemma_items_of(whole, 1, parts, Seq::empty());
        assert(Seq::empty() + values_of(parts) =~= values_of(parts));
    }
}

/// Documents with a comma after the last of them are not read as the items of a list.
proof fn lemma_items_and_comma(whole: Seq<u8>, start: int, parts: Seq<Seq<u8>>, items: Seq<Model>)
    requires
        parts.len() > 0,
        all_fit(parts),
        lies_in(with_commas(parts, 0x2cu8), whole, start),
        start + with_commas(parts, 0x2cu8).len() + 1 < whole.len(),
        whole[start + with_commas(parts, 0x2cu8).len()] == 0x2c,
        whole[start + with_commas(parts, 0x2cu8).len() + 1] == 0x5d,
    ensures
        start <= skip_space(whole, start) < whole.len(),
        !is_end(whole[skip_space(whole, start)]),
        items_at(whole, skip_space(whole, start), 1, items) is Err,
    decreases parts.len(),
{
    let first = parts[0];
    let value = document(first)->Ok_0;
    let end = start + first.len();
    if parts.len() == 1 {
        lemma_document_moves(first, whole, start, 1);
        assert(skip_space(whole, end) == end);
        assert(skip_space(whole, end + 1) == end + 1);
    } else {
        let rest = parts.drop_first();
        lemma_first_part(parts, whole, start);
        assert(all_fit(rest)) by {
            assert forall|i: int| 0 <= i < rest.len() implies document(#[trigger] rest[i]) is Ok
                && nests_within(document(rest[i])->Ok_0, MAX_DEPTH - 1) by {
                assert(rest[i] == parts[i + 1]);
            }
        }
        lemma_document_moves(first, whole, start, 1);
        lemma_items_and_comma(whole, end + 1, rest, items.push(value));
        assert(skip_space(whole, end) == end);
    }
}

/// A comma after the last item of a list is refused.
pub proof fn law_trailing_commas_are_refused(sources: Seq<Seq<char>>)
    requires
        sources.len() > 0,
        all_fit(encodings(sources)),
    ensures
        document(encode_utf8(seq!['['] + with_commas(sources, ',') + seq![',', ']'])) is Err,
{
    let parts = encodings(sources);
    let body = with_commas(parts, 0x2cu8);
    let whole = encode_utf8(seq!['['] + with_commas(sources, ',') + seq![',', ']']);
    lemma_encoding_of_parts(seq!['['] + with_commas(sources, ','), seq![',', ']']);
    lemma_encoding_of_parts(seq!['['], with_commas(sources, ','));
    lemma_encoding_of_parts(seq![','], seq![']']);
    lemma_encoding_with_commas(sources);
    assert(seq![','] + seq![']'] =~= seq![',', ']']);
    lemma_encoding_of_character('[');
    lemma_encoding_of_character(',');
    lemma_encoding_of_character(']');
    assert(whole =~= seq![0x5bu8] + body + seq![0x2cu8] + seq![0x5du8]);
    let comma = 1 + body.len() as int;
    assert(whole[0] == 0x5b && whole[comma] == 0x2c && whole[comma + 1] == 0x5d);
    assert forall|i: int| 0 <= i < body.len() implies #[trigger] whole[1 + i] == body[i] by {}
    lemma_items_and_comma(whole, 1, parts, Seq::empty());
    assert(skip_space(whole, 0) == 0);
}

/// The text of a member: its key, a colon and its value.
pub open spec fn member_source(member: (Seq<char>, Seq<char>)) -> Seq<char> {
    member.0 + seq![':'] + member.1
}

/// The texts of members.
pub open spec fn member_sources(members: Seq<(Seq<char>, Seq<char>)>) -> Seq<Seq<char>> {
    Seq::new(members.len(), |i: int| member_source(members[i]))
}

/// The encoding of a member: its key, a colon and its value.
spec fn member_part(member: (Seq<u8>, Seq<u8>)) -> Seq<u8> {
    member.0 + seq![0x3au8] + member.1
}

spec fn member_parts(members: Seq<(Seq<u8>, Seq<u8>)>) -> Seq<Seq<u8>> {
    Seq::new(members.len(), |i: int| member_part(members[i]))
}

/// The encodings of the keys and values of members.
pub open spec fn member_encodings(members: Seq<(Seq<char>, Seq<char>)>) -> Seq<(Seq<u8>, Seq<u8>)> {
    Seq::new(members.len(), |i: int| (encode_utf8(members[i].0), encode_utf8(members[i].1)))
}

/// Whether every key is a string, and every value a document that leaves room for one more level.
pub open spec fn members_fit(members: Seq<(Seq<u8>, Seq<u8>)>) -> bool {
    forall|i: int|
        0 <= i < members.len() ==> {
            &&& document((#[trigger] members[i]).0) is Ok
            &&& document(members[i].0)->Ok_0 is Text
            &&& document(members[i].1) is Ok
            &&& nests_within(document(members[i].1)->Ok_0, MAX_DEPTH - 1)
        }
}

/// The keys and values of members.
pub open spec fn pairs_of(members: Seq<(Seq<u8>, Seq<u8>)>) -> Seq<(Seq<char>, Model)> {
    Seq::new(
        members.len(),
        |i: int| (document(members[i].0)->Ok_0->Text_0, document(members[i].1)->Ok_0),
    )
}

/// Only a string is read as a text.
proof fn lemma_texts_are_quoted(bytes: Seq<u8>, position: int, depth: int)
    requires
        0 <= position < bytes.len(),
        !is_space(bytes[position]),
        value_at(bytes, position, depth) is Ok,
        value_at(bytes, position, depth)->Ok_0.0 is Text,
    ensures
        bytes[position] == 0x22,
        string_at(bytes, position) == Ok::<(Seq<char>, int), Failure>(
            (
                value_at(bytes, position, depth)->Ok_0.0->Text_0,
                value_at(bytes, position, depth)->Ok_0.1,
            ),
        ),
{
    assert(skip_space(bytes, position) == position);
    let first = skip_space(bytes, position + 1);
    if bytes[position] == 0x5b && depth < MAX_DEPTH && !byte_at(bytes, first, 0x5d) {
        lemma_items_come_first(bytes, first, depth + 1, Seq::empty());
    }
    if bytes[position] == 0x7b && depth < MAX_DEPTH && !byte_at(bytes, first, 0x7d) {
        lemma_members_come_first(bytes, first, depth + 1, Seq::empty());
    }
}

/// One member, up to what follows it.
proof fn lemma_member_of(whole: Seq<u8>, start: int, member: (Seq<u8>, Seq<u8>))
    requires
        members_fit(seq![member]),
        lies_in(member_part(member), whole, start),
        start + member_part(member).len() < whole.len(),
        is_end(whole[start + member_part(member).len()]),
    ensures
        ({
            let key = skip_space(whole, start);
            let colon = start + member.0.len();
            let end = start + member_part(member).len();
            &&& start <= key < colon
            &&& whole[key] == 0x22
            &&& string_at(whole, key) matches Ok((text, key_end)) && text == document(
                member.0,
            )->Ok_0->Text_0 && skip_space(whole, key_end) == colon
            &&& whole[colon] == 0x3a
            &&& value_at(whole, colon + 1, 1) matches Ok((value, next)) && value == document(
                member.1,
            )->Ok_0 && skip_space(whole, next) == skip_space(whole, end)
        }),
{
    let text = member_part(member);
    let colon = start + member.0.len();
    assert(seq![member][0] == member);
    assert forall|i: int| 0 <= i < member.0.len() implies #[trigger] whole[start + i]
        == member.0[i] by {
        assert(whole[start + i] == text[i]);
    }
    assert(whole[colon] == text[member.0.len() as int]);
    assert forall|i: int| 0 <= i < member.1.len() implies #[trigger] whole[colon + 1 + i]
        == member.1[i] by {
        assert(whole[start + (member.0.len() + 1 + i)] == text[member.0.len() + 1 + i]);
    }
    lemma_document_moves(member.0, whole, start, 1);
    let key = skip_space(whole, start);
    lemma_texts_are_quoted(whole, key, 1);
    assert(skip_space(whole, colon) == colon);
    lemma_document_moves(member.1, whole, colon + 1, 1);
    let first = skip_space(whole, colon + 1);
    assert(skip_space(whole, first) == first) by {
        assert(!is_space(whole[first]));
    }
    lemma_value_skips_space(whole, colon + 1, first, 1);
}

/// Members with commas between them and a brace after them are read as those of an object.
proof fn lemma_members_of(
    whole: Seq<u8>,
    start: int,
    members: Seq<(Seq<u8>, Seq<u8>)>,
    found: Seq<(Seq<char>, Model)>,
)
    requires
        members.len() > 0,
        members_fit(members),
        lies_in(with_commas(member_parts(members), 0x2cu8), whole, start),
        start + with_commas(member_parts(members), 0x2cu8).len() < whole.len(),
        whole[start + with_commas(member_parts(members), 0x2cu8).len()] == 0x7d,
    ensures
        start <= skip_space(whole, start) < whole.len(),
        whole[skip_space(whole, start)] == 0x22,
        members_at(whole, skip_space(whole, start), 1, found) == Ok::<(Model, int), Failure>(
            (
                Model::Object(found + pairs_of(members)),
                start + with_commas(member_parts(members), 0x2cu8).len() + 1,
            ),
        ),
    decreases members.len(),
{
    let member = members[0];
    let parts = member_parts(members);
    let pair = (document(member.0)->Ok_0->Text_0, document(member.1)->Ok_0);
    let end = start + parts[0].len();
    assert(members_fit(seq![member]));
    if members.len() == 1 {
        lemma_member_of(whole, start, member);
        assert(skip_space(whole, end) == end);
        assert(found.push(pair) =~= found + pairs_of(members));
    } else {
        let rest = members.drop_first();
        lemma_first_part(parts, whole, start);
        assert(parts.drop_first() =~= member_parts(rest));
        assert(members_fit(rest)) by {
            assert forall|i: int| 0 <= i < rest.len() implies {
                &&& document((#[trigger] rest[i]).0) is Ok
                &&& document(rest[i].0)->Ok_0 is Text
                &&& document(rest[i].1) is Ok
                &&& nests_within(document(rest[i].1)->Ok_0, MAX_DEPTH - 1)
            } by {
                assert(rest[i] == members[i + 1]);
            }
        }
        lemma_member_of(whole, start, member);
        lemma_members_of(whole, end + 1, rest, found.push(pair));
        assert(skip_space(whole, end) == end);
        assert(found.push(pair) + pairs_of(rest) =~= found + pairs_of(members));
    }
}

/// An object of documents under keys is accepted, with the keys and the values in their order, if
/// there is room for one more level.
pub proof fn law_objects_hold_their_members(members: Seq<(Seq<char>, Seq<char>)>)
    requires
        members_fit(member_encodings(members)),
    ensures
        document(
            encode_utf8(seq!['{'] + with_commas(member_sources(members), ',') + seq!['}']),
        ) == Ok::<Model, Failure>(Model::Object(pairs_of(member_encodings(members)))),
{
    let known = member_encodings(members);
    let sources = member_sources(members);
    let parts = member_parts(known);
    let body = with_commas(parts, 0x2cu8);
    let whole = encode_utf8(seq!['{'] + with_commas(sources, ',') + seq!['}']);
    assert(encodings(sources) =~= parts) by {
        assert forall|i: int| 0 <= i < sources.len() implies #[trigger] encodings(sources)[i]
            == parts[i] by {
            let (key, value) = members[i];
            lemma_encoding_of_parts(key + seq![':'], value);
            lemma_encoding_of_parts(key, seq![':']);
            lemma_encoding_of_character(':');
        }
    }
    lemma_encoding_of_parts(seq!['{'] + with_commas(sources, ','), seq!['}']);
    lemma_encoding_of_parts(seq!['{'], with_commas(sources, ','));
    lemma_encoding_with_commas(sources);
    lemma_encoding_of_character('{');
    lemma_encoding_of_character('}');
    assert(whole =~= seq![0x7bu8] + body + seq![0x7du8]);
    let close = 1 + body.len() as int;
    assert(whole[0] == 0x7b && whole[close] == 0x7d);
    assert(skip_space(whole, 0) == 0);
    assert(skip_space(whole, close) == close);
    assert(skip_space(whole, close + 1) == close + 1);
    if members.len() == 0 {
        assert(pairs_of(known) =~= Seq::empty());
    } else {
        assert forall|i: int| 0 <= i < body.len() implies #[trigger] whole[1 + i] == body[i] by {}
        lemma_members_of(whole, 1, known, Seq::empty());
        assert(Seq::empty() + pairs_of(known) =~= pairs_of(known));
    }
}

} // verus!
