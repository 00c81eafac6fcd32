//! Base64 text, as data URIs carry it.

use crate::gltf::error::GltfError;
use crate::json_laws::lemma_encoding_of_parts;
use vstd::prelude::*;
use vstd::string::*;
use vstd::utf8::{
    encode_utf8, encode_utf8_decode_utf8, is_ascii_chars, is_ascii_chars_encode_utf8,
};

verus! {

/// The six bits that a base64 character stands for.
pub open spec fn sextet(byte: u8) -> Option<int> {
    if 0x41 <= byte <= 0x5a {
        Some(byte - 0x41)
    } else if 0x61 <= byte <= 0x7a {
        Some(byte - 0x61 + 26)
    } else if 0x30 <= byte <= 0x39 {
        Some(byte - 0x30 + 52)
    } else if byte == 0x2b {
        Some(62)
    } else if byte == 0x2f {
        Some(63)
    } else {
        None
    }
}

/// The padding character.
pub const PAD: u8 = 0x3d;

/// The six bits of a character that may be padding, which stands for zero.
pub open spec fn padded_sextet(byte: u8) -> Option<int> {
    if byte == PAD {
        Some(0)
    } else {
        sextet(byte)
    }
}

/// The bytes that a group of four characters stands for. Only the last group may be padded.
pub open spec fn group(a: u8, b: u8, c: u8, d: u8, last: bool) -> Result<Seq<u8>, Seq<char>> {
    if sextet(a) is None || sextet(b) is None || padded_sextet(c) is None || padded_sextet(
        d,
    ) is None {
        Err("invalid base64 character"@)
    } else {
        let (w, x, y, z) = (
            sextet(a)->0,
            sextet(b)->0,
            padded_sextet(c)->0,
            padded_sextet(d)->0,
        );
        let first = (w * 4 + x / 16) as u8;
        let second = (x % 16 * 16 + y / 4) as u8;
        let third = (y % 4 * 64 + z) as u8;
        if c == PAD && d != PAD {
            Err("invalid base64 padding"@)
        } else if !last && (c == PAD || d == PAD) {
            Err("base64 padding must be at the end"@)
        } else if c == PAD && x % 16 != 0 {
            Err("non-zero base64 padding bits"@)
        } else if d == PAD && c != PAD && y % 4 != 0 {
            Err("non-zero base64 padding bits"@)
        } else if c == PAD {
            Ok(seq![first])
        } else if d == PAD {
            Ok(seq![first, second])
        } else {
            Ok(seq![first, second, third])
        }
    }
}

/// The bytes of the groups from group `index` on, after `output`.
pub open spec fn groups_from(text: Seq<u8>, index: int, output: Seq<u8>) -> Result<
    Seq<u8>,
    Seq<char>,
>
    decreases text.len() / 4 - index,
{
    if index < 0 || index >= text.len() / 4 {
        Ok(output)
    } else {
        match group(
            text[4 * index],
            text[4 * index + 1],
            text[4 * index + 2],
            text[4 * index + 3],
            index + 1 == text.len() / 4,
        ) {
            Err(message) => Err(message),
            Ok(bytes) => groups_from(text, index + 1, output + bytes),
        }
    }
}

/// The bytes that base64 text stands for.
pub open spec fn decoded(text: Seq<u8>) -> Result<Seq<u8>, Seq<char>> {
    if text.len() % 4 != 0 {
        Err("base64 length is not a multiple of four"@)
    } else {
        groups_from(text, 0, Seq::empty())
    }
}

fn base64_value(byte: u8) -> (result: Option<u8>)
    ensures
        match result {
            Some(value) => sextet(byte) == Some(value as int) && value < 64,
            None => sextet(byte) is None,
        },
{
    if byte >= 0x41 && byte <= 0x5a {
        Some(byte - 0x41)
    } else if byte >= 0x61 && byte <= 0x7a {
        Some(byte - 0x61 + 26)
    } else if byte >= 0x30 && byte <= 0x39 {
        Some(byte - 0x30 + 52)
    } else if byte == 0x2b {
        Some(62)
    } else if byte == 0x2f {
        Some(63)
    } else {
        None
    }
}

fn padded_value(byte: u8) -> (result: Option<u8>)
    ensures
        match result {
            Some(value) => padded_sextet(byte) == Some(value as int) && value < 64,
            None => padded_sextet(byte) is None,
        },
{
    if byte == PAD {
        Some(0)
    } else {
        base64_value(byte)
    }
}

/// Decodes base64 text.
pub fn decode_base64(source: &str) -> (result: Result<Vec<u8>, GltfError>)
    ensures
        match result {
            Ok(bytes) => decoded(encode_utf8(source@)) == Ok::<Seq<u8>, Seq<char>>(bytes@),
            Err(error) => error.offset is None && decoded(encode_utf8(source@)) == Err::<
                Seq<u8>,
                Seq<char>,
            >(error.message@),
        },
{
    let text: &[u8] = source.as_bytes();
    if text.len() % 4 != 0 {
        return Err(GltfError::new("base64 length is not a multiple of four"));
    }
    let count: usize = text.len() / 4;
    let mut output: Vec<u8> = Vec::new();
    let mut index: usize = 0;
    while index < count
        invariant
            index <= count,
            count == text@.len() / 4,
            text@.len() % 4 == 0,
            text@.len() <= usize::MAX,
            text@ == encode_utf8(source@),
            decoded(text@) == groups_from(text@, index as int, output@),
        decreases count - index,
    {
        let a: u8 = text[4 * index];
        let b: u8 = text[4 * index + 1];
        let c: u8 = text[4 * index + 2];
        let d: u8 = text[4 * index + 3];
        let ghost before = output@;
        let ghost found = group(a, b, c, d, index + 1 == count);
        match (base64_value(a), base64_value(b), padded_value(c), padded_value(d)) {
            (Some(w), Some(x), Some(y), Some(z)) => {
                if c == PAD && d != PAD {
                    return Err(GltfError::new("invalid base64 padding"));
                }
                if index + 1 != count && (c == PAD || d == PAD) {
                    return Err(GltfError::new("base64 padding must be at the end"));
                }
                if c == PAD && x % 16 != 0 {
                    return Err(GltfError::new("non-zero base64 padding bits"));
                }
                if d == PAD && c != PAD && y % 4 != 0 {
                    return Err(GltfError::new("non-zero base64 padding bits"));
                }
                output.push(w * 4 + x / 16);
                if c != PAD {
                    output.push(x % 16 * 16 + y / 4);
                }
                if d != PAD {
                    output.push(y % 4 * 64 + z);
                }
                assert(found is Ok);
                assert(output@ =~= before + found->Ok_0);
            },
            _ => {
                return Err(GltfError::new("invalid base64 character"));
            },
        }
        index += 1;
    }
    Ok(output)
}

/// The base64 character for six bits.
pub open spec fn base64_character(value: int) -> u8 {
    if value < 26 {
        (0x41 + value) as u8
    } else if value < 52 {
        (0x61 + value - 26) as u8
    } else if value < 62 {
        (0x30 + value - 52) as u8
    } else if value == 62 {
        0x2b
    } else {
        0x2f
    }
}

/// Bytes as base64 text.
pub open spec fn encoded(bytes: Seq<u8>) -> Seq<u8>
    decreases bytes.len(),
{
    if bytes.len() == 0 {
        Seq::empty()
    } else if bytes.len() == 1 {
        seq![
            base64_character((bytes[0] as int) / 4),
            base64_character((bytes[0] as int) % 4 * 16),
            PAD,
            PAD,
        ]
    } else if bytes.len() == 2 {
        seq![
            base64_character((bytes[0] as int) / 4),
            base64_character((bytes[0] as int) % 4 * 16 + (bytes[1] as int) / 16),
            base64_character((bytes[1] as int) % 16 * 4),
            PAD,
        ]
    } else {
        seq![
            base64_character((bytes[0] as int) / 4),
            base64_character((bytes[0] as int) % 4 * 16 + (bytes[1] as int) / 16),
            base64_character((bytes[1] as int) % 16 * 4 + (bytes[2] as int) / 64),
            base64_character((bytes[2] as int) % 64),
        ] + encoded(bytes.subrange(3, bytes.len() as int))
    }
}

proof fn lemma_sextet_of_character(value: int)
    requires
        0 <= value < 64,
    ensures
        sextet(base64_character(value)) == Some(value),
        base64_character(value) != PAD,
{
}

proof fn lemma_encoded_length(bytes: Seq<u8>)
    ensures
        encoded(bytes).len() % 4 == 0,
        bytes.len() > 0 ==> encoded(bytes).len() >= 4,
        bytes.len() == 0 ==> encoded(bytes).len() == 0,
    decreases bytes.len(),
{
    if bytes.len() >= 3 {
        lemma_encoded_length(bytes.subrange(3, bytes.len() as int));
    }
}

proof fn lemma_decoding_continues(done: Seq<u8>, rest: Seq<u8>, output: Seq<u8>)
    requires
        done.len() % 4 == 0,
    ensures
        groups_from(done + encoded(rest), (done.len() / 4) as int, output) == Ok::<
            Seq<u8>,
            Seq<char>,
        >(output + rest),
    decreases rest.len(),
{
    let text = done + encoded(rest);
    let index = (done.len() / 4) as int;
    lemma_encoded_length(rest);
    if rest.len() == 0 {
        assert(output + rest =~= output);
    } else {
        assert(text.len() == done.len() + encoded(rest).len());
        assert(forall|j: int| 0 <= j < 4 ==> text[4 * index + j] == encoded(rest)[j]);
        let first = rest[0] as int;
        let second = if rest.len() > 1 {
            rest[1] as int
        } else {
            0
        };
        let third = if rest.len() > 2 {
            rest[2] as int
        } else {
            0
        };
        lemma_sextet_of_character(first / 4);
        lemma_sextet_of_character(first % 4 * 16 + second / 16);
        lemma_sextet_of_character(second % 16 * 4 + third / 64);
        lemma_sextet_of_character(third % 64);
        assert(text[4 * index + 0] == encoded(rest)[0]);
        assert(text[4 * index + 1] == encoded(rest)[1]);
        assert(text[4 * index + 2] == encoded(rest)[2]);
        assert(text[4 * index + 3] == encoded(rest)[3]);
        if rest.len() < 3 {
            assert(encoded(rest).len() == 4);
            assert(text.len() / 4 == index + 1);
            let found = group(
                text[4 * index],
                text[4 * index + 1],
                text[4 * index + 2],
                text[4 * index + 3],
                true,
            );
            assert(found->Ok_0 =~= rest);
            assert(groups_from(text, index + 1, output + rest) == Ok::<Seq<u8>, Seq<char>>(
                output + rest,
            ));
        } else {
            let after = rest.subrange(3, rest.len() as int);
            let head = encoded(rest).subrange(0, 4);
            lemma_encoded_length(after);
            let found = group(
                text[4 * index],
                text[4 * index + 1],
                text[4 * index + 2],
                text[4 * index + 3],
                index + 1 == text.len() / 4,
            );
            assert(found->Ok_0 =~= rest.subrange(0, 3));
            assert(text =~= (done + head) + encoded(after));
            assert(output + rest =~= (output + rest.subrange(0, 3)) + after);
            lemma_decoding_continues(done + head, after, output + rest.subrange(0, 3));
        }
    }
}

/// Decoding gives back what was encoded.
pub proof fn law_decoding_inverts_encoding(bytes: Seq<u8>)
    ensures
        decoded(encoded(bytes)) == Ok::<Seq<u8>, Seq<char>>(bytes),
{
    lemma_encoded_length(bytes);
    lemma_decoding_continues(Seq::empty(), bytes, Seq::empty());
    assert(Seq::<u8>::empty() + encoded(bytes) =~= encoded(bytes));
    assert(Seq::<u8>::empty() + bytes =~= bytes);
}

proof fn lemma_character_of_sextet(byte: u8)
    requires
        sextet(byte) is Some,
    ensures
        0 <= sextet(byte)->0 < 64,
        base64_character(sextet(byte)->0) == byte,
        byte != PAD,
{
}

/// What a group of characters decodes to is encoded as that group again.
proof fn lemma_group_is_encoded(a: u8, b: u8, c: u8, d: u8, last: bool, after: Seq<u8>)
    requires
        group(a, b, c, d, last) is Ok,
        group(a, b, c, d, last)->Ok_0.len() < 3 ==> after.len() == 0,
    ensures
        encoded(group(a, b, c, d, last)->Ok_0 + after) == seq![a, b, c, d] + encoded(after),
        group(a, b, c, d, last)->Ok_0.len() < 3 ==> last,
{
    let bytes = group(a, b, c, d, last)->Ok_0;
    let all = bytes + after;
    let (w, x) = (sextet(a)->0, sextet(b)->0);
    lemma_character_of_sextet(a);
    lemma_character_of_sextet(b);
    assert(all[0] == bytes[0]);
    assert(bytes[0] as int / 4 == w && bytes[0] as int % 4 == x / 16);
    if c != PAD {
        let y = sextet(c)->0;
        lemma_character_of_sextet(c);
        assert(all[1] == bytes[1]);
        assert(bytes[1] as int / 16 == x % 16 && bytes[1] as int % 16 == y / 4);
        if d != PAD {
            lemma_character_of_sextet(d);
            assert(all[2] == bytes[2]);
            assert(bytes[2] as int / 64 == y % 4 && bytes[2] as int % 64 == sextet(d)->0);
            assert(all.subrange(3, all.len() as int) =~= after);
        }
    }
    if bytes.len() < 3 {
        assert(encoded(after) =~= Seq::empty());
    }
    assert(encoded(all) =~= seq![a, b, c, d] + encoded(after));
}

proof fn lemma_groups_are_encoded(text: Seq<u8>, index: int, output: Seq<u8>)
    requires
        text.len() % 4 == 0,
        0 <= index <= text.len() / 4,
        groups_from(text, index, output) is Ok,
    ensures
        ({
            let all = groups_from(text, index, output)->Ok_0;
            &&& output.len() <= all.len()
            &&& all.take(output.len() as int) == output
            &&& encoded(all.skip(output.len() as int)) == text.skip(4 * index)
        }),
    decreases text.len() / 4 - index,
{
    let all = groups_from(text, index, output)->Ok_0;
    if index == text.len() / 4 {
        assert(all.skip(output.len() as int) =~= Seq::empty());
        assert(text.skip(4 * index) =~= Seq::empty());
    } else {
        let (a, b, c, d) = (
            text[4 * index],
            text[4 * index + 1],
            text[4 * index + 2],
            text[4 * index + 3],
        );
        let last = index + 1 == text.len() / 4;
        let bytes = group(a, b, c, d, last)->Ok_0;
        lemma_groups_are_encoded(text, index + 1, output + bytes);
        let after = all.skip((output + bytes).len() as int);
        if bytes.len() < 3 {
            assert(after =~= Seq::empty());
        }
        lemma_group_is_encoded(a, b, c, d, last, after);
        assert(all.take((output + bytes).len() as int).take(output.len() as int) =~= output);
        assert(all.take(output.len() as int) =~= output);
        let tail = all.skip(output.len() as int);
        assert(tail =~= bytes + after) by {
            assert forall|i: int| 0 <= i < tail.len() implies #[trigger] tail[i] == (bytes
                + after)[i] by {
                if i < bytes.len() {
                    assert(all.take((output + bytes).len() as int)[output.len() + i] == (output
                        + bytes)[output.len() + i]);
                }
            }
        }
        assert(text.skip(4 * index) =~= seq![a, b, c, d] + text.skip(4 * (index + 1)));
    }
}

/// Every accepted text is the encoding of what it decodes to.
pub proof fn law_encoding_inverts_decoding(text: Seq<u8>)
    requires
        decoded(text) is Ok,
    ensures
        encoded(decoded(text)->Ok_0) == text,
{
    let all = decoded(text)->Ok_0;
    lemma_groups_are_encoded(text, 0, Seq::empty());
    assert(all.skip(0) =~= all);
    assert(text.skip(0) =~= text);
}

proof fn lemma_encoded_is_ascii(bytes: Seq<u8>)
    ensures
        forall|i: int| 0 <= i < encoded(bytes).len() ==> #[trigger] encoded(bytes)[i] < 0x80,
    decreases bytes.len(),
{
    if bytes.len() >= 3 {
        let rest = bytes.subrange(3, bytes.len() as int);
        lemma_encoded_is_ascii(rest);
        assert forall|i: int| 0 <= i < encoded(bytes).len() implies #[trigger] encoded(bytes)[i]
            < 0x80 by {
            if i >= 4 {
                assert(encoded(bytes)[i] == encoded(rest)[i - 4]);
            }
        }
    }
}

/// The encoding of an accepted text has one byte for each character.
proof fn lemma_accepted_is_ascii(source: Seq<char>)
    requires
        decoded(encode_utf8(source)) is Ok,
    ensures
        encode_utf8(source).len() == source.len(),
        forall|i: int|
            0 <= i < source.len() ==> #[trigger] encode_utf8(source)[i] as char == source[i],
{
    let text = encode_utf8(source);
    law_encoding_inverts_decoding(text);
    lemma_encoded_is_ascii(decoded(text)->Ok_0);
    let plain = Seq::new(text.len(), |i: int| text[i] as char);
    assert(is_ascii_chars(plain));
    is_ascii_chars_encode_utf8(plain);
    assert(encode_utf8(plain) =~= text) by {
        assert forall|i: int| 0 <= i < text.len() implies #[trigger] encode_utf8(plain)[i]
            == text[i] by {
            assert(plain[i] as u8 == encode_utf8(plain)[i]);
        }
    }
    encode_utf8_decode_utf8(plain);
    encode_utf8_decode_utf8(source);
    assert(plain == source);
}

/// There is one accepted text for the same bytes: two that decode alike are equal.
pub proof fn law_accepted_texts_are_unique(first: Seq<char>, second: Seq<char>)
    requires
        decoded(encode_utf8(first)) is Ok,
        decoded(encode_utf8(first)) == decoded(encode_utf8(second)),
    ensures
        first == second,
{
    law_encoding_inverts_decoding(encode_utf8(first));
    law_encoding_inverts_decoding(encode_utf8(second));
    encode_utf8_decode_utf8(first);
    encode_utf8_decode_utf8(second);
}

/// Groups are decoded alike after other groups.
proof fn lemma_groups_shift(before: Seq<u8>, text: Seq<u8>, index: int, done: Seq<u8>, output: Seq<u8>)
    requires
        before.len() % 4 == 0,
        text.len() % 4 == 0,
        0 <= index <= text.len() / 4,
        groups_from(text, index, output) is Ok,
    ensures
        groups_from(before + text, before.len() / 4 + index, done + output) == Ok::<
            Seq<u8>,
            Seq<char>,
        >(done + groups_from(text, index, output)->Ok_0),
    decreases text.len() / 4 - index,
{
    let whole = before + text;
    let place = before.len() / 4 + index;
    assert(whole.len() / 4 == before.len() / 4 + text.len() / 4);
    if index < text.len() / 4 {
        assert(4 * place == before.len() + 4 * index);
        assert(whole[4 * place] == text[4 * index]);
        assert(whole[4 * place + 1] == text[4 * index + 1]);
        assert(whole[4 * place + 2] == text[4 * index + 2]);
        assert(whole[4 * place + 3] == text[4 * index + 3]);
        let bytes = group(
            text[4 * index],
            text[4 * index + 1],
            text[4 * index + 2],
            text[4 * index + 3],
            index + 1 == text.len() / 4,
        )->Ok_0;
        assert((done + output) + bytes =~= done + (output + bytes));
        lemma_groups_shift(before, text, index + 1, done, output + bytes);
    }
}

/// Groups without padding are decoded alike before other groups.
proof fn lemma_groups_before(text: Seq<u8>, after: Seq<u8>, index: int, output: Seq<u8>)
    requires
        text.len() % 4 == 0,
        after.len() % 4 == 0,
        0 <= index <= text.len() / 4,
        forall|i: int| 0 <= i < text.len() ==> #[trigger] text[i] != PAD,
        groups_from(text, index, output) is Ok,
    ensures
        groups_from(text + after, index, output) == groups_from(
            text + after,
            text.len() as int / 4,
            groups_from(text, index, output)->Ok_0,
        ),
    decreases text.len() / 4 - index,
{
    let whole = text + after;
    if index < text.len() / 4 {
        assert(whole[4 * index] == text[4 * index]);
        assert(whole[4 * index + 1] == text[4 * index + 1]);
        assert(whole[4 * index + 2] == text[4 * index + 2]);
        assert(whole[4 * index + 3] == text[4 * index + 3]);
        assert(text[4 * index + 2] != PAD && text[4 * index + 3] != PAD);
        let bytes = group(
            text[4 * index],
            text[4 * index + 1],
            text[4 * index + 2],
            text[4 * index + 3],
            index + 1 == text.len() / 4,
        )->Ok_0;
        assert(index < whole.len() / 4);
        lemma_groups_before(text, after, index + 1, output + bytes);
    }
}

/// An accepted text without padding can be followed by any accepted text, and stands for its bytes
/// before those of the other.
pub proof fn law_unpadded_texts_can_be_continued(first: Seq<char>, second: Seq<char>)
    requires
        decoded(encode_utf8(first)) is Ok,
        decoded(encode_utf8(second)) is Ok,
        !first.contains('='),
    ensures
        decoded(encode_utf8(first + second)) == Ok::<Seq<u8>, Seq<char>>(
            decoded(encode_utf8(first))->Ok_0 + decoded(encode_utf8(second))->Ok_0,
        ),
{
    let text = encode_utf8(first);
    let after = encode_utf8(second);
    lemma_encoding_of_parts(first, second);
    lemma_accepted_is_ascii(first);
    assert forall|i: int| 0 <= i < text.len() implies #[trigger] text[i] != PAD by {
        assert(first.contains(first[i]));
        assert(text[i] as char == first[i]);
        assert(PAD as char == '=');
    }
    let done = decoded(text)->Ok_0;
    lemma_groups_before(text, after, 0, Seq::empty());
    lemma_groups_shift(text, after, 0, done, Seq::empty());
    assert(done + Seq::empty() =~= done);
    assert((text + after).len() % 4 == 0);
}

} // verus!
