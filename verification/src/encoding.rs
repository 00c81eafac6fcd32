//! How far bytes are valid UTF-8.

use vstd::prelude::*;
use vstd::utf8::{length_of_first_scalar, pop_first_scalar, valid_first_scalar, valid_utf8};

verus! {

/// How many bytes from the first one on are whole characters, one after the other.
pub open spec fn valid_length(bytes: Seq<u8>) -> int
    decreases bytes.len(),
{
    if bytes.len() == 0 || !valid_first_scalar(bytes) {
        0
    } else {
        length_of_first_scalar(bytes) + valid_length(
            bytes.skip(length_of_first_scalar(bytes)),
        )
    }
}

fn is_continuation(byte: u8) -> (result: bool)
    ensures
        result == vstd::utf8::is_continuation_byte(byte),
{
    0x80 <= byte && byte <= 0xbf
}

/// The length of the character that starts at a place, if there is one.
fn character_length(bytes: &[u8], start: usize) -> (result: Option<usize>)
    requires
        start <= bytes@.len(),
    ensures
        match result {
            Some(length) => valid_first_scalar(bytes@.skip(start as int)) && length
                == length_of_first_scalar(bytes@.skip(start as int)) && 1 <= length
                <= bytes@.len() - start,
            None => start == bytes@.len() || !valid_first_scalar(bytes@.skip(start as int)),
        },
{
    let ghost rest = bytes@.skip(start as int);
    if start >= bytes.len() {
        return None;
    }
    let left: usize = bytes.len() - start;
    let first: u8 = bytes[start];
    assert(rest[0] == first);
    if first <= 0x7f {
        assert((first & 0x7f) as u32 <= 0x7f) by (bit_vector);
        return Some(1);
    }
    if left < 2 || !is_continuation(bytes[start + 1]) {
        return None;
    }
    let second: u8 = bytes[start + 1];
    assert(rest[1] == second);
    if 0xc0 <= first && first <= 0xdf {
        let code: u32 = (((first & 0x1f) as u32) << 6) | ((second & 0x3f) as u32);
        assert((((first & 0x1f) as u32) << 6) | ((second & 0x3f) as u32) <= 0x7ff) by (bit_vector);
        if code < 0x80 {
            return None;
        }
        return Some(2);
    }
    if left < 3 || !is_continuation(bytes[start + 2]) {
        return None;
    }
    let third: u8 = bytes[start + 2];
    assert(rest[2] == third);
    if 0xe0 <= first && first <= 0xef {
        let code: u32 = (((first & 0x0f) as u32) << 12) | (((second & 0x3f) as u32) << 6) | ((third
            & 0x3f) as u32);
        if code < 0x800 || (0xd800 <= code && code <= 0xdfff) {
            return None;
        }
        return Some(3);
    }
    if left < 4 || !is_continuation(bytes[start + 3]) || !(0xf0 <= first && first <= 0xf7) {
        return None;
    }
    let fourth: u8 = bytes[start + 3];
    assert(rest[3] == fourth);
    let code: u32 = (((first & 0x07) as u32) << 18) | (((second & 0x3f) as u32) << 12) | (((third
        & 0x3f) as u32) << 6) | ((fourth & 0x3f) as u32);
    if code < 0x1_0000 || code > 0x10_ffff {
        return None;
    }
    Some(4)
}

/// How many bytes from the first one on are whole characters.
pub fn valid_up_to(bytes: &[u8]) -> (result: usize)
    ensures
        result == valid_length(bytes@),
        result <= bytes@.len(),
{
    let mut end: usize = 0;
    assert(bytes@.skip(0) =~= bytes@);
    loop
        invariant
            end <= bytes@.len(),
            valid_length(bytes@) == end + valid_length(bytes@.skip(end as int)),
        ensures
            end <= bytes@.len(),
            end == valid_length(bytes@),
        decreases bytes@.len() - end,
    {
        match character_length(bytes, end) {
            Some(length) => {
                assert(bytes@.skip(end as int).skip(length as int) =~= bytes@.skip(end + length));
                assert(bytes.len() == bytes@.len());
                end += length;
            },
            None => {
                break;
            },
        }
    }
    end
}

/// Bytes are valid UTF-8 exactly where whole characters reach to their end, and what lies before
/// that length is valid in any case.
pub proof fn law_valid_bytes_are_whole_characters(bytes: Seq<u8>)
    ensures
        0 <= valid_length(bytes) <= bytes.len(),
        valid_utf8(bytes) <==> valid_length(bytes) == bytes.len(),
        valid_utf8(bytes.take(valid_length(bytes))),
    decreases bytes.len(),
{
    if bytes.len() == 0 {
        assert(bytes.take(0).len() == 0);
    } else if valid_first_scalar(bytes) {
        let length = length_of_first_scalar(bytes);
        let rest = bytes.skip(length);
        assert(pop_first_scalar(bytes) =~= rest);
        law_valid_bytes_are_whole_characters(rest);
        let kept = bytes.take(valid_length(bytes));
        assert(kept.len() == length + valid_length(rest));
        assert(forall|i: int| 0 <= i < length ==> kept[i] == bytes[i]);
        assert(valid_first_scalar(kept));
        assert(length_of_first_scalar(kept) == length);
        assert(pop_first_scalar(kept) =~= rest.take(valid_length(rest)));
    } else {
        assert(bytes.take(0).len() == 0);
    }
}

} // verus!
