//! Text as sequences of characters.

use vstd::prelude::*;
use vstd::string::*;
use vstd::utf8::{encode_utf8, encode_utf8_decode_utf8};

verus! {

/// `String::push` appends one character to the end of the string.
pub assume_specification[ std::string::String::push ](text: &mut std::string::String, c: char)
    ensures
        final(text)@ == old(text)@.push(c),
;

/// The decimal digits of a number, without leading zeros.
pub open spec fn decimal_digits(n: nat) -> Seq<char>
    decreases n,
{
    if n < 10 {
        seq![(48 + n) as char]
    } else {
        decimal_digits(n / 10).push((48 + n % 10) as char)
    }
}

/// The contents of a list of texts.
pub open spec fn texts(list: Seq<String>) -> Seq<Seq<char>> {
    Seq::new(list.len(), |i: int| list[i]@)
}

/// Whether two texts are the same.
pub fn same_text(left: &str, right: &str) -> (result: bool)
    ensures
        result == (left@ == right@),
{
    let a: &[u8] = left.as_bytes();
    let b: &[u8] = right.as_bytes();
    proof {
        encode_utf8_decode_utf8(left@);
        encode_utf8_decode_utf8(right@);
    }
    if a.len() != b.len() {
        return false;
    }
    let mut i: usize = 0;
    while i < a.len()
        invariant
            i <= a@.len(),
            a@.len() == b@.len(),
            a@ == encode_utf8(left@),
            b@ == encode_utf8(right@),
            forall|j: int| 0 <= j < i ==> a@[j] == b@[j],
        decreases a@.len() - i,
    {
        if a[i] != b[i] {
            return false;
        }
        i += 1;
    }
    assert(a@ =~= b@);
    true
}

/// The characters of a text.
pub fn characters(text: &str) -> (result: Vec<char>)
    ensures
        result@ == text@,
{
    let mut result: Vec<char> = Vec::new();
    for c in iter: text.chars()
        invariant
            result@ =~= iter.seq().take(iter.index()),
            iter.seq() == text@,
    {
        result.push(c);
    }
    assert(text@.take(text@.len() as int) =~= text@);
    result
}

/// The text that the characters from `start` to `end` make.
pub fn text_of(characters: &[char], start: usize, end: usize) -> (result: String)
    requires
        start <= end <= characters@.len(),
    ensures
        result@ == characters@.subrange(start as int, end as int),
{
    let mut result: String = String::new();
    let mut i: usize = start;
    while i < end
        invariant
            start <= i <= end <= characters@.len(),
            result@ =~= characters@.subrange(start as int, i as int),
        decreases end - i,
    {
        result.push(characters[i]);
        i += 1;
    }
    result
}

/// The text of an ASCII digit.
fn digit_character(digit: u64) -> (result: char)
    requires
        digit < 10,
    ensures
        result == (48 + digit) as char,
{
    (48 + digit as u8) as char
}

/// A number in decimal digits.
pub fn decimal_text(n: u64) -> (result: String)
    ensures
        result@ == decimal_digits(n as nat),
    decreases n,
{
    if n < 10 {
        let mut text: String = String::new();
        text.push(digit_character(n));
        assert(text@ =~= decimal_digits(n as nat));
        text
    } else {
        let mut text: String = decimal_text(n / 10);
        text.push(digit_character(n % 10));
        text
    }
}

/// `first` and `second` one after the other.
pub fn join2(first: &str, second: &str) -> (result: String)
    ensures
        result@ == first@ + second@,
{
    let mut text: String = first.to_owned();
    text.append(second);
    text
}

/// `first`, `second` and `third` one after the other.
pub fn join3(first: &str, second: &str, third: &str) -> (result: String)
    ensures
        result@ == first@ + second@ + third@,
{
    let mut text: String = first.to_owned();
    text.append(second);
    text.append(third);
    text
}

} // verus!
