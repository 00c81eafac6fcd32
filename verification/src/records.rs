//! Line-oriented text: comments, trimming, words and numbers.

use crate::decimal::{digits_value, exec_is_digit, is_digit, read_decimal, reading, Reading};
use crate::float::Float32;
use crate::rounding::Format;
use crate::text::characters;
use vstd::prelude::*;

verus! {

/// Whether a character has the Unicode property White_Space.
pub open spec fn is_white(c: char) -> bool {
    let code = c as u32;
    ||| 0x9 <= code <= 0xd
    ||| code == 0x20
    ||| code == 0x85
    ||| code == 0xa0
    ||| code == 0x1680
    ||| 0x2000 <= code <= 0x200a
    ||| code == 0x2028
    ||| code == 0x2029
    ||| code == 0x202f
    ||| code == 0x205f
    ||| code == 0x3000
}

pub fn check_white(c: char) -> (result: bool)
    ensures
        result == is_white(c),
{
    let code: u32 = c as u32;
    (code >= 0x9 && code <= 0xd) || code == 0x20 || code == 0x85 || code == 0xa0 || code == 0x1680
        || (code >= 0x2000 && code <= 0x200a) || code == 0x2028 || code == 0x2029 || code == 0x202f
        || code == 0x205f || code == 0x3000
}

/// The first position from `start` on that holds `wanted`, or the end.
pub open spec fn next_position(text: Seq<char>, wanted: char, start: int) -> int
    decreases text.len() - start,
{
    if 0 <= start < text.len() && text[start] != wanted {
        next_position(text, wanted, start + 1)
    } else {
        start
    }
}

/// The first position from `start` on that holds no white space, or the end.
pub open spec fn skip_white(text: Seq<char>, start: int) -> int
    decreases text.len() - start,
{
    if 0 <= start < text.len() && is_white(text[start]) {
        skip_white(text, start + 1)
    } else {
        start
    }
}

/// The first position from `start` on that holds white space, or the end.
pub open spec fn word_end(text: Seq<char>, start: int) -> int
    decreases text.len() - start,
{
    if 0 <= start < text.len() && !is_white(text[start]) {
        word_end(text, start + 1)
    } else {
        start
    }
}

/// Where the white space that ends at `end` begins, not before `start`.
pub open spec fn back_over_white(text: Seq<char>, start: int, end: int) -> int
    decreases end - start,
{
    if start < end && 0 < end <= text.len() && is_white(text[end - 1]) {
        back_over_white(text, start, end - 1)
    } else {
        end
    }
}

/// The text without white space at its ends.
pub open spec fn trimmed(text: Seq<char>) -> Seq<char> {
    let start = skip_white(text, 0);
    text.subrange(start, back_over_white(text, start, text.len() as int))
}

/// What a line says: what stands before its comment, without white space at the ends.
pub open spec fn line_content(line: Seq<char>) -> Seq<char> {
    trimmed(line.subrange(0, next_position(line, '#', 0)))
}

/// The words of a text from `start` on, after `found`.
pub open spec fn words_from(text: Seq<char>, start: int, found: Seq<Seq<char>>) -> Seq<Seq<char>>
    decreases text.len() - start,
{
    proof {
        lemma_scan(text, start);
    }
    let first = skip_white(text, start);
    if !(0 <= start) || first >= text.len() {
        found
    } else {
        let end = word_end(text, first);
        words_from(text, end, found.push(text.subrange(first, end)))
    }
}

/// The words of a text: its longest pieces without white space.
pub open spec fn words(text: Seq<char>) -> Seq<Seq<char>> {
    words_from(text, 0, Seq::empty())
}

/// Scanning for white space or its end moves forward inside the text.
pub proof fn lemma_scan(text: Seq<char>, start: int)
    ensures
        skip_white(text, start) >= start,
        word_end(text, start) >= start,
        0 <= start <= text.len() ==> skip_white(text, start) <= text.len() && word_end(text, start)
            <= text.len(),
        ({
            let first = skip_white(text, start);
            0 <= start && first < text.len() ==> first < word_end(text, first) <= text.len()
        }),
    decreases text.len() - start,
{
    if 0 <= start < text.len() {
        lemma_scan(text, start + 1);
        if !is_white(text[start]) {
            lemma_word_end(text, start);
        }
    }
}

proof fn lemma_word_end(text: Seq<char>, start: int)
    requires
        0 <= start <= text.len(),
    ensures
        start <= word_end(text, start) <= text.len(),
        start < text.len() && !is_white(text[start]) ==> start < word_end(text, start),
    decreases text.len() - start,
{
    if start < text.len() && !is_white(text[start]) {
        lemma_word_end(text, start + 1);
    }
}

pub fn find_next(text: &[char], wanted: char, start: usize) -> (result: usize)
    requires
        start <= text@.len(),
    ensures
        result == next_position(text@, wanted, start as int),
        start <= result <= text@.len() <= usize::MAX,
{
    let mut i: usize = start;
    while i < text.len() && text[i] != wanted
        invariant
            start <= i <= text@.len(),
            next_position(text@, wanted, start as int) == next_position(text@, wanted, i as int),
        decreases text@.len() - i,
    {
        i += 1;
    }
    i
}

pub fn find_skip_white(text: &[char], start: usize) -> (result: usize)
    requires
        start <= text@.len(),
    ensures
        result == skip_white(text@, start as int),
        start <= result <= text@.len(),
{
    let mut i: usize = start;
    while i < text.len() && check_white(text[i])
        invariant
            start <= i <= text@.len(),
            skip_white(text@, start as int) == skip_white(text@, i as int),
        decreases text@.len() - i,
    {
        i += 1;
    }
    i
}

pub fn find_word_end(text: &[char], start: usize) -> (result: usize)
    requires
        start <= text@.len(),
    ensures
        result == word_end(text@, start as int),
        start <= result <= text@.len(),
        start < text@.len() && !is_white(text@[start as int]) ==> start < result,
{
    let mut i: usize = start;
    while i < text.len() && !check_white(text[i])
        invariant
            start <= i <= text@.len(),
            word_end(text@, start as int) == word_end(text@, i as int),
        decreases text@.len() - i,
    {
        i += 1;
    }
    i
}

/// A piece of a text.
pub fn piece(text: &[char], start: usize, end: usize) -> (result: Vec<char>)
    requires
        start <= end <= text@.len(),
    ensures
        result@ == text@.subrange(start as int, end as int),
{
    let mut result: Vec<char> = Vec::new();
    let mut i: usize = start;
    while i < end
        invariant
            start <= i <= end <= text@.len(),
            result@ =~= text@.subrange(start as int, i as int),
        decreases end - i,
    {
        result.push(text[i]);
        i += 1;
    }
    result
}

/// The text without white space at its ends.
pub fn trim(text: &[char]) -> (result: Vec<char>)
    ensures
        result@ == trimmed(text@),
{
    let start: usize = find_skip_white(text, 0);
    let mut end: usize = text.len();
    while end > start && check_white(text[end - 1])
        invariant
            start <= end <= text@.len(),
            back_over_white(text@, start as int, text@.len() as int) == back_over_white(
                text@,
                start as int,
                end as int,
            ),
        decreases end,
    {
        end -= 1;
    }
    piece(text, start, end)
}

/// What the line from `start` to `end` says.
pub fn read_line(text: &[char], start: usize, end: usize) -> (result: Vec<char>)
    requires
        start <= end <= text@.len(),
    ensures
        result@ == line_content(text@.subrange(start as int, end as int)),
{
    let line: Vec<char> = piece(text, start, end);
    let comment: usize = find_next(line.as_slice(), '#', 0);
    let kept: Vec<char> = piece(line.as_slice(), 0, comment);
    trim(kept.as_slice())
}

/// The contents of a list of words.
pub open spec fn word_contents(list: Seq<Vec<char>>) -> Seq<Seq<char>> {
    Seq::new(list.len(), |i: int| list[i]@)
}

/// Splits a text into its words.
pub fn split_words(text: &[char]) -> (result: Vec<Vec<char>>)
    ensures
        word_contents(result@) == words(text@),
{
    let mut found: Vec<Vec<char>> = Vec::new();
    let mut start: usize = 0;
    assert(word_contents(found@) =~= Seq::empty());
    loop
        invariant
            start <= text@.len(),
            words(text@) == words_from(text@, start as int, word_contents(found@)),
        decreases text@.len() - start,
    {
        let first: usize = find_skip_white(text, start);
        proof {
            lemma_scan(text@, start as int);
        }
        if first >= text.len() {
            return found;
        }
        let end: usize = find_word_end(text, first);
        let word: Vec<char> = piece(text, first, end);
        let ghost before = word_contents(found@);
        let ghost content = word@;
        found.push(word);
        assert(word_contents(found@) =~= before.push(content));
        start = end;
    }
}

/// Whether every word has a character and no white space.
pub open spec fn proper_words(list: Seq<Seq<char>>) -> bool {
    forall|i: int|
        0 <= i < list.len() ==> (#[trigger] list[i]).len() > 0 && forall|k: int|
            0 <= k < list[i].len() ==> !is_white(#[trigger] list[i][k])
}

proof fn lemma_word_is_proper(text: Seq<char>, start: int, from: int)
    requires
        0 <= from <= start <= text.len(),
        forall|k: int| from <= k < start ==> !is_white(#[trigger] text[k]),
    ensures
        forall|k: int| from <= k < word_end(text, start) ==> !is_white(#[trigger] text[k]),
    decreases text.len() - start,
{
    if start < text.len() && !is_white(text[start]) {
        lemma_word_is_proper(text, start + 1, from);
    }
}

proof fn lemma_words_are_proper(text: Seq<char>, start: int, found: Seq<Seq<char>>)
    requires
        0 <= start <= text.len(),
        proper_words(found),
    ensures
        proper_words(words_from(text, start, found)),
    decreases text.len() - start,
{
    lemma_scan(text, start);
    let first = skip_white(text, start);
    if first < text.len() {
        let end = word_end(text, first);
        lemma_word_is_proper(text, first, first);
        let next = found.push(text.subrange(first, end));
        assert forall|i: int| 0 <= i < next.len() implies (#[trigger] next[i]).len() > 0
            && forall|k: int| 0 <= k < next[i].len() ==> !is_white(#[trigger] next[i][k]) by {
            if i == found.len() {
                assert forall|k: int| 0 <= k < next[i].len() implies !is_white(
                    #[trigger] next[i][k],
                ) by {
                    assert(next[i][k] == text[first + k]);
                }
            }
        }
        lemma_words_are_proper(text, end, next);
    }
}

/// Words are not empty and hold no white space.
pub proof fn law_words_are_proper(text: Seq<char>)
    ensures
        proper_words(words(text)),
{
    lemma_words_are_proper(text, 0, Seq::empty());
}

/// The words from `index` on with one space between them.
pub open spec fn joined(list: Seq<Seq<char>>, index: int) -> Seq<char>
    decreases list.len() - index,
{
    if !(0 <= index < list.len()) {
        Seq::empty()
    } else if index + 1 == list.len() {
        list[index]
    } else {
        list[index] + seq![' '] + joined(list, index + 1)
    }
}

/// Joins the words from `index` on with one space between them.
pub fn join_words(list: &[Vec<char>], index: usize) -> (result: Vec<char>)
    requires
        index <= list@.len(),
    ensures
        result@ == joined(word_contents(list@), index as int),
{
    let ghost all = word_contents(list@);
    let mut result: Vec<char> = Vec::new();
    let mut i: usize = index;
    while i < list.len()
        invariant
            index <= i <= list@.len(),
            all == word_contents(list@),
            joined(all, index as int) == result@ + joined(all, i as int),
        decreases list@.len() - i,
    {
        let word: &Vec<char> = &list[i];
        assert(all[i as int] == word@);
        let ghost before = result@;
        let mut k: usize = 0;
        while k < word.len()
            invariant
                k <= word@.len(),
                result@ =~= before + word@.take(k as int),
            decreases word@.len() - k,
        {
            result.push(word[k]);
            k += 1;
        }
        assert(word@.take(word@.len() as int) =~= word@);
        if i + 1 < list.len() {
            result.push(' ');
            assert(before + (word@ + seq![' '] + joined(all, i + 1)) =~= result@ + joined(
                all,
                i + 1,
            ));
        } else {
            assert(joined(all, i + 1) =~= Seq::empty());
            assert(before + word@ =~= result@ + joined(all, i + 1));
        }
        i += 1;
    }
    assert(result@ + Seq::<char>::empty() =~= result@);
    result
}

/// What a text reads as in single precision.
pub open spec fn single_reading(text: Seq<char>) -> Reading {
    reading(Format::Binary32, text)
}

/// The bits of a single-precision value that is not a number.
pub const NOT_A_NUMBER: u32 = 0x7fc0_0000;

/// The single-precision value that a reading has.
pub open spec fn reading_value(read: Reading) -> Float32 {
    match read {
        Reading::Finite { negative, magnitude } => Float32::of(negative, magnitude as nat),
        Reading::Infinite { negative } => Float32::of(negative, 0x7f80_0000),
        _ => Float32 { bits: NOT_A_NUMBER },
    }
}

/// The single-precision value that a reading has.
pub fn value_of_reading(read: Reading) -> (result: Float32)
    requires
        read matches Reading::Finite { negative, magnitude } ==> magnitude < 0x7f80_0000,
    ensures
        result == reading_value(read),
{
    match read {
        Reading::Finite { negative, magnitude } => Float32::from_parts(negative, magnitude as u32),
        Reading::Infinite { negative } => Float32::from_parts(negative, 0x7f80_0000),
        _ => Float32 { bits: NOT_A_NUMBER },
    }
}

/// Reads a single-precision number.
pub fn read_single(text: &[char]) -> (result: Reading)
    ensures
        result == single_reading(text@),
        result matches Reading::Finite { negative, magnitude } ==> magnitude < 0x7f80_0000,
{
    read_decimal(Format::Binary32, text)
}

/// The text after an optional plus sign.
pub open spec fn after_plus(text: Seq<char>) -> Seq<char> {
    if text.len() > 0 && text[0] == '+' {
        text.subrange(1, text.len() as int)
    } else {
        text
    }
}

/// The number of decimal digits with an optional plus sign, where they are one and it is at most
/// `limit`.
pub open spec fn unsigned_number(text: Seq<char>, limit: nat) -> Option<nat> {
    let digits = after_plus(text);
    if digits.len() > 0 && (forall|i: int| 0 <= i < digits.len() ==> is_digit(#[trigger] digits[i]))
        && digits_value(digits) <= limit {
        Some(digits_value(digits))
    } else {
        None
    }
}

/// Reads an unsigned number that is at most `limit`.
pub fn read_unsigned(text: &[char], limit: u64) -> (result: Option<u64>)
    ensures
        match result {
            Some(value) => unsigned_number(text@, limit as nat) == Some(value as nat) && value
                <= limit,
            None => unsigned_number(text@, limit as nat) is None,
        },
{
    let start: usize = if text.len() > 0 && text[0] == '+' {
        1
    } else {
        0
    };
    let ghost digits = after_plus(text@);
    assert(digits =~= text@.subrange(start as int, text@.len() as int));
    if start == text.len() {
        return None;
    }
    let mut value: u128 = 0;
    let mut i: usize = start;
    assert(digits.take(0).len() == 0);
    while i < text.len()
        invariant
            start <= i <= text@.len(),
            digits == after_plus(text@),
            digits == text@.subrange(start as int, text@.len() as int),
            value <= limit + 1,
            forall|j: int| 0 <= j < i - start ==> is_digit(#[trigger] digits[j]),
            value <= limit ==> value == digits_value(digits.take(i - start)),
            value > limit ==> digits_value(digits.take(i - start)) > limit,
        decreases text@.len() - i,
    {
        let c: char = text[i];
        assert(c == digits[i - start]);
        if !exec_is_digit(c) {
            return None;
        }
        proof {
            let next = digits.take(i - start + 1);
            assert(next.drop_last() =~= digits.take(i - start));
            assert(next.last() == c);
        }
        let next: u128 = value * 10 + (c as u32 - 48) as u128;
        value = if next > limit as u128 {
            limit as u128 + 1
        } else {
            next
        };
        i += 1;
    }
    assert(digits.take(digits.len() as int) =~= digits);
    if value > limit as u128 {
        None
    } else {
        Some(value as u64)
    }
}

/// Whether two sequences of characters are the same.
pub fn same_characters(left: &[char], right: &[char]) -> (result: bool)
    ensures
        result == (left@ == right@),
{
    if left.len() != right.len() {
        return false;
    }
    let mut i: usize = 0;
    while i < left.len()
        invariant
            i <= left@.len(),
            left@.len() == right@.len(),
            forall|j: int| 0 <= j < i ==> left@[j] == right@[j],
        decreases left@.len() - i,
    {
        if left[i] != right[i] {
            return false;
        }
        i += 1;
    }
    assert(left@ =~= right@);
    true
}

/// Whether a sequence of characters is a word.
pub fn is_text(characters_found: &[char], word: &str) -> (result: bool)
    ensures
        result == (characters_found@ == word@),
{
    let expected: Vec<char> = characters(word);
    same_characters(characters_found, expected.as_slice())
}

} // verus!
