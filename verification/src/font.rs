//! An 8x8 bitmap font and the pixels that a text covers.
//!
//! Text is drawn over a finished picture, so that no other pass changes it. A pixel that the text
//! covers is blended with the text's color.

use crate::fb::{argb8888, pixel_value};
use crate::text::{characters, decimal_digits, decimal_text, join2, join3};
use vstd::prelude::*;
use vstd::string::*;

verus! {

pub const GLYPH_WIDTH: usize = 8;

pub const GLYPH_HEIGHT: usize = 8;

pub const GLYPH_COUNT: usize = 95;

/// The glyph of every character that the font lacks.
pub const FALLBACK_GLYPH: [u8; 8] = [0x7e, 0x42, 0x5a, 0x66, 0x5a, 0x42, 0x7e, 0x00];

/// The glyphs of the printable ASCII characters, from the space to the tilde.
///
/// Each byte is one row. The high bit is the leftmost pixel.
pub const GLYPHS: [[u8; 8]; 95] = [
    [0x00, 0x00, 0x00, 0x00, 0x00, 0x00, 0x00, 0x00], // space
    [0x18, 0x18, 0x18, 0x18, 0x18, 0x00, 0x18, 0x00], // !
    [0x6c, 0x6c, 0x00, 0x00, 0x00, 0x00, 0x00, 0x00], // "
    [0x6c, 0x6c, 0xfe, 0x6c, 0xfe, 0x6c, 0x6c, 0x00], // #
    [0x18, 0x7e, 0xc0, 0x7c, 0x06, 0xfc, 0x18, 0x00], // $
    [0xc2, 0xc6, 0x0c, 0x18, 0x30, 0x66, 0xc6, 0x00], // %
    [0x38, 0x6c, 0x38, 0x76, 0xdc, 0xcc, 0x76, 0x00], // &
    [0x18, 0x18, 0x00, 0x00, 0x00, 0x00, 0x00, 0x00], // '
    [0x0c, 0x18, 0x30, 0x30, 0x30, 0x18, 0x0c, 0x00], // (
    [0x30, 0x18, 0x0c, 0x0c, 0x0c, 0x18, 0x30, 0x00], // )
    [0x00, 0x66, 0x3c, 0xff, 0x3c, 0x66, 0x00, 0x00], // *
    [0x00, 0x18, 0x18, 0x7e, 0x18, 0x18, 0x00, 0x00], // +
    [0x00, 0x00, 0x00, 0x00, 0x18, 0x18, 0x18, 0x30], // ,
    [0x00, 0x00, 0x00, 0x7e, 0x00, 0x00, 0x00, 0x00], // -
    [0x00, 0x00, 0x00, 0x00, 0x00, 0x18, 0x18, 0x00], // .
    [0x06, 0x0c, 0x18, 0x30, 0x60, 0xc0, 0x80, 0x00], // /
    [0x3c, 0x66, 0x6e, 0x76, 0x66, 0x66, 0x3c, 0x00], // 0
    [0x18, 0x38, 0x78, 0x18, 0x18, 0x18, 0x7e, 0x00], // 1
    [0x3c, 0x66, 0x06, 0x0c, 0x18, 0x30, 0x7e, 0x00], // 2
    [0x3c, 0x66, 0x06, 0x1c, 0x06, 0x66, 0x3c, 0x00], // 3
    [0x0c, 0x1c, 0x3c, 0x6c, 0x7e, 0x0c, 0x0c, 0x00], // 4
    [0x7e, 0x60, 0x7c, 0x06, 0x06, 0x66, 0x3c, 0x00], // 5
    [0x1c, 0x30, 0x60, 0x7c, 0x66, 0x66, 0x3c, 0x00], // 6
    [0x7e, 0x66, 0x0c, 0x18, 0x30, 0x30, 0x30, 0x00], // 7
    [0x3c, 0x66, 0x66, 0x3c, 0x66, 0x66, 0x3c, 0x00], // 8
    [0x3c, 0x66, 0x66, 0x3e, 0x06, 0x0c, 0x38, 0x00], // 9
    [0x00, 0x18, 0x18, 0x00, 0x18, 0x18, 0x00, 0x00], // :
    [0x00, 0x18, 0x18, 0x00, 0x18, 0x18, 0x30, 0x00], // ;
    [0x0c, 0x18, 0x30, 0x60, 0x30, 0x18, 0x0c, 0x00], // <
    [0x00, 0x00, 0x7e, 0x00, 0x7e, 0x00, 0x00, 0x00], // =
    [0x30, 0x18, 0x0c, 0x06, 0x0c, 0x18, 0x30, 0x00], // >
    [0x3c, 0x66, 0x06, 0x0c, 0x18, 0x00, 0x18, 0x00], // ?
    [0x3c, 0x66, 0x6e, 0x6e, 0x60, 0x62, 0x3c, 0x00], // @
    [0x18, 0x24, 0x42, 0x7e, 0x42, 0x42, 0x42, 0x00], // A
    [0x7c, 0x66, 0x66, 0x7c, 0x66, 0x66, 0x7c, 0x00], // B
    [0x3c, 0x66, 0x60, 0x60, 0x60, 0x66, 0x3c, 0x00], // C
    [0x78, 0x6c, 0x66, 0x66, 0x66, 0x6c, 0x78, 0x00], // D
    [0x7e, 0x60, 0x60, 0x7c, 0x60, 0x60, 0x7e, 0x00], // E
    [0x7e, 0x60, 0x60, 0x7c, 0x60, 0x60, 0x60, 0x00], // F
    [0x3c, 0x66, 0x60, 0x6e, 0x66, 0x66, 0x3e, 0x00], // G
    [0x66, 0x66, 0x66, 0x7e, 0x66, 0x66, 0x66, 0x00], // H
    [0x3c, 0x18, 0x18, 0x18, 0x18, 0x18, 0x3c, 0x00], // I
    [0x1e, 0x0c, 0x0c, 0x0c, 0x0c, 0x6c, 0x38, 0x00], // J
    [0x66, 0x6c, 0x78, 0x70, 0x78, 0x6c, 0x66, 0x00], // K
    [0x60, 0x60, 0x60, 0x60, 0x60, 0x60, 0x7e, 0x00], // L
    [0x63, 0x77, 0x7f, 0x6b, 0x63, 0x63, 0x63, 0x00], // M
    [0x66, 0x76, 0x7e, 0x7e, 0x6e, 0x66, 0x66, 0x00], // N
    [0x3c, 0x66, 0x66, 0x66, 0x66, 0x66, 0x3c, 0x00], // O
    [0x7c, 0x66, 0x66, 0x7c, 0x60, 0x60, 0x60, 0x00], // P
    [0x3c, 0x66, 0x66, 0x66, 0x6e, 0x3c, 0x0e, 0x00], // Q
    [0x7c, 0x66, 0x66, 0x7c, 0x78, 0x6c, 0x66, 0x00], // R
    [0x3e, 0x60, 0x60, 0x3c, 0x06, 0x06, 0x7c, 0x00], // S
    [0x7e, 0x18, 0x18, 0x18, 0x18, 0x18, 0x18, 0x00], // T
    [0x66, 0x66, 0x66, 0x66, 0x66, 0x66, 0x3c, 0x00], // U
    [0x66, 0x66, 0x66, 0x66, 0x66, 0x3c, 0x18, 0x00], // V
    [0x63, 0x63, 0x6b, 0x6b, 0x7f, 0x77, 0x63, 0x00], // W
    [0x66, 0x66, 0x3c, 0x18, 0x3c, 0x66, 0x66, 0x00], // X
    [0x66, 0x66, 0x3c, 0x18, 0x18, 0x18, 0x18, 0x00], // Y
    [0x7e, 0x06, 0x0c, 0x18, 0x30, 0x60, 0x7e, 0x00], // Z
    [0x3c, 0x30, 0x30, 0x30, 0x30, 0x30, 0x3c, 0x00], // [
    [0xc0, 0x60, 0x30, 0x18, 0x0c, 0x06, 0x02, 0x00], // \
    [0x3c, 0x0c, 0x0c, 0x0c, 0x0c, 0x0c, 0x3c, 0x00], // ]
    [0x18, 0x3c, 0x66, 0x00, 0x00, 0x00, 0x00, 0x00], // ^
    [0x00, 0x00, 0x00, 0x00, 0x00, 0x00, 0xfe, 0x00], // _
    [0x30, 0x18, 0x0c, 0x00, 0x00, 0x00, 0x00, 0x00], // `
    [0x00, 0x00, 0x3c, 0x06, 0x3e, 0x66, 0x3e, 0x00], // a
    [0x60, 0x60, 0x7c, 0x66, 0x66, 0x66, 0x7c, 0x00], // b
    [0x00, 0x00, 0x3c, 0x66, 0x60, 0x66, 0x3c, 0x00], // c
    [0x06, 0x06, 0x3e, 0x66, 0x66, 0x66, 0x3e, 0x00], // d
    [0x00, 0x00, 0x3c, 0x66, 0x7e, 0x60, 0x3c, 0x00], // e
    [0x1c, 0x36, 0x30, 0x7c, 0x30, 0x30, 0x30, 0x00], // f
    [0x00, 0x00, 0x3e, 0x66, 0x3e, 0x06, 0x3c, 0x00], // g
    [0x60, 0x60, 0x7c, 0x66, 0x66, 0x66, 0x66, 0x00], // h
    [0x18, 0x00, 0x38, 0x18, 0x18, 0x18, 0x3c, 0x00], // i
    [0x06, 0x00, 0x0e, 0x06, 0x06, 0x66, 0x3c, 0x00], // j
    [0x60, 0x60, 0x66, 0x6c, 0x78, 0x6c, 0x66, 0x00], // k
    [0x38, 0x18, 0x18, 0x18, 0x18, 0x18, 0x3c, 0x00], // l
    [0x00, 0x00, 0x66, 0x7f, 0x7f, 0x6b, 0x63, 0x00], // m
    [0x00, 0x00, 0x7c, 0x66, 0x66, 0x66, 0x66, 0x00], // n
    [0x00, 0x00, 0x3c, 0x66, 0x66, 0x66, 0x3c, 0x00], // o
    [0x00, 0x00, 0x7c, 0x66, 0x7c, 0x60, 0x60, 0x00], // p
    [0x00, 0x00, 0x3e, 0x66, 0x3e, 0x06, 0x06, 0x00], // q
    [0x00, 0x00, 0x6c, 0x76, 0x60, 0x60, 0x60, 0x00], // r
    [0x00, 0x00, 0x3e, 0x60, 0x3c, 0x06, 0x7c, 0x00], // s
    [0x30, 0x30, 0x7c, 0x30, 0x30, 0x36, 0x1c, 0x00], // t
    [0x00, 0x00, 0x66, 0x66, 0x66, 0x66, 0x3e, 0x00], // u
    [0x00, 0x00, 0x66, 0x66, 0x66, 0x3c, 0x18, 0x00], // v
    [0x00, 0x00, 0x63, 0x6b, 0x6b, 0x7f, 0x36, 0x00], // w
    [0x00, 0x00, 0x66, 0x3c, 0x18, 0x3c, 0x66, 0x00], // x
    [0x00, 0x00, 0x66, 0x66, 0x3e, 0x06, 0x3c, 0x00], // y
    [0x00, 0x00, 0x7e, 0x0c, 0x18, 0x30, 0x7e, 0x00], // z
    [0x0e, 0x18, 0x18, 0x70, 0x18, 0x18, 0x0e, 0x00], // {
    [0x18, 0x18, 0x18, 0x00, 0x18, 0x18, 0x18, 0x00], // |
    [0x70, 0x18, 0x18, 0x0e, 0x18, 0x18, 0x70, 0x00], // }
    [0x76, 0xdc, 0x00, 0x00, 0x00, 0x00, 0x00, 0x00], // ~
];

/// The glyph of a character.
pub open spec fn glyph_of(character: char) -> [u8; 8] {
    if 0x20 <= character as u32 <= 0x7e {
        GLYPHS[character as u32 - 0x20]
    } else {
        FALLBACK_GLYPH
    }
}

/// The glyph of a character, the fallback where the font has none.
pub fn glyph(character: char) -> (result: [u8; 8])
    ensures
        result == glyph_of(character),
{
    let code: u32 = character as u32;
    if code >= 0x20 && code <= 0x7e {
        GLYPHS[(code - 0x20) as usize]
    } else {
        FALLBACK_GLYPH
    }
}

/// A size, as far as a `usize` can tell it.
pub open spec fn held(size: int) -> int {
    if size > usize::MAX {
        usize::MAX as int
    } else {
        size
    }
}

/// The length of the longest line from `index` on, where the line there has `current` characters
/// already.
pub open spec fn longest_line(text: Seq<char>, index: int, current: nat) -> nat
    decreases text.len() - index,
{
    if !(0 <= index < text.len()) {
        current
    } else if text[index] == '\n' {
        let rest = longest_line(text, index + 1, 0);
        if current < rest {
            rest
        } else {
            current
        }
    } else {
        longest_line(text, index + 1, current + 1)
    }
}

/// How many lines end from `index` on.
pub open spec fn line_ends(text: Seq<char>, index: int) -> nat
    decreases text.len() - index,
{
    if !(0 <= index < text.len()) {
        0
    } else {
        line_ends(text, index + 1) + if text[index] == '\n' {
            1nat
        } else {
            0nat
        }
    }
}

/// The width and the height of a text.
pub open spec fn extent_of(text: Seq<char>, scale: usize) -> (int, int) {
    if scale == 0 || text.len() == 0 {
        (0, 0)
    } else {
        (
            held(longest_line(text, 0, 0) * (8 * scale)),
            held((line_ends(text, 0) + 1) * (8 * scale)),
        )
    }
}

fn add_held(left: usize, right: usize) -> (result: usize)
    ensures
        result == held(left + right),
{
    match left.checked_add(right) {
        Some(sum) => sum,
        None => usize::MAX,
    }
}

fn multiply_held(left: usize, right: usize) -> (result: usize)
    ensures
        result == held(left * right),
{
    match left.checked_mul(right) {
        Some(product) => product,
        None => usize::MAX,
    }
}

proof fn lemma_held_product(unit: int, count: int)
    requires
        unit >= 1,
        count >= 0,
    ensures
        held(held(count * held(unit)) + held(unit)) == held((count + 1) * unit),
        held(held(unit) * held(count + 1)) == held((count + 1) * unit),
        0 <= count * unit,
{
    assert((count + 1) * unit == count * unit + unit) by (nonlinear_arith);
    assert(0 <= count * unit) by (nonlinear_arith)
        requires
            unit >= 1,
            count >= 0,
    ;
    let limit = usize::MAX as int;
    if unit > limit {
        assert(held(unit) == limit);
        assert(count * limit >= 0) by (nonlinear_arith)
            requires
                count >= 0,
                limit >= 0,
        ;
        assert(limit * held(count + 1) >= limit) by (nonlinear_arith)
            requires
                held(count + 1) >= 1,
                limit >= 0,
        ;
    } else if count + 1 > limit {
        assert((count + 1) * unit > limit) by (nonlinear_arith)
            requires
                count + 1 > limit,
                unit >= 1,
                limit >= 0,
        ;
        assert(unit * limit >= limit) by (nonlinear_arith)
            requires
                unit >= 1,
                limit >= 0,
        ;
    } else {
        assert(unit * (count + 1) == (count + 1) * unit) by (nonlinear_arith);
    }
}

proof fn lemma_held_total(unit: int, count: int)
    requires
        unit >= 1,
        count >= 0,
    ensures
        held(count * held(unit)) == held(count * unit),
{
    let limit = usize::MAX as int;
    if unit > limit {
        if count == 0 {
            assert(count * held(unit) == 0 && count * unit == 0) by (nonlinear_arith)
                requires
                    count == 0,
            ;
        } else {
            assert(count * unit > limit && count * limit >= limit) by (nonlinear_arith)
                requires
                    unit > limit,
                    count >= 1,
                    limit >= 0,
            ;
        }
    }
}

/// The width and the height of a text in pixels.
pub fn text_extent(text: &str, scale: usize) -> (result: (usize, usize))
    ensures
        (result.0 as int, result.1 as int) == extent_of(text@, scale),
{
    let list: Vec<char> = characters(text);
    if scale == 0 || list.len() == 0 {
        return (0, 0);
    }
    let advance: usize = multiply_held(GLYPH_WIDTH, scale);
    let ghost unit = 8 * scale;
    let mut width: usize = 0;
    let mut line_width: usize = 0;
    let mut lines: usize = 1;
    let mut i: usize = 0;
    let ghost mut current: nat = 0;
    let ghost mut longest: nat = 0;
    let ghost mut ended: nat = 0;
    proof {
        assert(0 * unit == 0 && 0 * held(unit) == 0) by (nonlinear_arith);
    }
    while i < list.len()
        invariant
            i <= list@.len(),
            list@ == text@,
            unit == 8 * scale,
            unit >= 8,
            advance == held(unit),
            line_width == held(current * unit),
            width == held(longest * unit),
            lines == held((ended + 1) as int),
            line_ends(text@, 0) == ended + line_ends(text@, i as int),
            longest_line(text@, 0, 0) == if longest < longest_line(text@, i as int, current) {
                longest_line(text@, i as int, current)
            } else {
                longest
            },
        decreases list@.len() - i,
    {
        if list[i] == '\n' {
            proof {
                lemma_ordered(unit, longest as int, current as int);
                assert(0 * unit == 0) by (nonlinear_arith);
                longest = if longest < current {
                    current
                } else {
                    longest
                };
                current = 0;
                ended = ended + 1;
            }
            if width < line_width {
                width = line_width;
            }
            line_width = 0;
            lines = add_held(lines, 1);
        } else {
            proof {
                lemma_held_product(unit, current as int);
                lemma_held_total(unit, current as int);
                current = current + 1;
            }
            line_width = add_held(line_width, advance);
        }
        i += 1;
    }
    proof {
        lemma_ordered(unit, longest as int, current as int);
        lemma_held_product(unit, ended as int);
    }
    if width < line_width {
        width = line_width;
    }
    (width, multiply_held(multiply_held(GLYPH_HEIGHT, scale), lines))
}

proof fn lemma_ordered(unit: int, left: int, right: int)
    requires
        unit >= 1,
        0 <= left,
        0 <= right,
    ensures
        left <= right ==> held(left * unit) <= held(right * unit),
        right <= left ==> held(right * unit) <= held(left * unit),
        0 <= left * unit,
        0 <= right * unit,
{
    assert(left <= right ==> left * unit <= right * unit) by (nonlinear_arith)
        requires
            unit >= 1,
    ;
    assert(right <= left ==> right * unit <= left * unit) by (nonlinear_arith)
        requires
            unit >= 1,
    ;
    assert(0 <= left * unit && 0 <= right * unit) by (nonlinear_arith)
        requires
            unit >= 1,
            0 <= left,
            0 <= right,
    ;
}

/// The weight of each pixel of a glyph's row, from left to right.
pub const PIXEL_WEIGHTS: [u8; 8] = [128, 64, 32, 16, 8, 4, 2, 1];

/// Whether a glyph has a pixel.
pub open spec fn has_pixel(rows: [u8; 8], row: int, column: int) -> bool {
    rows[row] / PIXEL_WEIGHTS[column] % 2 == 1
}

/// A coordinate, as far as 64 bits can tell it.
pub open spec fn on_plane(coordinate: int) -> int {
    if coordinate > i64::MAX {
        i64::MAX as int
    } else if coordinate < i64::MIN {
        i64::MIN as int
    } else {
        coordinate
    }
}

/// A coordinate, moved to the nearest one from zero to `limit`.
pub open spec fn clipped(coordinate: int, limit: int) -> int {
    if coordinate < 0 {
        0
    } else if coordinate > limit {
        limit
    } else {
        coordinate
    }
}

/// Where a text is drawn: the shape of the framebuffer, the corner and the scale.
pub struct Placement {
    pub width: int,
    pub height: int,
    pub x: int,
    pub y: int,
    pub scale: int,
}

impl Placement {
    /// The corner of the cell of the character at an index.
    pub open spec fn cursor(self, text: Seq<char>, index: int) -> (int, int)
        decreases index,
    {
        if index <= 0 {
            (self.x, self.y)
        } else {
            let (cursor_x, cursor_y) = self.cursor(text, index - 1);
            if text[index - 1] == '\n' {
                (self.x, on_plane(cursor_y + on_plane(8 * self.scale)))
            } else {
                (on_plane(cursor_x + on_plane(8 * self.scale)), cursor_y)
            }
        }
    }

    /// The first and the last column, and the first and the last row, that a pixel of a glyph
    /// covers, without the last ones.
    pub open spec fn block(self, cursor: (int, int), row: int, column: int) -> (int, int, int, int) {
        let left = on_plane(cursor.0 + on_plane(column * self.scale));
        let top = on_plane(cursor.1 + on_plane(row * self.scale));
        (
            clipped(left, self.width),
            clipped(on_plane(left + self.scale), self.width),
            clipped(top, self.height),
            clipped(on_plane(top + self.scale), self.height),
        )
    }

    /// The pixels that the first `count` cells of a glyph cover.
    pub open spec fn glyph_pixels(self, rows: [u8; 8], cursor: (int, int), count: int) -> Seq<
        (usize, usize),
    >
        decreases count,
    {
        if count <= 0 {
            Seq::empty()
        } else {
            let before = self.glyph_pixels(rows, cursor, count - 1);
            let row = (count - 1) / 8;
            let column = (count - 1) % 8;
            if has_pixel(rows, row, column) {
                let (left, right, top, bottom) = self.block(cursor, row, column);
                before + block_pixels(left, right, top, bottom)
            } else {
                before
            }
        }
    }

    /// The pixels that the first `count` characters of a text cover.
    pub open spec fn text_pixels(self, text: Seq<char>, count: int) -> Seq<(usize, usize)>
        decreases count,
    {
        if count <= 0 {
            Seq::empty()
        } else {
            let before = self.text_pixels(text, count - 1);
            if text[count - 1] == '\n' {
                before
            } else {
                before + self.glyph_pixels(
                    glyph_of(text[count - 1]),
                    self.cursor(text, count - 1),
                    64,
                )
            }
        }
    }

    /// Whether the pixel of a glyph in a cell covers a pixel of the framebuffer.
    pub open spec fn cell_covers(
        self,
        text: Seq<char>,
        index: int,
        cell: int,
        x: usize,
        y: usize,
    ) -> bool {
        let (left, right, top, bottom) = self.block(
            self.cursor(text, index),
            cell / 8,
            cell % 8,
        );
        &&& text[index] != '\n'
        &&& has_pixel(glyph_of(text[index]), cell / 8, cell % 8)
        &&& left <= x < right
        &&& top <= y < bottom
    }
}

/// The pixels of a row.
pub open spec fn row_pixels(left: int, right: int, y: int) -> Seq<(usize, usize)> {
    Seq::new(
        if left < right {
            (right - left) as nat
        } else {
            0
        },
        |i: int| ((left + i) as usize, y as usize),
    )
}

/// The pixels of a block, row after row.
pub open spec fn block_pixels(left: int, right: int, top: int, bottom: int) -> Seq<(usize, usize)>
    decreases bottom - top,
{
    if top >= bottom {
        Seq::empty()
    } else {
        block_pixels(left, right, top, bottom - 1) + row_pixels(left, right, bottom - 1)
    }
}

/// The placement of a text on a framebuffer.
pub open spec fn placement_of(width: usize, height: usize, x: i32, y: i32, scale: usize) -> Placement {
    Placement {
        width: width as int,
        height: height as int,
        x: x as int,
        y: y as int,
        scale: if scale > i64::MAX {
            i64::MAX as int
        } else {
            scale as int
        },
    }
}

/// The pixels that a text covers, in the order in which they are drawn.
pub open spec fn covered(
    width: usize,
    height: usize,
    x: i32,
    y: i32,
    text: Seq<char>,
    scale: usize,
) -> Seq<(usize, usize)> {
    if scale == 0 || width == 0 || height == 0 {
        Seq::empty()
    } else {
        placement_of(width, height, x, y, scale).text_pixels(text, text.len() as int)
    }
}

fn keep_on_plane(coordinate: i128) -> (result: i128)
    ensures
        result == on_plane(coordinate as int),
        i64::MIN <= result <= i64::MAX,
{
    if coordinate > 0x7fff_ffff_ffff_ffff {
        0x7fff_ffff_ffff_ffff
    } else if coordinate < -0x8000_0000_0000_0000 {
        -0x8000_0000_0000_0000
    } else {
        coordinate
    }
}

fn clip(coordinate: i128, limit: usize) -> (result: usize)
    ensures
        result == clipped(coordinate as int, limit as int),
        result <= limit,
{
    if coordinate < 0 {
        0
    } else if coordinate > limit as i128 {
        limit
    } else {
        coordinate as usize
    }
}

fn push_block(
    pixels: &mut Vec<(usize, usize)>,
    left: usize,
    right: usize,
    top: usize,
    bottom: usize,
)
    ensures
        final(pixels)@ == old(pixels)@ + block_pixels(
            left as int,
            right as int,
            top as int,
            bottom as int,
        ),
{
    let ghost start = pixels@;
    let mut y: usize = top;
    assert(start + Seq::empty() =~= start);
    while y < bottom
        invariant
            top <= y,
            top < bottom ==> y <= bottom,
            top >= bottom ==> y == top,
            pixels@ == start + block_pixels(left as int, right as int, top as int, y as int),
        decreases bottom - y,
    {
        let ghost before = pixels@;
        let mut x: usize = left;
        while x < right
            invariant
                left <= x,
                left < right ==> x <= right,
                left >= right ==> x == left,
                pixels@ =~= before + row_pixels(left as int, x as int, y as int),
            decreases right - x,
        {
            pixels.push((x, y));
            x += 1;
        }
        proof {
            assert(row_pixels(left as int, x as int, y as int) =~= row_pixels(
                left as int,
                right as int,
                y as int,
            ));
            let rows = block_pixels(left as int, right as int, top as int, y as int);
            let row = row_pixels(left as int, right as int, y as int);
            assert((start + rows) + row =~= start + (rows + row));
        }
        y += 1;
    }
    assert(block_pixels(left as int, right as int, top as int, bottom as int) == block_pixels(
        left as int,
        right as int,
        top as int,
        y as int,
    ));
}

/// Where a text is drawn.
struct Place {
    width: usize,
    height: usize,
    x: i128,
    y: i128,
    scale: i128,
}

impl Place {
    spec fn placement(self) -> Placement {
        Placement {
            width: self.width as int,
            height: self.height as int,
            x: self.x as int,
            y: self.y as int,
            scale: self.scale as int,
        }
    }

    spec fn sound(self) -> bool {
        &&& 0 < self.scale <= i64::MAX
        &&& i64::MIN <= self.x <= i64::MAX
        &&& i64::MIN <= self.y <= i64::MAX
    }

    fn push_glyph(&self, pixels: &mut Vec<(usize, usize)>, rows: [u8; 8], x: i128, y: i128)
        requires
            self.sound(),
            i64::MIN <= x <= i64::MAX,
            i64::MIN <= y <= i64::MAX,
        ensures
            final(pixels)@ == old(pixels)@ + self.placement().glyph_pixels(
                rows,
                (x as int, y as int),
                64,
            ),
    {
        let ghost start = pixels@;
        let ghost cursor = (x as int, y as int);
        let mut cell: usize = 0;
        assert(start + Seq::empty() =~= start);
        while cell < 64
            invariant
                cell <= 64,
                self.sound(),
                cursor == (x as int, y as int),
                i64::MIN <= x <= i64::MAX,
                i64::MIN <= y <= i64::MAX,
                pixels@ == start + self.placement().glyph_pixels(rows, cursor, cell as int),
            decreases 64 - cell,
        {
            let row: usize = cell / 8;
            let column: usize = cell % 8;
            assert(PIXEL_WEIGHTS[column as int] > 0);
            if rows[row] / PIXEL_WEIGHTS[column] % 2 == 1 {
                assert(column * self.scale <= 7 * self.scale && 0 <= column * self.scale)
                    by (nonlinear_arith)
                    requires
                        0 <= column <= 7,
                        self.scale > 0,
                ;
                assert(row * self.scale <= 7 * self.scale && 0 <= row * self.scale)
                    by (nonlinear_arith)
                    requires
                        0 <= row <= 7,
                        self.scale > 0,
                ;
                let left: i128 = keep_on_plane(x + keep_on_plane(column as i128 * self.scale));
                let top: i128 = keep_on_plane(y + keep_on_plane(row as i128 * self.scale));
                let right: i128 = keep_on_plane(left + self.scale);
                let bottom: i128 = keep_on_plane(top + self.scale);
                let ghost before = pixels@;
                push_block(
                    pixels,
                    clip(left, self.width),
                    clip(right, self.width),
                    clip(top, self.height),
                    clip(bottom, self.height),
                );
                proof {
                    let done = self.placement().glyph_pixels(rows, cursor, cell as int);
                    let (a, b, c, d) = self.placement().block(cursor, row as int, column as int);
                    assert((start + done) + block_pixels(a, b, c, d) =~= start + (done
                        + block_pixels(a, b, c, d)));
                }
            }
            cell += 1;
        }
    }
}

/// The pixels that a text covers, in the order in which they are drawn. The corner is in pixels;
/// each pixel of a glyph is a square of `scale` by `scale`, clipped at the edges.
pub fn text_pixels(width: usize, height: usize, x: i32, y: i32, text: &str, scale: usize) -> (result:
    Vec<(usize, usize)>)
    ensures
        result@ == covered(width, height, x, y, text@, scale),
{
    let mut pixels: Vec<(usize, usize)> = Vec::new();
    if scale == 0 || width == 0 || height == 0 {
        return pixels;
    }
    let list: Vec<char> = characters(text);
    let place: Place = Place {
        width,
        height,
        x: x as i128,
        y: y as i128,
        scale: if scale as i128 > 0x7fff_ffff_ffff_ffff {
            0x7fff_ffff_ffff_ffff
        } else {
            scale as i128
        },
    };
    let ghost placement = placement_of(width, height, x, y, scale);
    let advance: i128 = keep_on_plane(8 * place.scale);
    let mut cursor_x: i128 = place.x;
    let mut cursor_y: i128 = place.y;
    let mut i: usize = 0;
    while i < list.len()
        invariant
            i <= list@.len(),
            list@ == text@,
            place.sound(),
            placement == place.placement(),
            advance == on_plane(8 * place.scale),
            i64::MIN <= advance <= i64::MAX,
            i64::MIN <= cursor_x <= i64::MAX,
            i64::MIN <= cursor_y <= i64::MAX,
            (cursor_x as int, cursor_y as int) == placement.cursor(text@, i as int),
            pixels@ == placement.text_pixels(text@, i as int),
        decreases list@.len() - i,
    {
        if list[i] == '\n' {
            cursor_x = place.x;
            cursor_y = keep_on_plane(cursor_y + advance);
        } else {
            place.push_glyph(&mut pixels, glyph(list[i]), cursor_x, cursor_y);
            cursor_x = keep_on_plane(cursor_x + advance);
        }
        i += 1;
    }
    pixels
}

proof fn lemma_row_holds(left: int, right: int, y: int, px: usize, py: usize)
    requires
        0 <= left,
        right <= usize::MAX,
        0 <= y <= usize::MAX,
    ensures
        row_pixels(left, right, y).contains((px, py)) <==> left <= px < right && py == y,
{
    let row = row_pixels(left, right, y);
    if left <= px < right && py == y {
        assert(row[px - left] == (px, py));
    }
}

proof fn lemma_concatenation_holds<A>(first: Seq<A>, second: Seq<A>, value: A)
    ensures
        (first + second).contains(value) <==> first.contains(value) || second.contains(value),
{
    let all = first + second;
    if first.contains(value) {
        let at = choose|at: int| 0 <= at < first.len() && first[at] == value;
        assert(all[at] == value);
    }
    if second.contains(value) {
        let at = choose|at: int| 0 <= at < second.len() && second[at] == value;
        assert(all[first.len() + at] == value);
    }
    if all.contains(value) {
        let at = choose|at: int| 0 <= at < all.len() && all[at] == value;
        if at < first.len() {
            assert(first[at] == value);
        } else {
            assert(second[at - first.len()] == value);
        }
    }
}

proof fn lemma_block_holds(left: int, right: int, top: int, bottom: int, px: usize, py: usize)
    requires
        0 <= left,
        right <= usize::MAX,
        0 <= top,
        bottom <= usize::MAX,
    ensures
        block_pixels(left, right, top, bottom).contains((px, py)) <==> left <= px < right && top
            <= py < bottom,
    decreases bottom - top,
{
    if top < bottom {
        lemma_block_holds(left, right, top, bottom - 1, px, py);
        lemma_row_holds(left, right, bottom - 1, px, py);
        lemma_concatenation_holds(
            block_pixels(left, right, top, bottom - 1),
            row_pixels(left, right, bottom - 1),
            (px, py),
        );
    }
}

proof fn lemma_glyph_holds(
    placement: Placement,
    text: Seq<char>,
    index: int,
    count: int,
    px: usize,
    py: usize,
)
    requires
        0 <= placement.width <= usize::MAX,
        0 <= placement.height <= usize::MAX,
        text[index] != '\n',
    ensures
        placement.glyph_pixels(
            glyph_of(text[index]),
            placement.cursor(text, index),
            count,
        ).contains((px, py)) <==> exists|cell: int|
            0 <= cell < count && #[trigger] placement.cell_covers(text, index, cell, px, py),
    decreases count,
{
    let rows = glyph_of(text[index]);
    let cursor = placement.cursor(text, index);
    if count > 0 {
        lemma_glyph_holds(placement, text, index, count - 1, px, py);
        let before = placement.glyph_pixels(rows, cursor, count - 1);
        let (left, right, top, bottom) = placement.block(cursor, (count - 1) / 8, (count - 1) % 8);
        lemma_block_holds(left, right, top, bottom, px, py);
        lemma_concatenation_holds(before, block_pixels(left, right, top, bottom), (px, py));
        let all = placement.glyph_pixels(rows, cursor, count);
        if all.contains((px, py)) && !before.contains((px, py)) {
            assert(placement.cell_covers(text, index, count - 1, px, py));
        }
        if before.contains((px, py)) {
            let cell = choose|cell: int|
                0 <= cell < count - 1 && #[trigger] placement.cell_covers(text, index, cell, px, py);
            assert(placement.cell_covers(text, index, cell, px, py));
        }
        if exists|cell: int|
            0 <= cell < count && #[trigger] placement.cell_covers(text, index, cell, px, py) {
            let cell = choose|cell: int|
                0 <= cell < count && #[trigger] placement.cell_covers(text, index, cell, px, py);
            if cell < count - 1 {
                assert(before.contains((px, py)));
            }
        }
    }
}

proof fn lemma_text_holds(
    placement: Placement,
    text: Seq<char>,
    count: int,
    px: usize,
    py: usize,
)
    requires
        0 <= placement.width <= usize::MAX,
        0 <= placement.height <= usize::MAX,
        0 <= count <= text.len(),
    ensures
        placement.text_pixels(text, count).contains((px, py)) <==> exists|index: int, cell: int|
            0 <= index < count && 0 <= cell < 64 && #[trigger] placement.cell_covers(
                text,
                index,
                cell,
                px,
                py,
            ),
    decreases count,
{
    if count > 0 {
        lemma_text_holds(placement, text, count - 1, px, py);
        let before = placement.text_pixels(text, count - 1);
        let last = count - 1;
        if text[last] != '\n' {
            let added = placement.glyph_pixels(
                glyph_of(text[last]),
                placement.cursor(text, last),
                64,
            );
            lemma_glyph_holds(placement, text, last, 64, px, py);
            lemma_concatenation_holds(before, added, (px, py));
            if added.contains((px, py)) {
                let cell = choose|cell: int|
                    0 <= cell < 64 && #[trigger] placement.cell_covers(text, last, cell, px, py);
                assert(placement.cell_covers(text, last, cell, px, py));
            }
        }
        if before.contains((px, py)) {
            let (index, cell) = choose|index: int, cell: int|
                0 <= index < count - 1 && 0 <= cell < 64 && #[trigger] placement.cell_covers(
                    text,
                    index,
                    cell,
                    px,
                    py,
                );
            assert(placement.cell_covers(text, index, cell, px, py));
        }
        if exists|index: int, cell: int|
            0 <= index < count && 0 <= cell < 64 && #[trigger] placement.cell_covers(
                text,
                index,
                cell,
                px,
                py,
            ) {
            let (index, cell) = choose|index: int, cell: int|
                0 <= index < count && 0 <= cell < 64 && #[trigger] placement.cell_covers(
                    text,
                    index,
                    cell,
                    px,
                    py,
                );
            if index < count - 1 {
                assert(before.contains((px, py)));
            }
        }
    }
}

/// A text covers a pixel of the framebuffer exactly if a pixel of one of its glyphs, scaled and
/// clipped, lies on it.
pub proof fn law_text_covers_its_glyphs(
    width: usize,
    height: usize,
    x: i32,
    y: i32,
    text: Seq<char>,
    scale: usize,
    px: usize,
    py: usize,
)
    requires
        scale > 0,
        width > 0,
        height > 0,
    ensures
        covered(width, height, x, y, text, scale).contains((px, py)) <==> exists|
            index: int,
            cell: int,
        |
            0 <= index < text.len() && 0 <= cell < 64 && #[trigger] placement_of(
                width,
                height,
                x,
                y,
                scale,
            ).cell_covers(text, index, cell, px, py),
        covered(width, height, x, y, text, scale).contains((px, py)) ==> px < width && py < height,
{
    lemma_text_holds(
        placement_of(width, height, x, y, scale),
        text,
        text.len() as int,
        px,
        py,
    );
}

/// A line of the overlay.
#[derive(Debug, PartialEq, Eq)]
pub struct HudLine {
    pub x: i32,
    pub y: i32,
    pub text: String,
    pub scale: usize,
    pub color: u32,
}

/// A line of the overlay as mathematics.
#[verifier::ext_equal]
pub struct HudModel {
    pub x: int,
    pub y: int,
    pub text: Seq<char>,
    pub scale: int,
    pub color: int,
}

impl View for HudLine {
    type V = HudModel;

    open spec fn view(&self) -> HudModel {
        HudModel {
            x: self.x as int,
            y: self.y as int,
            text: self.text@,
            scale: self.scale as int,
            color: self.color as int,
        }
    }
}

/// A number with at least four digits.
pub open spec fn four_digits(number: nat) -> Seq<char> {
    if number < 10 {
        "000"@ + decimal_digits(number)
    } else if number < 100 {
        "00"@ + decimal_digits(number)
    } else if number < 1000 {
        "0"@ + decimal_digits(number)
    } else {
        decimal_digits(number)
    }
}

/// A line of the overlay in white.
pub open spec fn white_line(y: int, text: Seq<char>, scale: int) -> HudModel {
    HudModel { x: 16, y, text, scale, color: pixel_value(255, 235, 240, 255) }
}

/// The overlay: a title, the frame number, and all printable characters.
pub open spec fn hud(frame_number: u32) -> Seq<HudModel> {
    seq![
        white_line(8, "CHIMY2 PBR / BITMAP HUD"@, 2),
        HudModel {
            x: 16,
            y: 30,
            text: "FRAME "@ + four_digits(frame_number as nat),
            scale: 1,
            color: pixel_value(255, 255, 196, 96),
        },
        white_line(42, " !\"#$%&'()*+,-./0123456789:;<=>?"@, 1),
        white_line(52, "@ABCDEFGHIJKLMNOPQRSTUVWXYZ[\\]^_"@, 1),
        white_line(62, "`abcdefghijklmnopqrstuvwxyz{|}~"@, 1),
    ]
}

/// The views of a list of lines.
pub open spec fn hud_models(lines: Seq<HudLine>) -> Seq<HudModel> {
    Seq::new(lines.len(), |i: int| lines[i]@)
}

fn make_line(y: i32, text: &str, scale: usize) -> (result: HudLine)
    ensures
        result@ == white_line(y as int, text@, scale as int),
{
    HudLine { x: 16, y, text: text.to_owned(), scale, color: argb8888(255, 235, 240, 255) }
}

/// The lines of the overlay, in the order in which they are drawn.
pub fn ascii_hud(frame_number: u32) -> (result: Vec<HudLine>)
    ensures
        hud_models(result@) == hud(frame_number),
{
    let digits: String = decimal_text(frame_number as u64);
    let counter: String = if frame_number < 10 {
        join3("FRAME ", "000", digits.as_str())
    } else if frame_number < 100 {
        join3("FRAME ", "00", digits.as_str())
    } else if frame_number < 1000 {
        join3("FRAME ", "0", digits.as_str())
    } else {
        join2("FRAME ", digits.as_str())
    };
    assert(counter@ =~= "FRAME "@ + four_digits(frame_number as nat));
    let mut lines: Vec<HudLine> = Vec::new();
    lines.push(make_line(8, "CHIMY2 PBR / BITMAP HUD", 2));
    lines.push(HudLine { x: 16, y: 30, text: counter, scale: 1, color: argb8888(255, 255, 196, 96) });
    lines.push(make_line(42, " !\"#$%&'()*+,-./0123456789:;<=>?", 1));
    lines.push(make_line(52, "@ABCDEFGHIJKLMNOPQRSTUVWXYZ[\\]^_", 1));
    lines.push(make_line(62, "`abcdefghijklmnopqrstuvwxyz{|}~", 1));
    assert(hud_models(lines@) =~= hud(frame_number));
    lines
}

} // verus!
