//! Ordered dithering where linear light becomes eight bits.
//!
//! Smooth gradients show bands in eight bits. A matrix of 64 phases breaks each step, so that
//! neighboring pixels alternate between the two values around it. The pattern is a fixed table of
//! integers, so every machine gives the same picture. The offset is added to the encoded channel,
//! before it is rounded.

use crate::float::Float32;
use vstd::prelude::*;

verus! {

/// The phases of the matrix, row after row.
pub const BAYER_8X8: [[u8; 8]; 8] = [
    [0, 48, 12, 60, 3, 51, 15, 63],
    [32, 16, 44, 28, 35, 19, 47, 31],
    [8, 56, 4, 52, 11, 59, 7, 55],
    [40, 24, 36, 20, 43, 27, 39, 23],
    [2, 50, 14, 62, 1, 49, 13, 61],
    [34, 18, 46, 30, 33, 17, 45, 29],
    [10, 58, 6, 54, 9, 57, 5, 53],
    [42, 26, 38, 22, 41, 25, 37, 21],
];

/// The amplitude of the offset, in steps of a channel: one.
pub const DITHER_AMPLITUDE: u32 = 0x3f80_0000;

/// For each phase the cell that has it, counted row after row.
pub const BAYER_CELLS: [u8; 64] = [
    0, 36, 32, 4, 18, 54, 50, 22, 16, 52, 48, 20, 2, 38, 34, 6,
    9, 45, 41, 13, 27, 63, 59, 31, 25, 61, 57, 29, 11, 47, 43, 15,
    8, 44, 40, 12, 26, 62, 58, 30, 24, 60, 56, 28, 10, 46, 42, 14,
    1, 37, 33, 5, 19, 55, 51, 23, 17, 53, 49, 21, 3, 39, 35, 7,
];

/// The phase of a pixel.
pub open spec fn phase(x: int, y: int) -> u8 {
    BAYER_8X8[y % 8][x % 8]
}

/// The offset of a pixel, in 128ths of a step: the phases are the centers of 64 bins around zero.
pub open spec fn offset_in_parts(x: int, y: int) -> int {
    2 * phase(x, y) - 63
}

/// The offset of a pixel, in steps.
pub open spec fn offset_of(x: int, y: int) -> Float32 {
    let parts = offset_in_parts(x, y);
    Float32::of_integer(
        parts < 0,
        if parts < 0 {
            (-parts) as nat
        } else {
            parts as nat
        },
    ).quotient(128)
}

/// The offset of a pixel, in steps of a channel.
pub fn bayer_offset(x: usize, y: usize) -> (result: Float32)
    ensures
        result == offset_of(x as int, y as int),
{
    let value: u8 = BAYER_8X8[y % 8][x % 8];
    let doubled: u64 = 2 * value as u64;
    let whole: Float32 = if doubled < 63 {
        Float32::from_integer(true, 63 - doubled)
    } else {
        Float32::from_integer(false, doubled - 63)
    };
    whole.divide_by(128)
}

/// The pattern repeats after eight pixels in each direction.
pub proof fn law_offsets_repeat(x: int, y: int, columns: int, rows: int)
    ensures
        offset_of(x + 8 * columns, y + 8 * rows) == offset_of(x, y),
{
    assert((x + 8 * columns) % 8 == x % 8);
    assert((y + 8 * rows) % 8 == y % 8);
}

proof fn lemma_row_0(column: int)
    requires
        0 <= column < 8,
    ensures
        BAYER_8X8[0][column] < 64,
        BAYER_CELLS[BAYER_8X8[0][column] as int] == 0 + column,
{
}

proof fn lemma_row_1(column: int)
    requires
        0 <= column < 8,
    ensures
        BAYER_8X8[1][column] < 64,
        BAYER_CELLS[BAYER_8X8[1][column] as int] == 8 + column,
{
}

proof fn lemma_row_2(column: int)
    requires
        0 <= column < 8,
    ensures
        BAYER_8X8[2][column] < 64,
        BAYER_CELLS[BAYER_8X8[2][column] as int] == 16 + column,
{
}

proof fn lemma_row_3(column: int)
    requires
        0 <= column < 8,
    ensures
        BAYER_8X8[3][column] < 64,
        BAYER_CELLS[BAYER_8X8[3][column] as int] == 24 + column,
{
}

proof fn lemma_row_4(column: int)
    requires
        0 <= column < 8,
    ensures
        BAYER_8X8[4][column] < 64,
        BAYER_CELLS[BAYER_8X8[4][column] as int] == 32 + column,
{
}

proof fn lemma_row_5(column: int)
    requires
        0 <= column < 8,
    ensures
        BAYER_8X8[5][column] < 64,
        BAYER_CELLS[BAYER_8X8[5][column] as int] == 40 + column,
{
}

proof fn lemma_row_6(column: int)
    requires
        0 <= column < 8,
    ensures
        BAYER_8X8[6][column] < 64,
        BAYER_CELLS[BAYER_8X8[6][column] as int] == 48 + column,
{
}

proof fn lemma_row_7(column: int)
    requires
        0 <= column < 8,
    ensures
        BAYER_8X8[7][column] < 64,
        BAYER_CELLS[BAYER_8X8[7][column] as int] == 56 + column,
{
}

proof fn lemma_cell(row: int, column: int)
    requires
        0 <= row < 8,
        0 <= column < 8,
    ensures
        BAYER_8X8[row][column] < 64,
        BAYER_CELLS[BAYER_8X8[row][column] as int] == 8 * row + column,
{
    if row == 0 {
        lemma_row_0(column);
    } else if row == 1 {
        lemma_row_1(column);
    } else if row == 2 {
        lemma_row_2(column);
    } else if row == 3 {
        lemma_row_3(column);
    } else if row == 4 {
        lemma_row_4(column);
    } else if row == 5 {
        lemma_row_5(column);
    } else if row == 6 {
        lemma_row_6(column);
    } else if row == 7 {
        lemma_row_7(column);
    }
}

/// Every phase lies below 64, and no two cells of the matrix have the same one: so the 64 cells
/// have the 64 phases.
pub proof fn law_phases_are_distinct(x: int, y: int, other_x: int, other_y: int)
    requires
        0 <= x < 8,
        0 <= y < 8,
        0 <= other_x < 8,
        0 <= other_y < 8,
    ensures
        phase(x, y) < 64,
        phase(x, y) == phase(other_x, other_y) ==> x == other_x && y == other_y,
{
    lemma_cell(y, x);
    lemma_cell(other_y, other_x);
}

/// Every phase is that of a cell.
pub proof fn law_every_phase_occurs(value: int)
    requires
        0 <= value < 64,
    ensures
        BAYER_CELLS[value] < 64,
        phase(BAYER_CELLS[value] as int % 8, BAYER_CELLS[value] as int / 8) == value,
{
}

/// Every offset is less than half a step.
pub proof fn law_offsets_stay_within_half_a_step(x: int, y: int)
    ensures
        -64 < offset_in_parts(x, y) < 64,
{
    lemma_cell(y % 8, x % 8);
}

} // verus!
