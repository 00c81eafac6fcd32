//! How the maps of image-based lighting are read: between pixels, and between levels.

use crate::float::{Float32, HALF, ONE};
use crate::ibl::{
    pixel_place, CubeFace, CubeModel, EnvironmentBrdfLut, FloatCube, LutModel,
    PrefilteredEnvironment,
};
use crate::math::{Vec2, Vec3};
use vstd::prelude::*;

verus! {

/// No cell lies farther from the first one.
pub const CELL_LIMIT: u64 = 0x4000_0000_0000_0000;

/// The cell that a coordinate lies in: the largest integer that is not above it.
pub open spec fn cell_of(coordinate: Float32) -> int {
    let floor = coordinate.floored();
    if floor.less(Float32 { bits: 0 }) {
        -(floor.opposite().truncated(CELL_LIMIT as nat) as int)
    } else {
        floor.truncated(CELL_LIMIT as nat) as int
    }
}

fn find_cell(coordinate: Float32) -> (result: i64)
    ensures
        result == cell_of(coordinate),
        -0x4000_0000_0000_0000 <= result <= 0x4000_0000_0000_0000,
{
    let floor: Float32 = coordinate.floor();
    if floor.is_less(Float32 { bits: 0 }) {
        let below: u64 = floor.negate().truncate_to(CELL_LIMIT);
        -(below as i64)
    } else {
        floor.truncate_to(CELL_LIMIT) as i64
    }
}

/// Where a share of a row lies among the centers of its pixels.
pub open spec fn center_coordinate(share: Float32, size: usize) -> Float32 {
    share.clamped_to_unit() * Float32::of_integer(false, size as nat) - (Float32 { bits: HALF })
}

fn find_center_coordinate(share: Float32, size: usize) -> (result: Float32)
    ensures
        result == center_coordinate(share, size),
{
    share.clamp_to_unit() * Float32::from_integer(false, size as u64) - Float32 { bits: HALF }
}

/// The mean of two colors.
pub open spec fn color_between(left: Vec3, right: Vec3, share: Float32) -> Vec3 {
    left * ((Float32 { bits: ONE }) - share) + right * share
}

fn mix_colors(left: Vec3, right: Vec3, share: Float32) -> (result: Vec3)
    ensures
        result == color_between(left, right, share),
{
    left * (Float32 { bits: ONE } - share) + right * share
}

impl CubeModel {
    /// The color at a place on a face, from the four nearest pixels.
    pub open spec fn color_at(self, face: CubeFace, uv: Vec2) -> Vec3 {
        let x = center_coordinate(uv.x, self.size);
        let y = center_coordinate(uv.y, self.size);
        let across = x - x.floored();
        let down = y - y.floored();
        let column = cell_of(x);
        let row = cell_of(y);
        color_between(
            color_between(
                self.color(face, column, row),
                self.color(face, column + 1, row),
                across,
            ),
            color_between(
                self.color(face, column, row + 1),
                self.color(face, column + 1, row + 1),
                across,
            ),
            down,
        )
    }
}

impl FloatCube {
    /// The color at a place on a face, from the four nearest pixels.
    pub fn sample_face(&self, face: CubeFace, uv: Vec2) -> (result: Vec3)
        requires
            self@.sound(),
        ensures
            result == self@.color_at(face, uv),
    {
        let x: Float32 = find_center_coordinate(uv.x, self.size());
        let y: Float32 = find_center_coordinate(uv.y, self.size());
        let column: i64 = find_cell(x);
        let row: i64 = find_cell(y);
        let across: Float32 = x - x.floor();
        let down: Float32 = y - y.floor();
        let top: Vec3 = mix_colors(
            self.pixel_signed(face, column, row),
            self.pixel_signed(face, column + 1, row),
            across,
        );
        let bottom: Vec3 = mix_colors(
            self.pixel_signed(face, column, row + 1),
            self.pixel_signed(face, column + 1, row + 1),
            across,
        );
        mix_colors(top, bottom, down)
    }
}

/// The color of a chain of cubes at a place on a face, between the two levels nearest to a
/// roughness.
pub open spec fn chain_color(
    levels: Seq<CubeModel>,
    face: CubeFace,
    uv: Vec2,
    roughness: Float32,
) -> Vec3 {
    let last = levels.len() - 1;
    if last == 0 {
        levels[0].color_at(face, uv)
    } else {
        let position = roughness.clamped_to_unit() * Float32::of_integer(false, last as nat);
        let lower = position.floored().truncated(last as nat);
        let upper = if lower + 1 < last {
            lower as int + 1
        } else {
            last
        };
        color_between(
            levels[lower as int].color_at(face, uv),
            levels[upper].color_at(face, uv),
            position - Float32::of_integer(false, lower),
        )
    }
}

impl PrefilteredEnvironment {
    /// The color at a place on a face, between the two levels nearest to a roughness.
    pub fn sample_face(&self, face: CubeFace, uv: Vec2, roughness: Float32) -> (result: Vec3)
        requires
            self@.len() >= 1,
            forall|i: int| 0 <= i < self@.len() ==> (#[trigger] self@[i]).sound(),
        ensures
            result == chain_color(self@, face, uv, roughness),
    {
        let last: usize = self.level_count() - 1;
        let position: Float32 = roughness.clamp_to_unit() * Float32::from_integer(
            false,
            last as u64,
        );
        let lower: usize = position.floor().truncate_to(last as u64) as usize;
        let upper: usize = if lower + 1 < last {
            lower + 1
        } else {
            last
        };
        assert(self@[lower as int].sound() && self@[upper as int].sound() && self@[0].sound());
        match (self.level(0), self.level(lower), self.level(upper)) {
            (Some(first), Some(low), Some(high)) => {
                if last == 0 {
                    return first.sample_face(face, uv);
                }
                mix_colors(
                    low.sample_face(face, uv),
                    high.sample_face(face, uv),
                    position - Float32::from_integer(false, lower as u64),
                )
            },
            _ => {
                assert(false);
                Vec3 {
                    x: Float32 { bits: 0 },
                    y: Float32 { bits: 0 },
                    z: Float32 { bits: 0 },
                }
            },
        }
    }
}

/// The mean of two entries.
pub open spec fn entry_between(left: Vec2, right: Vec2, share: Float32) -> Vec2 {
    left * ((Float32 { bits: ONE }) - share) + right * share
}

fn mix_entries(left: Vec2, right: Vec2, share: Float32) -> (result: Vec2)
    ensures
        result == entry_between(left, right, share),
{
    left * (Float32 { bits: ONE } - share) + right * share
}

impl LutModel {
    /// The entry at a column and row; outside the table, the nearest one.
    pub open spec fn entry(self, x: int, y: int) -> Vec2 {
        self.pixels[pixel_place(self.size as int, x, y)]
    }

    /// What a surface makes of its surroundings, from the four nearest entries.
    pub open spec fn value_at(self, n_dot_v: Float32, roughness: Float32) -> Vec2 {
        let x = center_coordinate(n_dot_v, self.size);
        let y = center_coordinate(roughness, self.size);
        let across = x - x.floored();
        let down = y - y.floored();
        let column = cell_of(x);
        let row = cell_of(y);
        entry_between(
            entry_between(self.entry(column, row), self.entry(column + 1, row), across),
            entry_between(self.entry(column, row + 1), self.entry(column + 1, row + 1), across),
            down,
        )
    }
}

impl EnvironmentBrdfLut {
    /// What a surface makes of its surroundings: by the cosine of the angle of view across, and
    /// by the roughness down.
    pub fn sample(&self, n_dot_v: Float32, roughness: Float32) -> (result: Vec2)
        requires
            self@.sound(),
        ensures
            result == self@.value_at(n_dot_v, roughness),
    {
        let x: Float32 = find_center_coordinate(n_dot_v, self.size());
        let y: Float32 = find_center_coordinate(roughness, self.size());
        let column: i64 = find_cell(x);
        let row: i64 = find_cell(y);
        let across: Float32 = x - x.floor();
        let down: Float32 = y - y.floor();
        let top: Vec2 = mix_entries(
            self.pixel_signed(column, row),
            self.pixel_signed(column + 1, row),
            across,
        );
        let bottom: Vec2 = mix_entries(
            self.pixel_signed(column, row + 1),
            self.pixel_signed(column + 1, row + 1),
            across,
        );
        mix_entries(top, bottom, down)
    }
}

} // verus!
