//! The maps of image-based lighting: their settings, the faces of a cube and what is stored for
//! each, and the sequence that samples are taken by.

use crate::culling::{greatest, maximum};
use crate::float::{Float32, ONE};
use crate::math::{Vec2, Vec3};
use vstd::arithmetic::power2::{
    lemma2_to64, lemma_pow2_adds, lemma_pow2_pos, lemma_pow2_strictly_increases, pow2,
};
use vstd::prelude::*;

verus! {

/// How the maps are made.
///
/// The defaults are small faces and fixed numbers of samples. Larger ones give a better picture.
/// Nothing is random.
#[derive(Clone, Copy, Debug, PartialEq, Eq, Structural)]
pub struct IblSettings {
    pub irradiance_size: usize,
    pub irradiance_samples: usize,
    pub prefilter_size: usize,
    pub prefilter_levels: usize,
    pub prefilter_samples: usize,
    pub brdf_size: usize,
    pub brdf_samples: usize,
}

impl Default for IblSettings {
    fn default() -> (result: IblSettings)
        ensures
            result == (IblSettings {
                irradiance_size: 16,
                irradiance_samples: 64,
                prefilter_size: 32,
                prefilter_levels: 5,
                prefilter_samples: 64,
                brdf_size: 64,
                brdf_samples: 64,
            }),
    {
        IblSettings {
            irradiance_size: 16,
            irradiance_samples: 64,
            prefilter_size: 32,
            prefilter_levels: 5,
            prefilter_samples: 64,
            brdf_size: 64,
            brdf_samples: 64,
        }
    }
}

/// A size or number, one at least.
pub open spec fn at_least_one(value: usize) -> usize {
    if value < 1 {
        1
    } else {
        value
    }
}

fn raise_to_one(value: usize) -> (result: usize)
    ensures
        result == at_least_one(value),
{
    if value < 1 {
        1
    } else {
        value
    }
}

impl IblSettings {
    /// Small settings, to be looked at by hand.
    pub fn test() -> (result: IblSettings)
        ensures
            result == (IblSettings {
                irradiance_size: 2,
                irradiance_samples: 16,
                prefilter_size: 2,
                prefilter_levels: 3,
                prefilter_samples: 16,
                brdf_size: 8,
                brdf_samples: 32,
            }),
    {
        IblSettings {
            irradiance_size: 2,
            irradiance_samples: 16,
            prefilter_size: 2,
            prefilter_levels: 3,
            prefilter_samples: 16,
            brdf_size: 8,
            brdf_samples: 32,
        }
    }

    /// The settings with one of everything at least.
    pub open spec fn usable(self) -> IblSettings {
        IblSettings {
            irradiance_size: at_least_one(self.irradiance_size),
            irradiance_samples: at_least_one(self.irradiance_samples),
            prefilter_size: at_least_one(self.prefilter_size),
            prefilter_levels: at_least_one(self.prefilter_levels),
            prefilter_samples: at_least_one(self.prefilter_samples),
            brdf_size: at_least_one(self.brdf_size),
            brdf_samples: at_least_one(self.brdf_samples),
        }
    }

    /// The settings with one of everything at least.
    pub fn sanitized(self) -> (result: IblSettings)
        ensures
            result == self.usable(),
    {
        IblSettings {
            irradiance_size: raise_to_one(self.irradiance_size),
            irradiance_samples: raise_to_one(self.irradiance_samples),
            prefilter_size: raise_to_one(self.prefilter_size),
            prefilter_levels: raise_to_one(self.prefilter_levels),
            prefilter_samples: raise_to_one(self.prefilter_samples),
            brdf_size: raise_to_one(self.brdf_size),
            brdf_samples: raise_to_one(self.brdf_samples),
        }
    }
}

/// Settings that can be used stay as they are.
pub proof fn law_usable_settings_are_kept(settings: IblSettings)
    ensures
        settings.usable().usable() == settings.usable(),
{
}

/// A face of a cube.
#[derive(Clone, Copy, Debug, PartialEq, Eq, Structural)]
pub enum CubeFace {
    PositiveX,
    NegativeX,
    PositiveY,
    NegativeY,
    PositiveZ,
    NegativeZ,
}

/// The face at an index; the last one where there is none.
pub open spec fn face_at(index: int) -> CubeFace {
    if index == 0 {
        CubeFace::PositiveX
    } else if index == 1 {
        CubeFace::NegativeX
    } else if index == 2 {
        CubeFace::PositiveY
    } else if index == 3 {
        CubeFace::NegativeY
    } else if index == 4 {
        CubeFace::PositiveZ
    } else {
        CubeFace::NegativeZ
    }
}

/// The index of a face.
pub open spec fn index_of(face: CubeFace) -> int {
    match face {
        CubeFace::PositiveX => 0,
        CubeFace::NegativeX => 1,
        CubeFace::PositiveY => 2,
        CubeFace::NegativeY => 3,
        CubeFace::PositiveZ => 4,
        CubeFace::NegativeZ => 5,
    }
}

/// The face at an index.
pub fn cube_face(index: usize) -> (result: CubeFace)
    ensures
        result == face_at(index as int),
{
    match index {
        0 => CubeFace::PositiveX,
        1 => CubeFace::NegativeX,
        2 => CubeFace::PositiveY,
        3 => CubeFace::NegativeY,
        4 => CubeFace::PositiveZ,
        _ => CubeFace::NegativeZ,
    }
}

/// The index of a face.
pub fn face_index(face: CubeFace) -> (result: usize)
    ensures
        result == index_of(face),
        result < 6,
{
    match face {
        CubeFace::PositiveX => 0,
        CubeFace::NegativeX => 1,
        CubeFace::PositiveY => 2,
        CubeFace::NegativeY => 3,
        CubeFace::PositiveZ => 4,
        CubeFace::NegativeZ => 5,
    }
}

/// Each of the six faces has its own index.
pub proof fn law_faces_have_their_own_index(face: CubeFace, index: int)
    requires
        0 <= index < 6,
    ensures
        face_at(index_of(face)) == face,
        index_of(face_at(index)) == index,
{
}

/// The direction through a place on a face. The place is given by coordinates that run from minus
/// one to one, to the right and down.
pub open spec fn direction_through(face: CubeFace, u: Float32, v: Float32) -> Vec3 {
    let one = Float32 { bits: ONE };
    match face {
        CubeFace::PositiveX => Vec3 { x: one, y: v.opposite(), z: u.opposite() },
        CubeFace::NegativeX => Vec3 { x: one.opposite(), y: v.opposite(), z: u },
        CubeFace::PositiveY => Vec3 { x: u, y: one, z: v },
        CubeFace::NegativeY => Vec3 { x: u, y: one.opposite(), z: v.opposite() },
        CubeFace::PositiveZ => Vec3 { x: u, y: v.opposite(), z: one },
        CubeFace::NegativeZ => Vec3 { x: u.opposite(), y: v.opposite(), z: one.opposite() },
    }
}

/// The direction through a place on a face, of no particular length.
pub fn face_direction(face: CubeFace, u: Float32, v: Float32) -> (result: Vec3)
    ensures
        result == direction_through(face, u, v),
{
    let one: Float32 = Float32 { bits: ONE };
    match face {
        CubeFace::PositiveX => Vec3 { x: one, y: v.negate(), z: u.negate() },
        CubeFace::NegativeX => Vec3 { x: one.negate(), y: v.negate(), z: u },
        CubeFace::PositiveY => Vec3 { x: u, y: one, z: v },
        CubeFace::NegativeY => Vec3 { x: u, y: one.negate(), z: v.negate() },
        CubeFace::PositiveZ => Vec3 { x: u, y: v.negate(), z: one },
        CubeFace::NegativeZ => Vec3 { x: u.negate(), y: v.negate(), z: one.negate() },
    }
}

/// The place of a pixel in a square of `size` by `size`; outside, that of the nearest pixel.
pub open spec fn pixel_place(size: int, x: int, y: int) -> int {
    let column = if x < 0 {
        0
    } else if x >= size {
        size - 1
    } else {
        x
    };
    let row = if y < 0 {
        0
    } else if y >= size {
        size - 1
    } else {
        y
    };
    row * size + column
}

proof fn lemma_place(size: int, row: int, column: int)
    requires
        0 <= row < size,
        0 <= column < size,
    ensures
        0 <= row * size,
        row * size + column < size * size,
{
    assert(0 <= row * size && row * size + column < size * size) by (nonlinear_arith)
        requires
            0 <= row < size,
            0 <= column < size,
    ;
}

fn hold_within(value: i128, size: usize) -> (result: usize)
    requires
        size >= 1,
    ensures
        result < size,
        result == if value < 0 {
            0
        } else if value >= size {
            size - 1
        } else {
            value as int
        },
{
    if value < 0 {
        0
    } else if value >= size as i128 {
        size - 1
    } else {
        value as usize
    }
}

fn find_place(size: usize, x: i128, y: i128) -> (result: usize)
    requires
        size >= 1,
        size * size <= usize::MAX,
    ensures
        result == pixel_place(size as int, x as int, y as int),
        result < size * size,
{
    let column: usize = hold_within(x, size);
    let row: usize = hold_within(y, size);
    proof {
        lemma_place(size as int, row as int, column as int);
    }
    row * size + column
}

/// A cube of colors in floating point, in the order of the faces.
#[derive(Debug)]
pub struct FloatCube {
    size: usize,
    faces: Vec<Vec<Vec3>>,
}

/// A cube of colors as mathematics.
#[verifier::ext_equal]
pub struct CubeModel {
    pub size: usize,
    pub faces: Seq<Seq<Vec3>>,
}

impl View for FloatCube {
    type V = CubeModel;

    closed spec fn view(&self) -> CubeModel {
        CubeModel { size: self.size, faces: Seq::new(self.faces@.len(), |i: int| self.faces@[i]@) }
    }
}

impl CubeModel {
    /// Whether there are six square faces.
    pub open spec fn sound(self) -> bool {
        &&& self.size >= 1
        &&& self.size * self.size <= usize::MAX
        &&& self.faces.len() == 6
        &&& forall|i: int| 0 <= i < 6 ==> (#[trigger] self.faces[i]).len() == self.size * self.size
    }

    /// The color of a pixel; outside a face, that of the nearest pixel.
    pub open spec fn color(self, face: CubeFace, x: int, y: int) -> Vec3 {
        self.faces[index_of(face)][pixel_place(self.size as int, x, y)]
    }
}

/// The intensity that counts: none below zero, and one where it is not finite.
pub open spec fn usable_intensity(intensity: Float32) -> Float32 {
    if intensity.finite() {
        greatest(intensity, Float32 { bits: 0 })
    } else {
        Float32 { bits: ONE }
    }
}

/// Colors scaled by an intensity.
pub open spec fn scaled_colors(colors: Seq<Vec3>, intensity: Float32) -> Seq<Vec3> {
    Seq::new(colors.len(), |i: int| colors[i] * intensity)
}

impl FloatCube {
    /// The cube of these faces, if there are six and each is a square of `size` by `size`.
    pub fn new(size: usize, faces: Vec<Vec<Vec3>>) -> (result: Option<FloatCube>)
        ensures
            match result {
                Some(cube) => cube@.sound() && cube@ == (CubeModel {
                    size,
                    faces: Seq::new(faces@.len(), |i: int| faces@[i]@),
                }),
                None => !(CubeModel {
                    size,
                    faces: Seq::new(faces@.len(), |i: int| faces@[i]@),
                }).sound(),
            },
    {
        let ghost model = CubeModel {
            size,
            faces: Seq::new(faces@.len(), |i: int| faces@[i]@),
        };
        if size == 0 || faces.len() != 6 {
            return None;
        }
        let count: usize = match size.checked_mul(size) {
            Some(count) => count,
            None => {
                return None;
            },
        };
        let mut i: usize = 0;
        while i < 6
            invariant
                i <= 6,
                faces@.len() == 6,
                size >= 1,
                count == size * size,
                model == (CubeModel {
                    size,
                    faces: Seq::new(faces@.len(), |j: int| faces@[j]@),
                }),
                forall|j: int| 0 <= j < i ==> (#[trigger] faces@[j])@.len() == count,
            decreases 6 - i,
        {
            if faces[i].len() != count {
                assert(model.faces[i as int] == faces@[i as int]@);
                return None;
            }
            i += 1;
        }
        Some(FloatCube { size, faces })
    }

    /// The cube of six squares.
    pub(crate) fn of_squares(size: usize, faces: Vec<Vec<Vec3>>) -> (result: FloatCube)
        requires
            (CubeModel { size, faces: Seq::new(faces@.len(), |i: int| faces@[i]@) }).sound(),
        ensures
            result@ == (CubeModel { size, faces: Seq::new(faces@.len(), |i: int| faces@[i]@) }),
    {
        FloatCube { size, faces }
    }

    /// The cube of these faces in linear color, scaled by an intensity: none where there are not
    /// six squares of `size` by `size`.
    pub fn from_cube_texture(size: usize, faces: &[Vec<Vec3>], intensity: Float32) -> (result:
        Option<FloatCube>)
        ensures
            ({
                let scaled = CubeModel {
                    size,
                    faces: Seq::new(
                        faces@.len(),
                        |i: int| scaled_colors(faces@[i]@, usable_intensity(intensity)),
                    ),
                };
                match result {
                    Some(cube) => scaled.sound() && cube@ == scaled,
                    None => !scaled.sound(),
                }
            }),
    {
        let strength: Float32 = if intensity.is_finite() {
            maximum(intensity, Float32 { bits: 0 })
        } else {
            Float32 { bits: ONE }
        };
        let ghost wanted = Seq::new(
            faces@.len(),
            |i: int| scaled_colors(faces@[i]@, usable_intensity(intensity)),
        );
        let mut scaled: Vec<Vec<Vec3>> = Vec::new();
        let mut f: usize = 0;
        while f < faces.len()
            invariant
                f <= faces@.len(),
                strength == usable_intensity(intensity),
                scaled@.len() == f,
                forall|i: int|
                    0 <= i < f ==> (#[trigger] scaled@[i])@ == scaled_colors(faces@[i]@, strength),
            decreases faces@.len() - f,
        {
            let mut colors: Vec<Vec3> = Vec::new();
            let mut i: usize = 0;
            while i < faces[f].len()
                invariant
                    f < faces@.len(),
                    i <= faces@[f as int]@.len(),
                    colors@ =~= scaled_colors(faces@[f as int]@, strength).take(i as int),
                decreases faces@[f as int]@.len() - i,
            {
                colors.push(faces[f][i] * strength);
                i += 1;
            }
            assert(colors@ =~= scaled_colors(faces@[f as int]@, strength));
            scaled.push(colors);
            f += 1;
        }
        assert(Seq::new(scaled@.len(), |i: int| scaled@[i]@) =~= wanted);
        FloatCube::new(size, scaled)
    }

    /// The cube that has one color everywhere.
    pub fn constant(size: usize, color: Vec3) -> (result: FloatCube)
        requires
            at_least_one(size) * at_least_one(size) <= usize::MAX,
        ensures
            result@.sound(),
            result@.size == at_least_one(size),
            forall|face: CubeFace, x: int, y: int| #[trigger] result@.color(face, x, y) == color,
    {
        let side: usize = raise_to_one(size);
        let count: usize = side * side;
        let mut faces: Vec<Vec<Vec3>> = Vec::new();
        let mut i: usize = 0;
        while i < 6
            invariant
                i <= 6,
                faces@.len() == i,
                forall|j: int, k: int|
                    0 <= j < i && 0 <= k < count ==> #[trigger] faces@[j]@[k] == color,
                forall|j: int| 0 <= j < i ==> (#[trigger] faces@[j])@.len() == count,
            decreases 6 - i,
        {
            let mut face: Vec<Vec3> = Vec::new();
            let mut k: usize = 0;
            while k < count
                invariant
                    k <= count,
                    face@.len() == k,
                    forall|m: int| 0 <= m < k ==> #[trigger] face@[m] == color,
                decreases count - k,
            {
                face.push(color);
                k += 1;
            }
            faces.push(face);
            i += 1;
        }
        let cube: FloatCube = FloatCube { size: side, faces };
        assert forall|face: CubeFace, x: int, y: int| #[trigger] cube@.color(face, x, y)
            == color by {
            lemma_place_is_inside(side as int, x, y);
            let at = pixel_place(side as int, x, y);
            assert(cube.faces@[index_of(face)]@[at] == color);
        }
        cube
    }

    pub fn size(&self) -> (result: usize)
        ensures
            result == self@.size,
    {
        self.size
    }

    /// The color of a pixel; beyond the last row or column, that of the nearest pixel.
    pub fn pixel(&self, face: CubeFace, x: usize, y: usize) -> (result: Vec3)
        requires
            self@.sound(),
        ensures
            result == self@.color(face, x as int, y as int),
    {
        let at: usize = find_place(self.size, x as i128, y as i128);
        let index: usize = face_index(face);
        assert(self@.faces[index as int].len() == self@.size * self@.size);
        self.faces[index][at]
    }

    /// The color of a pixel; outside the face, that of the nearest pixel.
    pub fn pixel_signed(&self, face: CubeFace, x: i64, y: i64) -> (result: Vec3)
        requires
            self@.sound(),
        ensures
            result == self@.color(face, x as int, y as int),
    {
        let at: usize = find_place(self.size, x as i128, y as i128);
        let index: usize = face_index(face);
        assert(self@.faces[index as int].len() == self@.size * self@.size);
        self.faces[index][at]
    }
}

proof fn lemma_place_is_inside(size: int, x: int, y: int)
    requires
        size >= 1,
    ensures
        0 <= pixel_place(size, x, y) < size * size,
{
    let column = if x < 0 {
        0
    } else if x >= size {
        size - 1
    } else {
        x
    };
    let row = if y < 0 {
        0
    } else if y >= size {
        size - 1
    } else {
        y
    };
    lemma_place(size, row, column);
}

/// A chain of cubes, from the smoothest surface to the roughest.
#[derive(Debug)]
pub struct PrefilteredEnvironment {
    levels: Vec<FloatCube>,
}

impl View for PrefilteredEnvironment {
    type V = Seq<CubeModel>;

    closed spec fn view(&self) -> Seq<CubeModel> {
        Seq::new(self.levels@.len(), |i: int| self.levels@[i]@)
    }
}

impl PrefilteredEnvironment {
    /// The chain of these cubes.
    pub fn new(levels: Vec<FloatCube>) -> (result: PrefilteredEnvironment)
        ensures
            result@ == Seq::new(levels@.len(), |i: int| levels@[i]@),
    {
        PrefilteredEnvironment { levels }
    }

    pub fn level_count(&self) -> (result: usize)
        ensures
            result == self@.len(),
    {
        self.levels.len()
    }

    pub fn level(&self, index: usize) -> (result: Option<&FloatCube>)
        ensures
            match result {
                Some(cube) => index < self@.len() && cube@ == self@[index as int],
                None => index >= self@.len(),
            },
    {
        if index < self.levels.len() {
            assert(self@[index as int] == self.levels@[index as int]@);
            Some(&self.levels[index])
        } else {
            None
        }
    }
}

/// What a surface makes of its surroundings, by the angle of view and the roughness.
#[derive(Debug)]
pub struct EnvironmentBrdfLut {
    size: usize,
    pixels: Vec<Vec2>,
}

/// A table by angle and roughness, as mathematics.
#[verifier::ext_equal]
pub struct LutModel {
    pub size: usize,
    pub pixels: Seq<Vec2>,
}

impl View for EnvironmentBrdfLut {
    type V = LutModel;

    closed spec fn view(&self) -> LutModel {
        LutModel { size: self.size, pixels: self.pixels@ }
    }
}

impl LutModel {
    /// Whether the table is square.
    pub open spec fn sound(self) -> bool {
        &&& self.size >= 1
        &&& self.pixels.len() == self.size * self.size
        &&& self.size * self.size <= usize::MAX
    }
}

impl EnvironmentBrdfLut {
    /// The table of these entries, if they are a square of `size` by `size`.
    pub fn new(size: usize, pixels: Vec<Vec2>) -> (result: Option<EnvironmentBrdfLut>)
        ensures
            match result {
                Some(table) => table@.sound() && table@ == (LutModel { size, pixels: pixels@ }),
                None => !(LutModel { size, pixels: pixels@ }).sound(),
            },
    {
        if size == 0 {
            return None;
        }
        match size.checked_mul(size) {
            Some(count) => if pixels.len() == count {
                Some(EnvironmentBrdfLut { size, pixels })
            } else {
                None
            },
            None => None,
        }
    }

    /// The table of the entries of a square.
    pub(crate) fn of_square(size: usize, pixels: Vec<Vec2>) -> (result: EnvironmentBrdfLut)
        requires
            (LutModel { size, pixels: pixels@ }).sound(),
        ensures
            result@ == (LutModel { size, pixels: pixels@ }),
    {
        EnvironmentBrdfLut { size, pixels }
    }

    pub fn size(&self) -> (result: usize)
        ensures
            result == self@.size,
    {
        self.size
    }

    /// An entry; outside the table, the nearest one.
    pub fn pixel_signed(&self, x: i64, y: i64) -> (result: Vec2)
        requires
            self@.sound(),
        ensures
            result == self@.pixels[pixel_place(self@.size as int, x as int, y as int)],
    {
        self.pixels[find_place(self.size, x as i128, y as i128)]
    }

    /// An entry; beyond the last row or column, the nearest one.
    pub fn pixel(&self, x: usize, y: usize) -> (result: Vec2)
        requires
            self@.sound(),
        ensures
            result == self@.pixels[pixel_place(self@.size as int, x as int, y as int)],
    {
        self.pixels[find_place(self.size, x as i128, y as i128)]
    }
}

/// A binary digit of a number.
pub open spec fn digit(value: nat, index: nat) -> nat {
    value / pow2(index) % 2
}

/// The number whose `count` binary digits are the lowest ones of another, in reverse.
pub open spec fn reversed_digits(value: nat, count: nat) -> nat
    decreases count,
{
    if count == 0 {
        0
    } else {
        2 * reversed_digits(value, (count - 1) as nat) + digit(value, (count - 1) as nat)
    }
}

/// The radical inverse of an index to the base two, times two to the power 32: its binary digits
/// in reverse.
pub fn radical_inverse_bits(index: u32) -> (result: u32)
    ensures
        result == reversed_digits(index as nat, 32),
{
    let mut rest: u32 = index;
    let mut made: u32 = 0;
    let mut i: u32 = 0;
    proof {
        lemma2_to64();
        assert(index as nat / 1nat == index as nat);
    }
    while i < 32
        invariant
            i <= 32,
            made == reversed_digits(index as nat, i as nat),
            rest == index as nat / pow2(i as nat),
            made < pow2(i as nat),
        decreases 32 - i,
    {
        proof {
            lemma_halved(index as nat, i as nat);
            lemma_pow2_adds(1, i as nat);
            lemma2_to64();
            if i < 31 {
                lemma_pow2_strictly_increases(i as nat, 31);
            }
        }
        made = 2 * made + rest % 2;
        rest = rest / 2;
        i += 1;
    }
    made
}

/// The bits of two to the power minus 32.
pub const LAST_DIGIT: u32 = 0x2f80_0000;

/// The radical inverse of an index to the base two: its digits, mirrored at the point.
pub fn radical_inverse_vdc(index: u32) -> (result: Float32)
    ensures
        result == Float32::of_integer(false, reversed_digits(index as nat, 32)) * (Float32 {
            bits: LAST_DIGIT,
        }),
{
    Float32::from_integer(false, radical_inverse_bits(index) as u64) * Float32 { bits: LAST_DIGIT }
}

proof fn lemma_halved(value: nat, index: nat)
    ensures
        value / pow2(index) / 2 == value / pow2(index + 1),
{
    lemma_pow2_pos(index);
    lemma_pow2_adds(index, 1);
    lemma2_to64();
    vstd::arithmetic::div_mod::lemma_div_denominator(value as int, pow2(index) as int, 2);
}

proof fn lemma_reversed_is_small(value: nat, count: nat)
    ensures
        reversed_digits(value, count) < pow2(count),
    decreases count,
{
    lemma2_to64();
    if count > 0 {
        lemma_reversed_is_small(value, (count - 1) as nat);
        lemma_pow2_adds(1, (count - 1) as nat);
    }
}

proof fn lemma_higher_digit(value: nat, low: nat, index: nat)
    requires
        low < 2,
    ensures
        digit(2 * value + low, index + 1) == digit(value, index),
        digit(2 * value + low, 0) == low,
{
    lemma2_to64();
    lemma_pow2_pos(index);
    lemma_pow2_adds(1, index);
    let number = 2 * value + low;
    vstd::arithmetic::div_mod::lemma_div_denominator(number as int, 2, pow2(index) as int);
    assert(number / 2 == value);
    assert(number / 1nat == number);
}

proof fn lemma_reversed_digit(value: nat, count: nat, index: nat)
    requires
        index < count,
    ensures
        digit(reversed_digits(value, count), index) == digit(value, (count - 1 - index) as nat),
    decreases count,
{
    let before = (count - 1) as nat;
    let low = digit(value, before);
    if index == 0 {
        lemma_higher_digit(reversed_digits(value, before), low, 0);
    } else {
        lemma_higher_digit(reversed_digits(value, before), low, (index - 1) as nat);
        lemma_reversed_digit(value, before, (index - 1) as nat);
    }
}

proof fn lemma_same_digits(left: nat, right: nat, count: nat)
    requires
        left < pow2(count),
        right < pow2(count),
        forall|i: nat| i < count ==> #[trigger] digit(left, i) == digit(right, i),
    ensures
        left == right,
    decreases count,
{
    lemma2_to64();
    if count > 0 {
        let before = (count - 1) as nat;
        lemma_pow2_adds(1, before);
        assert forall|i: nat| i < before implies #[trigger] digit(left / 2, i) == digit(
            right / 2,
            i,
        ) by {
            lemma_higher_digit(left / 2, left % 2, i);
            lemma_higher_digit(right / 2, right % 2, i);
            assert(digit(left, i + 1) == digit(right, i + 1));
        }
        lemma_same_digits(left / 2, right / 2, before);
        lemma_higher_digit(left / 2, left % 2, 0);
        lemma_higher_digit(right / 2, right % 2, 0);
        assert(digit(left, 0) == digit(right, 0));
    }
}

/// Reversing the digits of a number twice gives the number back, so no two indices have the same
/// radical inverse.
pub proof fn law_reversing_twice_changes_nothing(index: u32)
    ensures
        reversed_digits(reversed_digits(index as nat, 32), 32) == index,
{
    lemma2_to64();
    let value = index as nat;
    let once = reversed_digits(value, 32);
    let twice = reversed_digits(once, 32);
    lemma_reversed_is_small(once, 32);
    assert forall|i: nat| i < 32 implies #[trigger] digit(twice, i) == digit(value, i) by {
        lemma_reversed_digit(once, 32, i);
        lemma_reversed_digit(value, 32, (31 - i) as nat);
    }
    lemma_same_digits(twice, value, 32);
}

} // verus!
