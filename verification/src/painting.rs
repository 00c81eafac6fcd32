//! Pictures that are computed: planets with bands, skies, bumps and simple patterns.

use crate::culling::{least, minimum};
use crate::float::{Float32, HALF, ONE};
use crate::ibl_bake::Angle;
use crate::math::Vec3;
use crate::texture::{picture_side, Texture};
use vstd::prelude::*;

verus! {

/// The bits of 255.
pub const FULL: u32 = 0x437f_0000;

/// The bits of 0.35, the strength of the swirls.
pub const BLEND_SWIRL: u32 = 0x3eb3_3333;

/// The bits of 0.15, the strength of the haze.
pub const BLEND_HAZE: u32 = 0x3e19_999a;

/// The bits of 31, the last place along a side of a sky.
pub const SKY_END: u32 = 0x41f8_0000;

/// The bits of 0.72, where the sun stands across a sky.
pub const SUN_ACROSS: u32 = 0x3f38_51ec;

/// The bits of 0.24, where the sun stands down a sky.
pub const SUN_DOWN: u32 = 0x3e75_c28f;

/// The bits of 0.16, how far the sun reaches.
pub const SUN_SIZE: u32 = 0x3e23_d70a;

/// The bits of 0.38, how much a sky darkens downward.
pub const SKY_SHADE: u32 = 0x3ec2_8f5c;

/// The bits of 0.32, how steep the bumps are.
pub const BUMP_HEIGHT: u32 = 0x3ea3_d70a;

/// The bits of 235, the green of the sun.
pub const SUN_GREEN: u32 = 0x436b_0000;

/// The bits of 150, the blue of the sun.
pub const SUN_BLUE: u32 = 0x4316_0000;

/// The waves that the color of a banded picture follows at a place: the sine of its latitude, the
/// strength of its stripe, the sine of its swirl and the product of waves of its haze.
#[derive(Clone, Copy, Debug, PartialEq)]
pub struct BandWaves {
    pub latitude: Float32,
    pub stripe: Float32,
    pub swirl: Float32,
    pub haze: Float32,
}

/// A wave, moved to the range from zero to a strength.
pub open spec fn raised(wave: Float32, strength: u32) -> Float32 {
    (wave * (Float32 { bits: HALF }) + (Float32 { bits: HALF })) * (Float32 { bits: strength })
}

/// A share of full strength as a byte.
pub open spec fn byte_of(share: Float32) -> u8 {
    (share * (Float32 { bits: FULL })).truncated(255) as u8
}

/// A share, with haze added, up to one.
pub open spec fn hazed(share: Float32, haze: Float32) -> Float32 {
    least(share + haze, Float32 { bits: ONE })
}

/// The color of a banded picture where it has these waves: warm and cool bands, with lighter swirls
/// away from the poles and haze over it all.
pub open spec fn banded_pixel(waves: BandWaves) -> [u8; 4] {
    let warm = Vec3 { x: Float32 { bits: 0x3f75_c28f }, y: Float32 { bits: 0x3f38_51ec }, z: Float32 { bits: 0x3ee1_47ae } };
    let cool = Vec3 { x: Float32 { bits: 0x3ea3_d70a }, y: Float32 { bits: 0x3f00_0000 }, z: Float32 { bits: 0x3f38_51ec } };
    let accent = Vec3 { x: Float32 { bits: 0x3f7a_e148 }, y: Float32 { bits: 0x3f70_a3d7 }, z: Float32 { bits: 0x3f5c_28f6 } };
    let bands = cool + (warm - cool) * waves.stripe;
    let color = bands + (accent - bands) * raised(waves.swirl, BLEND_SWIRL) * waves.latitude;
    let haze = raised(waves.haze, BLEND_HAZE);
    [
        byte_of(hazed(color.x, haze)),
        byte_of(hazed(color.y, haze)),
        byte_of(hazed(color.z, haze)),
        255,
    ]
}

fn raise(wave: Float32, strength: u32) -> (result: Float32)
    ensures
        result == raised(wave, strength),
{
    (wave * Float32 { bits: HALF } + Float32 { bits: HALF }) * Float32 { bits: strength }
}

fn make_byte(share: Float32) -> (result: u8)
    ensures
        result == byte_of(share),
{
    (share * Float32 { bits: FULL }).truncate_to(255) as u8
}

/// The color of a banded picture where it has these waves.
pub fn make_banded_pixel(waves: BandWaves) -> (result: [u8; 4])
    ensures
        result == banded_pixel(waves),
{
    let warm: Vec3 = Vec3 { x: Float32 { bits: 0x3f75_c28f }, y: Float32 { bits: 0x3f38_51ec }, z: Float32 { bits: 0x3ee1_47ae } };
    let cool: Vec3 = Vec3 { x: Float32 { bits: 0x3ea3_d70a }, y: Float32 { bits: 0x3f00_0000 }, z: Float32 { bits: 0x3f38_51ec } };
    let accent: Vec3 = Vec3 { x: Float32 { bits: 0x3f7a_e148 }, y: Float32 { bits: 0x3f70_a3d7 }, z: Float32 { bits: 0x3f5c_28f6 } };
    let one: Float32 = Float32 { bits: ONE };
    let bands: Vec3 = cool + (warm - cool) * waves.stripe;
    let color: Vec3 = bands + (accent - bands) * raise(waves.swirl, BLEND_SWIRL) * waves.latitude;
    let haze: Float32 = raise(waves.haze, BLEND_HAZE);
    let pixel: [u8; 4] = [
        make_byte(minimum(color.x + haze, one)),
        make_byte(minimum(color.y + haze, one)),
        make_byte(minimum(color.z + haze, one)),
        255,
    ];
    let ghost wanted = banded_pixel(waves);
    assert(pixel@ =~= wanted@);
    assert(pixel =~= wanted);
    pixel
}

/// A banded square picture, with the waves of each place, row by row.
pub fn banded_texture(size: usize, waves: &[BandWaves]) -> (result: Option<Texture>)
    ensures
        match result {
            Some(texture) => {
                &&& waves@.len() == picture_side(size) * picture_side(size)
                &&& texture@.sound()
                &&& texture@.width == picture_side(size)
                &&& texture@.height == picture_side(size)
                &&& texture@.pixels == Seq::new(
                    waves@.len(),
                    |i: int| banded_pixel(waves@[i]),
                )
            },
            None => waves@.len() != picture_side(size) * picture_side(size),
        },
{
    let side: usize = if size < 2 {
        2
    } else {
        size
    };
    let mut pixels: Vec<[u8; 4]> = Vec::new();
    let mut i: usize = 0;
    while i < waves.len()
        invariant
            i <= waves@.len(),
            pixels@ =~= Seq::new(i as nat, |j: int| banded_pixel(waves@[j])),
        decreases waves@.len() - i,
    {
        pixels.push(make_banded_pixel(waves[i]));
        i += 1;
    }
    Texture::new(side, side, pixels)
}

/// How bright the sun is at a place of a sky.
pub open spec fn sun_at(x: nat, y: nat) -> Float32 {
    let across = Float32::of_integer(false, x) / (Float32 { bits: SKY_END }) - (Float32 {
        bits: SUN_ACROSS,
    });
    let down = Float32::of_integer(false, y) / (Float32 { bits: SKY_END }) - (Float32 {
        bits: SUN_DOWN,
    });
    let distance = (across * across + down * down).root();
    ((Float32 { bits: ONE }) - distance / (Float32 { bits: SUN_SIZE })).clamped_to_unit()
}

/// How bright a sky is at a height.
pub open spec fn shade_at(y: nat) -> Float32 {
    (Float32 { bits: ONE }) - Float32::of_integer(false, y) / (Float32 { bits: SKY_END }) * (Float32 {
        bits: SKY_SHADE,
    })
}

/// One channel of a sky: the shaded horizon and the sun.
pub open spec fn sky_channel(horizon: u8, shade: Float32, sun: Float32, strength: u32) -> u8 {
    least(
        Float32::of_integer(false, horizon as nat) * shade + (Float32 { bits: strength }) * sun,
        Float32 { bits: FULL },
    ).truncated(255) as u8
}

/// The color of a sky at a place.
pub open spec fn sky_pixel(horizon: [u8; 3], x: nat, y: nat) -> [u8; 4] {
    let sun = sun_at(x, y);
    let shade = shade_at(y);
    [
        sky_channel(horizon[0], shade, sun, FULL),
        sky_channel(horizon[1], shade, sun, SUN_GREEN),
        sky_channel(horizon[2], shade, sun, SUN_BLUE),
        255,
    ]
}

fn make_sky_channel(horizon: u8, shade: Float32, sun: Float32, strength: u32) -> (result: u8)
    ensures
        result == sky_channel(horizon, shade, sun, strength),
{
    let base: Float32 = Float32::from_integer(false, horizon as u64);
    minimum(base * shade + Float32 { bits: strength } * sun, Float32 { bits: FULL }).truncate_to(
        255,
    ) as u8
}

/// The color of a sky at a place.
pub fn make_sky_pixel(horizon: [u8; 3], x: usize, y: usize) -> (result: [u8; 4])
    ensures
        result == sky_pixel(horizon, x as nat, y as nat),
{
    let end: Float32 = Float32 { bits: SKY_END };
    let vertical: Float32 = Float32::from_integer(false, y as u64) / end;
    let across: Float32 = Float32::from_integer(false, x as u64) / end - Float32 {
        bits: SUN_ACROSS,
    };
    let down: Float32 = vertical - Float32 { bits: SUN_DOWN };
    let distance: Float32 = (across * across + down * down).sqrt();
    let sun: Float32 = (Float32 { bits: ONE } - distance / Float32 {
        bits: SUN_SIZE,
    }).clamp_to_unit();
    let shade: Float32 = Float32 { bits: ONE } - vertical * Float32 { bits: SKY_SHADE };
    let pixel: [u8; 4] = [
        make_sky_channel(horizon[0], shade, sun, FULL),
        make_sky_channel(horizon[1], shade, sun, SUN_GREEN),
        make_sky_channel(horizon[2], shade, sun, SUN_BLUE),
        255,
    ];
    let ghost wanted = sky_pixel(horizon, x as nat, y as nat);
    assert(pixel@ =~= wanted@);
    assert(pixel =~= wanted);
    pixel
}

/// A face of a sky, 32 pixels wide and high, above a horizon of a color.
pub fn sky_face(horizon: [u8; 3]) -> (result: Texture)
    ensures
        result@.sound(),
        result@.width == 32,
        result@.height == 32,
        result@.pixels == Seq::new(
            1024,
            |i: int| sky_pixel(horizon, (i % 32) as nat, (i / 32) as nat),
        ),
{
    let mut pixels: Vec<[u8; 4]> = Vec::new();
    let mut i: usize = 0;
    while i < 1024
        invariant
            i <= 1024,
            pixels@ =~= Seq::new(
                i as nat,
                |j: int| sky_pixel(horizon, (j % 32) as nat, (j / 32) as nat),
            ),
        decreases 1024 - i,
    {
        pixels.push(make_sky_pixel(horizon, i % 32, i / 32));
        i += 1;
    }
    Texture::new(32, 32, pixels).unwrap()
}

/// A coordinate of a normal as a byte.
pub open spec fn packed_coordinate(value: Float32) -> u8 {
    let half = Float32 { bits: HALF };
    ((value * half + half) * (Float32 { bits: FULL })).rounded(255) as u8
}

/// The normal of a bumpy surface where its waves across and down have these angles.
pub open spec fn bump_normal(across: Angle, down: Angle) -> Vec3 {
    let height = Float32 { bits: BUMP_HEIGHT };
    let dx = across.cosine * down.cosine * height;
    let dy = across.sine.opposite() * down.sine * height;
    (Vec3 { x: dx.opposite(), y: dy.opposite(), z: Float32 { bits: ONE } }).unit()
}

/// The pixel of a normal map.
pub open spec fn normal_pixel(normal: Vec3) -> [u8; 4] {
    [
        packed_coordinate(normal.x),
        packed_coordinate(normal.y),
        packed_coordinate(normal.z),
        255,
    ]
}

fn pack_coordinate(value: Float32) -> (result: u8)
    ensures
        result == packed_coordinate(value),
{
    let half: Float32 = Float32 { bits: HALF };
    ((value * half + half) * Float32 { bits: FULL }).round_to(255) as u8
}

/// The pixel of the normal map of a bumpy surface.
pub fn make_bump_pixel(across: Angle, down: Angle) -> (result: [u8; 4])
    ensures
        result == normal_pixel(bump_normal(across, down)),
{
    let height: Float32 = Float32 { bits: BUMP_HEIGHT };
    let dx: Float32 = across.cosine * down.cosine * height;
    let dy: Float32 = across.sine.negate() * down.sine * height;
    let normal: Vec3 = Vec3 {
        x: dx.negate(),
        y: dy.negate(),
        z: Float32 { bits: ONE },
    }.normalize();
    let pixel: [u8; 4] = [
        pack_coordinate(normal.x),
        pack_coordinate(normal.y),
        pack_coordinate(normal.z),
        255,
    ];
    let ghost wanted = normal_pixel(bump_normal(across, down));
    assert(pixel@ =~= wanted@);
    assert(pixel =~= wanted);
    pixel
}

/// The normal map of a bumpy surface, 64 pixels wide and high, whose waves have these angles at
/// each column and each row.
pub fn bump_map(across: &[Angle], down: &[Angle]) -> (result: Texture)
    requires
        across@.len() == 64,
        down@.len() == 64,
    ensures
        result@.sound(),
        result@.width == 64,
        result@.height == 64,
        result@.pixels == Seq::new(
            4096,
            |i: int| normal_pixel(bump_normal(across@[i % 64], down@[i / 64])),
        ),
{
    let mut pixels: Vec<[u8; 4]> = Vec::new();
    let mut i: usize = 0;
    while i < 4096
        invariant
            i <= 4096,
            across@.len() == 64,
            down@.len() == 64,
            pixels@ =~= Seq::new(
                i as nat,
                |j: int| normal_pixel(bump_normal(across@[j % 64], down@[j / 64])),
            ),
        decreases 4096 - i,
    {
        pixels.push(make_bump_pixel(across[i % 64], down[i / 64]));
        i += 1;
    }
    Texture::new(64, 64, pixels).unwrap()
}

/// The pixel of a small pattern of light and dark squares.
pub open spec fn square_pixel(index: int) -> [u8; 4] {
    if (index % 4 + index / 4) % 2 == 0 {
        [235, 235, 235, 255]
    } else {
        [30, 35, 45, 255]
    }
}

/// The pixel of a small picture that gets redder to the right and greener downward.
pub open spec fn gradient_pixel(index: int) -> [u8; 4] {
    [(index % 4 * 85) as u8, (index / 4 * 85) as u8, 180, 255]
}

/// A pattern of light and dark squares, four pixels wide and high.
pub fn small_checker() -> (result: Texture)
    ensures
        result@.sound(),
        result@.width == 4,
        result@.height == 4,
        result@.pixels == Seq::new(16, |i: int| square_pixel(i)),
{
    let mut pixels: Vec<[u8; 4]> = Vec::new();
    let mut i: usize = 0;
    while i < 16
        invariant
            i <= 16,
            pixels@ =~= Seq::new(i as nat, |j: int| square_pixel(j)),
        decreases 16 - i,
    {
        let pixel: [u8; 4] = if (i % 4 + i / 4) % 2 == 0 {
            [235, 235, 235, 255]
        } else {
            [30, 35, 45, 255]
        };
        assert(pixel@ =~= square_pixel(i as int)@);
        assert(pixel =~= square_pixel(i as int));
        pixels.push(pixel);
        i += 1;
    }
    Texture::new(4, 4, pixels).unwrap()
}

/// A picture that gets redder to the right and greener downward, four pixels wide and high.
pub fn small_gradient() -> (result: Texture)
    ensures
        result@.sound(),
        result@.width == 4,
        result@.height == 4,
        result@.pixels == Seq::new(16, |i: int| gradient_pixel(i)),
{
    let mut pixels: Vec<[u8; 4]> = Vec::new();
    let mut i: usize = 0;
    while i < 16
        invariant
            i <= 16,
            pixels@ =~= Seq::new(i as nat, |j: int| gradient_pixel(j)),
        decreases 16 - i,
    {
        let pixel: [u8; 4] = [(i % 4 * 85) as u8, (i / 4 * 85) as u8, 180, 255];
        assert(pixel@ =~= gradient_pixel(i as int)@);
        assert(pixel =~= gradient_pixel(i as int));
        pixels.push(pixel);
        i += 1;
    }
    Texture::new(4, 4, pixels).unwrap()
}

} // verus!
