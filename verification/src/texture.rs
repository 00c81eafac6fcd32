//! Pictures that surfaces are covered with.

use vstd::prelude::*;

verus! {

/// A picture: rows of pixels, from the top. Each pixel is red, green, blue and alpha.
#[derive(Debug, PartialEq, Eq)]
pub struct Texture {
    width: usize,
    height: usize,
    pixels: Vec<[u8; 4]>,
}

/// A picture as mathematics.
#[verifier::ext_equal]
pub struct TextureModel {
    pub width: usize,
    pub height: usize,
    pub pixels: Seq<[u8; 4]>,
}

impl View for Texture {
    type V = TextureModel;

    closed spec fn view(&self) -> TextureModel {
        TextureModel { width: self.width, height: self.height, pixels: self.pixels@ }
    }
}

impl TextureModel {
    /// Whether there is a pixel for each place.
    pub open spec fn sound(self) -> bool {
        self.pixels.len() == self.width * self.height
    }
}

impl Texture {
    /// The picture of these pixels, if there is one for each place.
    pub fn new(width: usize, height: usize, pixels: Vec<[u8; 4]>) -> (result: Option<Texture>)
        ensures
            match result {
                Some(texture) => texture@ == (TextureModel { width, height, pixels: pixels@ })
                    && texture@.sound(),
                None => pixels@.len() != width * height,
            },
    {
        assert(pixels.len() == pixels@.len());
        match width.checked_mul(height) {
            Some(count) => if pixels.len() == count {
                Some(Texture { width, height, pixels })
            } else {
                None
            },
            None => None,
        }
    }

    pub fn width(&self) -> (result: usize)
        ensures
            result == self@.width,
    {
        self.width
    }

    pub fn height(&self) -> (result: usize)
        ensures
            result == self@.height,
    {
        self.height
    }

    /// The same picture once more.
    pub fn copy(&self) -> (result: Texture)
        ensures
            result@ == self@,
    {
        let mut pixels: Vec<[u8; 4]> = Vec::new();
        let mut i: usize = 0;
        while i < self.pixels.len()
            invariant
                i <= self.pixels@.len(),
                pixels@ == self.pixels@.take(i as int),
            decreases self.pixels@.len() - i,
        {
            pixels.push(self.pixels[i]);
            assert(pixels@ =~= self.pixels@.take(i + 1));
            i += 1;
        }
        assert(pixels@ =~= self.pixels@);
        Texture { width: self.width, height: self.height, pixels }
    }

    pub fn pixels(&self) -> (result: &[[u8; 4]])
        ensures
            result@ == self@.pixels,
    {
        self.pixels.as_slice()
    }
}

/// The side of a tile of a checkerboard.
pub open spec fn tile_side(size: nat, tiles: nat) -> nat {
    if size / tiles < 1 {
        1
    } else {
        size / tiles
    }
}

/// Whether a place along one side of a checkerboard lies within two pixels of the end of a tile.
pub open spec fn on_border(place: nat, side: nat) -> bool {
    place % side < 2 || place % side + 2 >= side
}

/// The pixel of a checkerboard at a place: a border around each tile, and tiles that alternate.
pub open spec fn checker_pixel(x: nat, y: nat, side: nat) -> [u8; 4] {
    if on_border(x, side) || on_border(y, side) {
        [40, 55, 70, 255]
    } else if (x / side + y / side) % 2 == 0 {
        [235, 232, 220, 255]
    } else {
        [30, 40, 55, 255]
    }
}

/// The side of a picture: two pixels at least.
pub open spec fn picture_side(size: usize) -> nat {
    if size < 2 {
        2
    } else {
        size as nat
    }
}

/// How many tiles a side has: one at least.
pub open spec fn tile_count(tiles: usize) -> nat {
    if tiles < 1 {
        1
    } else {
        tiles as nat
    }
}

fn check_border(place: usize, side: usize) -> (result: bool)
    requires
        side >= 1,
    ensures
        result == on_border(place as nat, side as nat),
{
    let within: usize = place % side;
    within < 2 || side - within <= 2
}

fn make_checker_pixel(x: usize, y: usize, side: usize) -> (result: [u8; 4])
    requires
        side >= 1,
    ensures
        result == checker_pixel(x as nat, y as nat, side as nat),
{
    let pixel: [u8; 4] = if check_border(x, side) || check_border(y, side) {
        [40, 55, 70, 255]
    } else if x / side % 2 == y / side % 2 {
        [235, 232, 220, 255]
    } else {
        [30, 40, 55, 255]
    };
    let ghost expected = checker_pixel(x as nat, y as nat, side as nat);
    assert(pixel@ =~= expected@);
    assert(pixel =~= expected);
    pixel
}

/// A checkerboard of high contrast.
pub fn checkerboard_texture(size: usize, tiles: usize) -> (result: Texture)
    requires
        picture_side(size) * picture_side(size) <= usize::MAX,
    ensures
        result@.sound(),
        result@.width == picture_side(size),
        result@.height == picture_side(size),
        forall|x: int, y: int|
            0 <= x < picture_side(size) && 0 <= y < picture_side(size)
                ==> #[trigger] result@.pixels[y * picture_side(size) + x] == checker_pixel(
                x as nat,
                y as nat,
                tile_side(picture_side(size), tile_count(tiles)),
            ),
{
    let side: usize = if size < 2 {
        2
    } else {
        size
    };
    let count: usize = if tiles < 1 {
        1
    } else {
        tiles
    };
    let whole: usize = side / count;
    let tile: usize = if whole < 1 {
        1
    } else {
        whole
    };
    let mut pixels: Vec<[u8; 4]> = Vec::new();
    let mut y: usize = 0;
    proof {
        assert(0 * side == 0) by (nonlinear_arith);
    }
    while y < side
        invariant
            y <= side,
            tile >= 1,
            pixels@.len() == y * side,
            forall|px: int, py: int|
                0 <= px < side && 0 <= py < y ==> #[trigger] pixels@[py * side + px]
                    == checker_pixel(px as nat, py as nat, tile as nat),
        decreases side - y,
    {
        let mut x: usize = 0;
        while x < side
            invariant
                y < side,
                x <= side,
                tile >= 1,
                pixels@.len() == y * side + x,
                forall|px: int, py: int|
                    0 <= px < side && 0 <= py < y ==> #[trigger] pixels@[py * side + px]
                        == checker_pixel(px as nat, py as nat, tile as nat),
                forall|px: int|
                    0 <= px < x ==> #[trigger] pixels@[y * side + px] == checker_pixel(
                        px as nat,
                        y as nat,
                        tile as nat,
                    ),
            decreases side - x,
        {
            let ghost before = pixels@;
            pixels.push(make_checker_pixel(x, y, tile));
            assert forall|px: int, py: int| 0 <= px < side && 0 <= py < y implies
            #[trigger] pixels@[py * side + px] == checker_pixel(
                px as nat,
                py as nat,
                tile as nat,
            ) by {
                assert(0 <= py * side && py * side + px < y * side) by (nonlinear_arith)
                    requires
                        0 <= px < side,
                        0 <= py < y,
                ;
                assert(pixels@[py * side + px] == before[py * side + px]);
            }
            x += 1;
        }
        assert(y * side + side == (y + 1) * side) by (nonlinear_arith);
        assert forall|px: int, py: int| 0 <= px < side && 0 <= py < y + 1 implies
        #[trigger] pixels@[py * side + px] == checker_pixel(px as nat, py as nat, tile as nat) by {
            if py == y {
                assert(pixels@[y * side + px] == checker_pixel(px as nat, y as nat, tile as nat));
            }
        }
        y += 1;
    }
    Texture { width: side, height: side, pixels }
}

} // verus!
