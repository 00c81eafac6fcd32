//! Pixels and framebuffers.

use crate::float::{Float32, ONE};
use vstd::prelude::*;

verus! {

/// The number that a pixel with these channels is.
pub open spec fn pixel_value(alpha: u8, red: u8, green: u8, blue: u8) -> int {
    alpha * 0x100_0000 + red * 0x1_0000 + green * 0x100 + blue
}

/// Packs four channels into a pixel, alpha in the highest byte.
pub fn argb8888(alpha: u8, red: u8, green: u8, blue: u8) -> (result: u32)
    ensures
        result == pixel_value(alpha, red, green, blue),
{
    alpha as u32 * 0x100_0000 + red as u32 * 0x1_0000 + green as u32 * 0x100 + blue as u32
}

/// The channels of a pixel: alpha, red, green, blue.
pub open spec fn channels_of(pixel: u32) -> (u8, u8, u8, u8) {
    (
        (pixel / 0x100_0000) as u8,
        (pixel / 0x1_0000 % 0x100) as u8,
        (pixel / 0x100 % 0x100) as u8,
        (pixel % 0x100) as u8,
    )
}

/// Unpacks a pixel into alpha, red, green and blue.
pub fn channels(pixel: u32) -> (result: (u8, u8, u8, u8))
    ensures
        result == channels_of(pixel),
{
    (
        (pixel / 0x100_0000) as u8,
        (pixel / 0x1_0000 % 0x100) as u8,
        (pixel / 0x100 % 0x100) as u8,
        (pixel % 0x100) as u8,
    )
}

/// Packed channels fit in a pixel and are unpacked again.
pub proof fn lemma_packed(alpha: u8, red: u8, green: u8, blue: u8)
    ensures
        0 <= pixel_value(alpha, red, green, blue) <= u32::MAX,
        channels_of(pixel_value(alpha, red, green, blue) as u32) == (alpha, red, green, blue),
{
    let low = green * 0x100 + blue;
    let middle = red * 0x1_0000 + low;
    let pixel = pixel_value(alpha, red, green, blue);
    assert(pixel == alpha * 0x100_0000 + middle);
    assert(0 <= low < 0x1_0000);
    assert(0 <= middle < 0x100_0000);
    assert(pixel / 0x100_0000 == alpha);
    assert(pixel / 0x1_0000 == alpha * 0x100 + red);
    assert((alpha * 0x100 + red) % 0x100 == red);
    assert(pixel / 0x100 == alpha * 0x1_0000 + red * 0x100 + green);
    assert((alpha * 0x1_0000 + red * 0x100 + green) % 0x100 == green);
    assert(pixel % 0x100 == blue);
}

proof fn lemma_unpacked(pixel: u32)
    ensures
        pixel_value(
            channels_of(pixel).0,
            channels_of(pixel).1,
            channels_of(pixel).2,
            channels_of(pixel).3,
        ) == pixel,
{
    let top = pixel / 0x100_0000;
    let upper = pixel / 0x1_0000;
    let most = pixel / 0x100;
    assert(most / 0x100 == upper);
    assert(upper / 0x100 == top);
    assert(pixel == most * 0x100 + pixel % 0x100);
    assert(most == upper * 0x100 + most % 0x100);
    assert(upper == top * 0x100 + upper % 0x100);
    assert(top < 0x100);
}

/// Unpacking gives back what was packed, and packing what was unpacked.
pub proof fn law_packing_is_lossless(alpha: u8, red: u8, green: u8, blue: u8, pixel: u32)
    ensures
        0 <= pixel_value(alpha, red, green, blue) <= u32::MAX,
        channels_of(pixel_value(alpha, red, green, blue) as u32) == (alpha, red, green, blue),
        pixel_value(
            channels_of(pixel).0,
            channels_of(pixel).1,
            channels_of(pixel).2,
            channels_of(pixel).3,
        ) == pixel,
{
    lemma_packed(alpha, red, green, blue);
    lemma_unpacked(pixel);
}

/// The linear light of each encoded channel value.
#[derive(Debug)]
pub struct LinearTable {
    entries: Vec<Float32>,
}

impl View for LinearTable {
    type V = Seq<Float32>;

    closed spec fn view(&self) -> Seq<Float32> {
        self.entries@
    }
}

/// A pixel of linear light: alpha, red, green, blue.
#[derive(Clone, Copy, Debug, PartialEq)]
pub struct LinearPixel {
    pub alpha: Float32,
    pub red: Float32,
    pub green: Float32,
    pub blue: Float32,
}

/// The linear light of an encoded pixel. Alpha is linear already.
pub open spec fn linear_pixel(table: Seq<Float32>, pixel: u32) -> LinearPixel {
    let (alpha, red, green, blue) = channels_of(pixel);
    LinearPixel {
        alpha: Float32::of_integer(false, alpha as nat).quotient(255),
        red: table[red as int],
        green: table[green as int],
        blue: table[blue as int],
    }
}

/// Whether there is a finite entry for each channel value.
pub open spec fn is_linear_table(entries: Seq<Float32>) -> bool {
    entries.len() == 256 && forall|i: int| 0 <= i < 256 ==> (#[trigger] entries[i]).finite()
}

impl LinearTable {
    #[verifier::type_invariant]
    spec fn usable(self) -> bool {
        is_linear_table(self.entries@)
    }

    /// The table with these entries, if there is a finite one for each channel value.
    pub fn new(entries: Vec<Float32>) -> (result: Option<LinearTable>)
        ensures
            match result {
                Some(table) => is_linear_table(entries@) && table@ == entries@,
                None => !is_linear_table(entries@),
            },
    {
        if entries.len() != 256 {
            return None;
        }
        let mut i: usize = 0;
        while i < 256
            invariant
                i <= 256,
                entries@.len() == 256,
                forall|j: int| 0 <= j < i ==> (#[trigger] entries@[j]).finite(),
            decreases 256 - i,
        {
            if !entries[i].is_finite() {
                assert(!entries@[i as int].finite());
                return None;
            }
            i += 1;
        }
        Some(LinearTable { entries })
    }

    /// The linear light of an encoded pixel.
    pub fn decode(&self, pixel: u32) -> (result: LinearPixel)
        ensures
            result == linear_pixel(self@, pixel),
            is_linear_table(self@),
    {
        proof {
            use_type_invariant(self);
        }
        let (alpha, red, green, blue): (u8, u8, u8, u8) = channels(pixel);
        LinearPixel {
            alpha: Float32::from_integer(false, alpha as u64).divide_by(255),
            red: self.entries[red as usize],
            green: self.entries[green as usize],
            blue: self.entries[blue as usize],
        }
    }
}

/// Encoded pixels with a depth each. In the high dynamic range mode there is linear light for
/// each pixel besides.
#[derive(Debug)]
pub struct Framebuffer {
    pub color: Vec<u32>,
    pub depth: Vec<Float32>,
    pub width: usize,
    pub height: usize,
    pub linear: Option<Vec<LinearPixel>>,
}

/// A framebuffer as mathematics.
#[verifier::ext_equal]
pub struct FramebufferModel {
    pub color: Seq<u32>,
    pub depth: Seq<Float32>,
    pub width: usize,
    pub height: usize,
    pub linear: Option<Seq<LinearPixel>>,
}

impl View for Framebuffer {
    type V = FramebufferModel;

    open spec fn view(&self) -> FramebufferModel {
        FramebufferModel {
            color: self.color@,
            depth: self.depth@,
            width: self.width,
            height: self.height,
            linear: match self.linear {
                Some(pixels) => Some(pixels@),
                None => None,
            },
        }
    }
}

/// How many pixels there are, as far as a `usize` can tell.
pub open spec fn pixel_count(width: usize, height: usize) -> nat {
    if width * height > usize::MAX {
        usize::MAX as nat
    } else {
        (width * height) as nat
    }
}

/// A list that holds the same value everywhere.
pub open spec fn constant<A>(value: A, length: nat) -> Seq<A> {
    Seq::new(length, |i: int| value)
}

/// The linear light of encoded pixels.
pub open spec fn decoded(table: Seq<Float32>, color: Seq<u32>) -> Seq<LinearPixel> {
    Seq::new(color.len(), |i: int| linear_pixel(table, color[i]))
}

impl FramebufferModel {
    /// The framebuffer with black pixels, all at the far end.
    pub open spec fn blank(width: usize, height: usize) -> FramebufferModel {
        FramebufferModel {
            color: constant(0u32, pixel_count(width, height)),
            depth: constant(Float32 { bits: ONE }, pixel_count(width, height)),
            width,
            height,
            linear: None,
        }
    }

    /// Where a pixel is, if it is on the framebuffer.
    pub open spec fn place_of(self, x: usize, y: usize) -> Option<int> {
        if x < self.width && y < self.height && y * self.width + x <= usize::MAX {
            Some(y * self.width + x)
        } else {
            None
        }
    }
}

fn count_pixels(width: usize, height: usize) -> (result: usize)
    ensures
        result == pixel_count(width, height),
{
    match width.checked_mul(height) {
        Some(count) => count,
        None => usize::MAX,
    }
}

fn fill<A: Copy>(value: A, length: usize) -> (result: Vec<A>)
    ensures
        result@ == constant(value, length as nat),
{
    let mut filled: Vec<A> = Vec::new();
    let mut i: usize = 0;
    while i < length
        invariant
            i <= length,
            filled@ =~= constant(value, i as nat),
        decreases length - i,
    {
        filled.push(value);
        i += 1;
    }
    filled
}

impl Framebuffer {
    pub fn new(width: usize, height: usize) -> (result: Framebuffer)
        ensures
            result@ == FramebufferModel::blank(width, height),
    {
        let count: usize = count_pixels(width, height);
        Framebuffer {
            color: fill(0u32, count),
            depth: fill(Float32 { bits: ONE }, count),
            width,
            height,
            linear: None,
        }
    }

    /// Sets the mode. Turned on, the linear light is that of the encoded pixels; turned off, it
    /// is gone.
    pub fn set_hdr(&mut self, hdr: bool, table: &LinearTable)
        ensures
            final(self)@ == (FramebufferModel {
                linear: if hdr {
                    Some(decoded(table@, old(self)@.color))
                } else {
                    None
                },
                ..old(self)@
            }),
    {
        if !hdr {
            self.linear = None;
            return ;
        }
        let mut pixels: Vec<LinearPixel> = Vec::new();
        let mut i: usize = 0;
        while i < self.color.len()
            invariant
                i <= self.color@.len(),
                *self == *old(self),
                pixels@ =~= Seq::new(i as nat, |j: int| linear_pixel(table@, self.color@[j])),
            decreases self.color@.len() - i,
        {
            pixels.push(table.decode(self.color[i]));
            i += 1;
        }
        assert(pixels@ =~= decoded(table@, self.color@));
        self.linear = Some(pixels);
    }

    pub fn is_hdr(&self) -> (result: bool)
        ensures
            result == (self@.linear is Some),
    {
        self.linear.is_some()
    }

    /// The linear light, in the high dynamic range mode.
    pub fn linear_pixels(&self) -> (result: Option<&[LinearPixel]>)
        ensures
            match result {
                Some(pixels) => self@.linear == Some(pixels@),
                None => self@.linear is None,
            },
    {
        match &self.linear {
            Some(pixels) => Some(pixels.as_slice()),
            None => None,
        }
    }

    /// Gives every pixel a color and moves it to the far end.
    pub fn clear(&mut self, color: u32, table: &LinearTable)
        ensures
            final(self)@ == (FramebufferModel {
                color: constant(color, old(self)@.color.len()),
                depth: constant(Float32 { bits: ONE }, old(self)@.depth.len()),
                linear: match old(self)@.linear {
                    Some(pixels) => Some(constant(linear_pixel(table@, color), pixels.len())),
                    None => None,
                },
                ..old(self)@
            }),
    {
        self.color = fill(color, self.color.len());
        self.depth = fill(Float32 { bits: ONE }, self.depth.len());
        let count: Option<usize> = match &self.linear {
            Some(pixels) => Some(pixels.len()),
            None => None,
        };
        match count {
            Some(length) => {
                self.linear = Some(fill(table.decode(color), length));
            },
            None => {},
        }
    }

    /// Takes another shape, with nothing on it, in the same mode.
    pub fn resize(&mut self, width: usize, height: usize, table: &LinearTable)
        ensures
            final(self)@ == (FramebufferModel {
                linear: if old(self)@.linear is Some {
                    Some(
                        decoded(table@, FramebufferModel::blank(width, height).color),
                    )
                } else {
                    None
                },
                ..FramebufferModel::blank(width, height)
            }),
    {
        let was_hdr: bool = self.is_hdr();
        let count: usize = count_pixels(width, height);
        self.width = width;
        self.height = height;
        self.color = fill(0u32, count);
        self.depth = fill(Float32 { bits: ONE }, count);
        self.linear = None;
        self.set_hdr(was_hdr, table);
    }

    /// Writes a pixel. One that is not on the framebuffer, or has no place in a buffer, is
    /// ignored.
    pub fn put_pixel(&mut self, x: usize, y: usize, color: u32, table: &LinearTable)
        ensures
            match old(self)@.place_of(x, y) {
                None => final(self)@ == old(self)@,
                Some(place) => final(self)@ == (FramebufferModel {
                    color: if place < old(self)@.color.len() {
                        old(self)@.color.update(place, color)
                    } else {
                        old(self)@.color
                    },
                    linear: match old(self)@.linear {
                        Some(pixels) => if place < pixels.len() {
                            Some(pixels.update(place, linear_pixel(table@, color)))
                        } else {
                            Some(pixels)
                        },
                        None => None,
                    },
                    ..old(self)@
                }),
            },
    {
        if x >= self.width || y >= self.height {
            return ;
        }
        let index: usize = match y.checked_mul(self.width) {
            None => {
                assert(y * self.width + x > usize::MAX);
                return ;
            },
            Some(row) => match row.checked_add(x) {
                None => {
                    return ;
                },
                Some(index) => index,
            },
        };
        if index < self.color.len() {
            self.color.set(index, color);
        }
        match self.linear.take() {
            Some(mut pixels) => {
                if index < pixels.len() {
                    pixels.set(index, table.decode(color));
                }
                self.linear = Some(pixels);
            },
            None => {},
        }
    }

    /// How many source pixels, in each direction, go into one pixel of a destination: the shapes
    /// have to be whole multiples, by the same factor.
    pub open spec fn scale_to(self, destination: Framebuffer) -> Option<nat> {
        if destination.width == 0 || destination.height == 0 || self.width == 0 || self.height == 0
            || self.width % destination.width != 0 || self.height % destination.height != 0
            || self.width / destination.width != self.height / destination.height {
            None
        } else {
            Some((self.width / destination.width) as nat)
        }
    }

    /// The factor by which this framebuffer is larger than a destination that it can be scaled
    /// down to.
    pub fn downsample_scale(&self, destination: &Framebuffer) -> (result: Option<usize>)
        ensures
            match result {
                Some(scale) => self.scale_to(*destination) == Some(scale as nat) && scale > 0,
                None => self.scale_to(*destination) is None,
            },
    {
        if destination.width == 0 || destination.height == 0 || self.width == 0 || self.height == 0
            || self.width % destination.width != 0 || self.height % destination.height != 0 {
            return None;
        }
        let scale: usize = self.width / destination.width;
        if scale != self.height / destination.height {
            return None;
        }
        proof {
            lemma_whole_multiple(self.width as nat, destination.width as nat);
        }
        Some(scale)
    }
}

pub proof fn lemma_whole_multiple(length: nat, part: nat)
    requires
        length > 0,
        part > 0,
        length % part == 0,
    ensures
        length == (length / part) * part,
        length / part > 0,
{
    vstd::arithmetic::div_mod::lemma_fundamental_div_mod(length as int, part as int);
    assert(part * (length / part) == (length / part) * part) by (nonlinear_arith);
    if length / part == 0 {
        assert((length / part) * part == 0) by (nonlinear_arith)
            requires
                length / part == 0,
        ;
    }
}

/// The place of the source pixel that is sample `sample` of a destination pixel. The samples
/// run through a square of `scale` by `scale` pixels, row after row.
pub open spec fn sample_place(width: nat, scale: nat, x: int, y: int, sample: int) -> int {
    (y * scale + sample / scale as int) * width + x * scale + sample % scale as int
}

/// The places of the source pixels that go into a destination pixel.
pub fn sample_places(width: usize, height: usize, scale: usize, x: usize, y: usize) -> (result: Vec<
    usize,
>)
    requires
        scale > 0,
        (x + 1) * scale <= width,
        (y + 1) * scale <= height,
        width * height <= usize::MAX,
    ensures
        result@.len() == scale * scale,
        forall|i: int|
            0 <= i < result@.len() ==> (#[trigger] result@[i]) == sample_place(
                width as nat,
                scale as nat,
                x as int,
                y as int,
                i,
            ) && result@[i] < width * height,
{
    let mut places: Vec<usize> = Vec::new();
    let mut row: usize = 0;
    proof {
        assert(0 * scale == 0) by (nonlinear_arith);
    }
    while row < scale
        invariant
            row <= scale,
            scale > 0,
            (x + 1) * scale <= width,
            (y + 1) * scale <= height,
            width * height <= usize::MAX,
            places@.len() == row * scale,
            forall|i: int|
                0 <= i < places@.len() ==> (#[trigger] places@[i]) == sample_place(
                    width as nat,
                    scale as nat,
                    x as int,
                    y as int,
                    i,
                ) && places@[i] < width * height,
        decreases scale - row,
    {
        let mut column: usize = 0;
        while column < scale
            invariant
                row < scale,
                column <= scale,
                scale > 0,
                (x + 1) * scale <= width,
                (y + 1) * scale <= height,
                width * height <= usize::MAX,
                places@.len() == row * scale + column,
                forall|i: int|
                    0 <= i < places@.len() ==> (#[trigger] places@[i]) == sample_place(
                        width as nat,
                        scale as nat,
                        x as int,
                        y as int,
                        i,
                    ) && places@[i] < width * height,
            decreases scale - column,
        {
            proof {
                lemma_sample(width as int, height as int, scale as int, x as int, y as int, row as int, column as int);
            }
            let place: usize = (y * scale + row) * width + x * scale + column;
            places.push(place);
            column += 1;
        }
        proof {
            assert(row * scale + scale == (row + 1) * scale) by (nonlinear_arith);
        }
        row += 1;
    }
    places
}

proof fn lemma_sample(width: int, height: int, scale: int, x: int, y: int, row: int, column: int)
    requires
        0 <= x,
        0 <= y,
        0 <= row < scale,
        0 <= column < scale,
        (x + 1) * scale <= width,
        (y + 1) * scale <= height,
    ensures
        0 <= y * scale,
        0 <= x * scale,
        y * scale + row < height,
        x * scale + column < width,
        0 <= (y * scale + row) * width,
        (y * scale + row) * width + x * scale + column < width * height,
        sample_place(width as nat, scale as nat, x, y, row * scale + column) == (y * scale + row)
            * width + x * scale + column,
{
    assert((y + 1) * scale == y * scale + scale) by (nonlinear_arith);
    assert((x + 1) * scale == x * scale + scale) by (nonlinear_arith);
    assert(0 <= y * scale) by (nonlinear_arith)
        requires
            0 <= y,
            0 < scale,
    ;
    assert(0 <= x * scale) by (nonlinear_arith)
        requires
            0 <= x,
            0 < scale,
    ;
    let line = y * scale + row;
    let at = x * scale + column;
    assert(0 <= line * width) by (nonlinear_arith)
        requires
            0 <= line,
            0 <= width,
    ;
    assert(line * width + at < width * height) by (nonlinear_arith)
        requires
            0 <= line < height,
            0 <= at < width,
    ;
    vstd::arithmetic::div_mod::lemma_fundamental_div_mod_converse(
        row * scale + column,
        scale,
        row,
        column,
    );
}

/// Whatever the factor, a source pixel goes into one destination pixel only, and as one sample
/// only.
pub proof fn law_samples_do_not_overlap(
    width: nat,
    scale: nat,
    columns: nat,
    x: int,
    y: int,
    sample: int,
    other_x: int,
    other_y: int,
    other_sample: int,
)
    requires
        scale > 0,
        width == columns * scale,
        0 <= x < columns,
        0 <= other_x < columns,
        0 <= y,
        0 <= other_y,
        0 <= sample < scale * scale,
        0 <= other_sample < scale * scale,
        sample_place(width, scale, x, y, sample) == sample_place(
            width,
            scale,
            other_x,
            other_y,
            other_sample,
        ),
    ensures
        x == other_x,
        y == other_y,
        sample == other_sample,
{
    let (row, column) = lemma_sample_parts(scale as int, sample);
    let (other_row, other_column) = lemma_sample_parts(scale as int, other_sample);
    let line = y * scale + row;
    let other_line = other_y * scale + other_row;
    let at = x * scale + column;
    let other_at = other_x * scale + other_column;
    lemma_within_row(columns as int, scale as int, x, column);
    lemma_within_row(columns as int, scale as int, other_x, other_column);
    lemma_same_parts(width as int, line, at, other_line, other_at);
    lemma_same_parts(scale as int, y, row, other_y, other_row);
    lemma_same_parts(scale as int, x, column, other_x, other_column);
}

proof fn lemma_sample_parts(scale: int, sample: int) -> (parts: (int, int))
    requires
        scale > 0,
        0 <= sample < scale * scale,
    ensures
        parts.0 == sample / scale,
        parts.1 == sample % scale,
        0 <= parts.0 < scale,
        0 <= parts.1 < scale,
        sample == parts.0 * scale + parts.1,
{
    vstd::arithmetic::div_mod::lemma_fundamental_div_mod(sample, scale);
    let row = sample / scale;
    let column = sample % scale;
    assert(scale * row == row * scale) by (nonlinear_arith);
    assert(0 <= row) by (nonlinear_arith)
        requires
            row * scale + column == sample,
            0 <= column < scale,
            0 <= sample,
    ;
    assert(row < scale) by (nonlinear_arith)
        requires
            row * scale + column == sample,
            0 <= column,
            sample < scale * scale,
            scale > 0,
    ;
    (row, column)
}

proof fn lemma_within_row(columns: int, scale: int, x: int, column: int)
    requires
        0 <= x < columns,
        0 <= column < scale,
    ensures
        0 <= x * scale + column < columns * scale,
{
    assert(0 <= x * scale + column < columns * scale) by (nonlinear_arith)
        requires
            0 <= x < columns,
            0 <= column < scale,
    ;
}

proof fn lemma_same_parts(unit: int, whole: int, part: int, other_whole: int, other_part: int)
    requires
        0 <= part < unit,
        0 <= other_part < unit,
        whole * unit + part == other_whole * unit + other_part,
    ensures
        whole == other_whole,
        part == other_part,
{
    assert(whole == other_whole) by (nonlinear_arith)
        requires
            0 <= part < unit,
            0 <= other_part < unit,
            whole * unit + part == other_whole * unit + other_part,
    ;
}

} // verus!
