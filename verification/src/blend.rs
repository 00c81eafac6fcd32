//! Blending and filtering of pixels in linear light.

use crate::blend_laws::{
    law_clear_pixels_give_nothing, law_opaque_sources_hide_their_destination,
};
use crate::fb::{
    channels_of, linear_pixel, pixel_value, sample_place, sample_places, argb8888, Framebuffer, LinearPixel,
    LinearTable,
};
use crate::float::{Float32, ONE};
use vstd::prelude::*;

verus! {

/// The bits of the largest channel value.
pub const FULL_CHANNEL: u32 = 0x437f_0000;

/// For each encoded channel value but the lowest, the linear light that it starts at.
#[derive(Debug)]
pub struct EncodingTable {
    starts: Vec<Float32>,
}

impl View for EncodingTable {
    type V = Seq<Float32>;

    closed spec fn view(&self) -> Seq<Float32> {
        self.starts@
    }
}

/// How many values from `index` on start at most at a linear light, up to the first that starts
/// beyond it.
pub open spec fn reached(starts: Seq<Float32>, light: Float32, index: int) -> int
    decreases starts.len() - index,
{
    if 0 <= index < starts.len() && starts[index].at_most(light) {
        reached(starts, light, index + 1)
    } else {
        index
    }
}

/// The encoded value of a linear light: the last one that starts at most there.
pub open spec fn encoded(starts: Seq<Float32>, light: Float32) -> u8 {
    reached(starts, light, 0) as u8
}

/// Whether there is a start for each channel value but the lowest, and the first of them lies above
/// no light.
pub open spec fn is_encoding_table(starts: Seq<Float32>) -> bool {
    starts.len() == 255 && (Float32 { bits: 0 }).less(starts[0])
}

impl EncodingTable {
    #[verifier::type_invariant]
    spec fn usable(self) -> bool {
        is_encoding_table(self.starts@)
    }

    /// The table with these starts, if there is one for each channel value but the lowest, and the
    /// first of them lies above no light.
    pub fn new(starts: Vec<Float32>) -> (result: Option<EncodingTable>)
        ensures
            match result {
                Some(table) => is_encoding_table(starts@) && table@ == starts@,
                None => !is_encoding_table(starts@),
            },
    {
        if starts.len() != 255 || !(Float32 { bits: 0 }).is_less(starts[0]) {
            return None;
        }
        Some(EncodingTable { starts })
    }

    /// The encoded value of a linear light.
    pub fn encode(&self, light: Float32) -> (result: u8)
        ensures
            result == encoded(self@, light),
            result == reached(self@, light, 0),
            is_encoding_table(self@),
    {
        proof {
            use_type_invariant(self);
        }
        let mut i: usize = 0;
        while i < 255 && self.starts[i].is_at_most(light)
            invariant
                i <= 255,
                self.starts@.len() == 255,
                reached(self.starts@, light, 0) == reached(self.starts@, light, i as int),
            decreases 255 - i,
        {
            i += 1;
        }
        i as u8
    }
}

/// The byte of an opacity.
pub open spec fn opacity_byte(alpha: Float32) -> u8 {
    (alpha.clamped_to_unit() * (Float32 { bits: FULL_CHANNEL })).rounded(255) as u8
}

/// The encoded pixel of linear light.
pub open spec fn encoded_pixel(starts: Seq<Float32>, pixel: LinearPixel) -> u32 {
    pixel_value(
        opacity_byte(pixel.alpha),
        encoded(starts, pixel.red),
        encoded(starts, pixel.green),
        encoded(starts, pixel.blue),
    ) as u32
}

/// Encodes a pixel of linear light. Opacity stays linear.
pub fn argb8888_linear(pixel: LinearPixel, encoding: &EncodingTable) -> (result: u32)
    ensures
        result == encoded_pixel(encoding@, pixel),
        is_encoding_table(encoding@),
{
    let alpha: u64 = (pixel.alpha.clamp_to_unit() * Float32 { bits: FULL_CHANNEL }).round_to(255);
    argb8888(
        alpha as u8,
        encoding.encode(pixel.red),
        encoding.encode(pixel.green),
        encoding.encode(pixel.blue),
    )
}

/// A channel of a pixel over another one.
pub open spec fn channel_over(
    alpha: Float32,
    below: Float32,
    below_alpha: Float32,
    above: Float32,
    above_alpha: Float32,
) -> Float32 {
    if (Float32 { bits: 0 }).less(alpha) {
        (above * above_alpha + below * below_alpha * ((Float32 { bits: ONE }) - above_alpha))
            / alpha
    } else {
        Float32 { bits: 0 }
    }
}

/// A pixel over another one, in linear light.
pub open spec fn over(below: LinearPixel, above: LinearPixel) -> LinearPixel {
    let alpha = above.alpha + below.alpha * ((Float32 { bits: ONE }) - above.alpha);
    LinearPixel {
        alpha,
        red: channel_over(alpha, below.red, below.alpha, above.red, above.alpha),
        green: channel_over(alpha, below.green, below.alpha, above.green, above.alpha),
        blue: channel_over(alpha, below.blue, below.alpha, above.blue, above.alpha),
    }
}

fn blend_channel(
    alpha: Float32,
    below: Float32,
    below_alpha: Float32,
    above: Float32,
    above_alpha: Float32,
) -> (result: Float32)
    ensures
        result == channel_over(alpha, below, below_alpha, above, above_alpha),
{
    if (Float32 { bits: 0 }).is_less(alpha) {
        let rest: Float32 = Float32 { bits: ONE } - above_alpha;
        (above * above_alpha + below * below_alpha * rest) / alpha
    } else {
        Float32 { bits: 0 }
    }
}

/// A pixel over another one, in linear light.
pub fn blend_linear(below: LinearPixel, above: LinearPixel) -> (result: LinearPixel)
    ensures
        result == over(below, above),
{
    let alpha: Float32 = above.alpha + below.alpha * (Float32 { bits: ONE } - above.alpha);
    LinearPixel {
        alpha,
        red: blend_channel(alpha, below.red, below.alpha, above.red, above.alpha),
        green: blend_channel(alpha, below.green, below.alpha, above.green, above.alpha),
        blue: blend_channel(alpha, below.blue, below.alpha, above.blue, above.alpha),
    }
}

/// An encoded pixel over another one: both are decoded, blended and encoded again. An opaque pixel
/// hides what it is drawn over, and two clear ones give nothing.
pub fn blend_argb8888_linear(
    destination: u32,
    source: u32,
    linear: &LinearTable,
    encoding: &EncodingTable,
) -> (result: u32)
    ensures
        result == encoded_pixel(
            encoding@,
            over(linear_pixel(linear@, destination), linear_pixel(linear@, source)),
        ),
        channels_of(source).0 == 255 ==> channels_of(result).0 == 255 && result == encoded_pixel(
            encoding@,
            linear_pixel(linear@, source),
        ),
        channels_of(destination).0 == 0 && channels_of(source).0 == 0 ==> result == 0,
{
    let below: LinearPixel = linear.decode(destination);
    let above: LinearPixel = linear.decode(source);
    let result: u32 = argb8888_linear(blend_linear(below, above), encoding);
    proof {
        if channels_of(source).0 == 255 {
            law_opaque_sources_hide_their_destination(linear@, encoding@, destination, source);
        }
        if channels_of(destination).0 == 0 && channels_of(source).0 == 0 {
            law_clear_pixels_give_nothing(linear@, encoding@, destination, source);
        }
    }
    result
}

/// The sums of the first pixels: of their opacities, and of their channels times their opacities.
pub open spec fn summed(pixels: Seq<LinearPixel>, count: int) -> LinearPixel
    decreases count,
{
    if count <= 0 {
        let zero = Float32 { bits: 0 };
        LinearPixel { alpha: zero, red: zero, green: zero, blue: zero }
    } else {
        let before = summed(pixels, count - 1);
        let pixel = pixels[count - 1];
        LinearPixel {
            alpha: before.alpha + pixel.alpha,
            red: before.red + pixel.red * pixel.alpha,
            green: before.green + pixel.green * pixel.alpha,
            blue: before.blue + pixel.blue * pixel.alpha,
        }
    }
}

/// The mean of pixels of which the sums are known. Opaque pixels weigh more.
pub open spec fn mean_of(sums: LinearPixel, count: Float32) -> LinearPixel {
    let zero = Float32 { bits: 0 };
    let alpha = sums.alpha / count;
    if alpha.same_value(zero) {
        LinearPixel { alpha, red: zero, green: zero, blue: zero }
    } else {
        LinearPixel {
            alpha,
            red: (sums.red / count) / alpha,
            green: (sums.green / count) / alpha,
            blue: (sums.blue / count) / alpha,
        }
    }
}

impl Framebuffer {
    /// The linear light of a pixel: as it is kept, or decoded.
    pub open spec fn light_at(self, table: Seq<Float32>, place: int) -> LinearPixel {
        match self.linear {
            Some(pixels) => pixels@[place],
            None => linear_pixel(table, self.color@[place]),
        }
    }

    /// Whether there is a pixel for every place.
    pub open spec fn covers(self) -> bool {
        &&& self.width * self.height <= usize::MAX
        &&& self.color@.len() >= self.width * self.height
        &&& self.depth@.len() >= self.width * self.height
        &&& self.linear matches Some(pixels) ==> pixels@.len() >= self.width * self.height
    }

    /// The samples that go into a pixel of a smaller framebuffer.
    pub open spec fn samples_for(
        self,
        table: Seq<Float32>,
        scale: nat,
        columns: nat,
        place: int,
    ) -> Seq<LinearPixel> {
        Seq::new(
            scale * scale,
            |i: int|
                self.light_at(
                    table,
                    sample_place(
                        self.width as nat,
                        scale,
                        place % columns as int,
                        place / columns as int,
                        i,
                    ),
                ),
        )
    }

    /// A pixel of a smaller framebuffer.
    pub open spec fn mean_for(
        self,
        table: Seq<Float32>,
        scale: nat,
        columns: nat,
        place: int,
    ) -> LinearPixel {
        mean_of(
            summed(self.samples_for(table, scale, columns, place), (scale * scale) as int),
            Float32::of_integer(false, scale * scale),
        )
    }

    fn find_light(&self, table: &LinearTable, place: usize) -> (result: LinearPixel)
        requires
            place < self.color@.len(),
            self.linear matches Some(pixels) ==> place < pixels@.len(),
        ensures
            result == self.light_at(table@, place as int),
    {
        match &self.linear {
            Some(pixels) => pixels[place],
            None => table.decode(self.color[place]),
        }
    }

    fn find_mean(&self, table: &LinearTable, scale: usize, columns: usize, place: usize) -> (result:
        LinearPixel)
        requires
            self.covers(),
            scale > 0,
            columns > 0,
            (place as int % columns as int + 1) * scale <= self.width,
            (place as int / columns as int + 1) * scale <= self.height,
            scale * scale <= usize::MAX,
        ensures
            result == self.mean_for(table@, scale as nat, columns as nat, place as int),
    {
        let places: Vec<usize> = sample_places(
            self.width,
            self.height,
            scale,
            place % columns,
            place / columns,
        );
        let ghost samples = self.samples_for(table@, scale as nat, columns as nat, place as int);
        let zero: Float32 = Float32 { bits: 0 };
        let mut sums: LinearPixel = LinearPixel { alpha: zero, red: zero, green: zero, blue: zero };
        let mut i: usize = 0;
        while i < places.len()
            invariant
                i <= places@.len(),
                self.covers(),
                samples == self.samples_for(table@, scale as nat, columns as nat, place as int),
                places@.len() == scale * scale,
                forall|k: int|
                    0 <= k < places@.len() ==> (#[trigger] places@[k]) == sample_place(
                        self.width as nat,
                        scale as nat,
                        (place % columns) as int,
                        (place / columns) as int,
                        k,
                    ) && places@[k] < self.width * self.height,
                sums == summed(samples, i as int),
            decreases places@.len() - i,
        {
            let pixel: LinearPixel = self.find_light(table, places[i]);
            assert(pixel == samples[i as int]);
            sums = LinearPixel {
                alpha: sums.alpha + pixel.alpha,
                red: sums.red + pixel.red * pixel.alpha,
                green: sums.green + pixel.green * pixel.alpha,
                blue: sums.blue + pixel.blue * pixel.alpha,
            };
            i += 1;
        }
        let count: Float32 = Float32::from_integer(false, places.len() as u64);
        let alpha: Float32 = sums.alpha / count;
        if alpha.equals(zero) {
            return LinearPixel { alpha, red: zero, green: zero, blue: zero };
        }
        LinearPixel {
            alpha,
            red: (sums.red / count) / alpha,
            green: (sums.green / count) / alpha,
            blue: (sums.blue / count) / alpha,
        }
    }

    /// Scales this framebuffer down into a smaller one, with a box filter in linear light that
    /// weighs opaque pixels more. Where the shapes are not whole multiples by the same factor,
    /// nothing happens.
    pub fn downsample_linear_into(
        &self,
        destination: &mut Framebuffer,
        table: &LinearTable,
        encoding: &EncodingTable,
    )
        requires
            self.scale_to(*old(destination)) is Some ==> self.covers() && old(
                destination,
            ).covers(),
        ensures
            match self.scale_to(*old(destination)) {
                None => *final(destination) == *old(destination),
                Some(scale) => {
                    let columns = old(destination).width as nat;
                    let count = old(destination).width * old(destination).height;
                    &&& final(destination).width == old(destination).width
                    &&& final(destination).height == old(destination).height
                    &&& final(destination).depth@ == Seq::new(
                        old(destination).depth@.len(),
                        |i: int|
                            if i < count {
                                Float32 { bits: ONE }
                            } else {
                                old(destination).depth@[i]
                            },
                    )
                    &&& final(destination).color@ == Seq::new(
                        old(destination).color@.len(),
                        |i: int|
                            if i >= count {
                                old(destination).color@[i]
                            } else if old(destination).linear is Some {
                                0
                            } else {
                                encoded_pixel(
                                    encoding@,
                                    self.mean_for(table@, scale, columns, i),
                                )
                            },
                    )
                    &&& match (final(destination).linear, old(destination).linear) {
                        (Some(after), Some(before)) => after@ == Seq::new(
                            before@.len(),
                            |i: int|
                                if i < count {
                                    self.mean_for(table@, scale, columns, i)
                                } else {
                                    before@[i]
                                },
                        ),
                        (None, None) => true,
                        _ => false,
                    }
                },
            },
    {
        let scale: usize = match self.downsample_scale(destination) {
            Some(scale) => scale,
            None => {
                return ;
            },
        };
        let ghost before = *destination;
        let columns: usize = destination.width;
        let rows: usize = destination.height;
        proof {
            crate::fb::lemma_whole_multiple(self.width as nat, columns as nat);
            crate::fb::lemma_whole_multiple(self.height as nat, rows as nat);
            assert(scale * scale <= self.width * self.height) by (nonlinear_arith)
                requires
                    self.width == scale * columns,
                    self.height == scale * rows,
                    columns >= 1,
                    rows >= 1,
                    scale >= 1,
            ;
        }
        let count: usize = columns * rows;
        let mut linear: Option<Vec<LinearPixel>> = destination.linear.take();
        let mut i: usize = 0;
        while i < count
            invariant
                i <= count,
                count == columns * rows,
                before == *old(destination),
                columns == before.width,
                rows == before.height,
                columns >= 1,
                scale >= 1,
                self.width == scale * columns,
                self.height == scale * rows,
                scale * scale <= usize::MAX,
                self.covers(),
                before.covers(),
                destination.width == before.width,
                destination.height == before.height,
                destination.color@.len() == before.color@.len(),
                destination.depth@.len() == before.depth@.len(),
                forall|k: int|
                    0 <= k < before.depth@.len() ==> (#[trigger] destination.depth@[k]) == if k < i {
                        Float32 { bits: ONE }
                    } else {
                        before.depth@[k]
                    },
                forall|k: int|
                    0 <= k < before.color@.len() ==> (#[trigger] destination.color@[k]) == if k >= i {
                        before.color@[k]
                    } else if before.linear is Some {
                        0
                    } else {
                        encoded_pixel(
                            encoding@,
                            self.mean_for(table@, scale as nat, columns as nat, k),
                        )
                    },
                match (linear, before.linear) {
                    (Some(now), Some(was)) => now@.len() == was@.len() && forall|k: int|
                        0 <= k < was@.len() ==> (#[trigger] now@[k]) == if k < i {
                            self.mean_for(table@, scale as nat, columns as nat, k)
                        } else {
                            was@[k]
                        },
                    (None, None) => true,
                    _ => false,
                },
            decreases count - i,
        {
            proof {
                lemma_place_within(
                    i as int,
                    columns as int,
                    rows as int,
                    scale as int,
                    self.width as int,
                    self.height as int,
                );
            }
            let mean: LinearPixel = self.find_mean(table, scale, columns, i);
            match linear {
                Some(mut pixels) => {
                    pixels.set(i, mean);
                    linear = Some(pixels);
                    destination.color.set(i, 0);
                },
                None => {
                    linear = None;
                    destination.color.set(i, argb8888_linear(mean, encoding));
                },
            }
            destination.depth.set(i, Float32 { bits: ONE });
            i += 1;
        }
        destination.linear = linear;
    }
}

proof fn lemma_place_within(
    place: int,
    columns: int,
    rows: int,
    scale: int,
    width: int,
    height: int,
)
    requires
        0 <= place < columns * rows,
        columns >= 1,
        scale >= 1,
        width == scale * columns,
        height == scale * rows,
    ensures
        (place % columns + 1) * scale <= width,
        (place / columns + 1) * scale <= height,
        0 <= place % columns,
        0 <= place / columns,
{
    let x = place % columns;
    let y = place / columns;
    vstd::arithmetic::div_mod::lemma_fundamental_div_mod(place, columns);
    vstd::arithmetic::div_mod::lemma_mod_bound(place, columns);
    assert(y < rows) by (nonlinear_arith)
        requires
            place == columns * y + x,
            0 <= x,
            place < columns * rows,
            columns >= 1,
    ;
    assert(0 <= y) by (nonlinear_arith)
        requires
            place == columns * y + x,
            0 <= place,
            x < columns,
            columns >= 1,
    ;
    assert((x + 1) * scale <= scale * columns) by (nonlinear_arith)
        requires
            x + 1 <= columns,
            scale >= 1,
    ;
    assert((y + 1) * scale <= scale * rows) by (nonlinear_arith)
        requires
            y + 1 <= rows,
            scale >= 1,
    ;
}

impl Framebuffer {
    /// Writes a pixel of linear light, over what is there if it is blended. Without linear light,
    /// or beyond the last pixel, nothing happens.
    pub fn write_linear_pixel(&mut self, index: usize, source: LinearPixel, blend: bool)
        ensures
            final(self).color == old(self).color,
            final(self).depth == old(self).depth,
            final(self).width == old(self).width,
            final(self).height == old(self).height,
            match (final(self).linear, old(self).linear) {
                (Some(after), Some(before)) => after@ == if index < before@.len() {
                    before@.update(
                        index as int,
                        if blend {
                            over(before@[index as int], source)
                        } else {
                            source
                        },
                    )
                } else {
                    before@
                },
                (None, None) => true,
                _ => false,
            },
    {
        match self.linear.take() {
            Some(mut pixels) => {
                if index < pixels.len() {
                    if blend {
                        let pixel: LinearPixel = blend_linear(pixels[index], source);
                        pixels.set(index, pixel);
                    } else {
                        pixels.set(index, source);
                    }
                }
                self.linear = Some(pixels);
            },
            None => {},
        }
    }
}

} // verus!
