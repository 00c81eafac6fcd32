//! Text drawn over a finished picture.

use crate::blend::{blend_argb8888_linear, encoded_pixel, over, EncodingTable};
use crate::fb::{linear_pixel, Framebuffer, FramebufferModel, LinearTable};
use crate::float::Float32;
use crate::font::{ascii_hud, covered, hud, hud_models, text_pixels, HudLine, HudModel};
use vstd::prelude::*;

verus! {

/// A color over an encoded pixel.
pub open spec fn pixel_over(
    linear: Seq<Float32>,
    encoding: Seq<Float32>,
    below: u32,
    color: u32,
) -> u32 {
    encoded_pixel(encoding, over(linear_pixel(linear, below), linear_pixel(linear, color)))
}

/// A framebuffer with a color over one of its pixels. Pixels that have no place are left out.
pub open spec fn with_pixel_over(
    framebuffer: FramebufferModel,
    linear: Seq<Float32>,
    encoding: Seq<Float32>,
    pixel: (usize, usize),
    color: u32,
) -> FramebufferModel {
    match framebuffer.place_of(pixel.0, pixel.1) {
        None => framebuffer,
        Some(place) => if place < framebuffer.color.len() {
            FramebufferModel {
                color: framebuffer.color.update(
                    place,
                    pixel_over(linear, encoding, framebuffer.color[place], color),
                ),
                ..framebuffer
            }
        } else {
            framebuffer
        },
    }
}

/// A framebuffer with a color over the first of some pixels, one after the other.
pub open spec fn with_pixels_over(
    framebuffer: FramebufferModel,
    linear: Seq<Float32>,
    encoding: Seq<Float32>,
    pixels: Seq<(usize, usize)>,
    color: u32,
    count: int,
) -> FramebufferModel
    decreases count,
{
    if count <= 0 {
        framebuffer
    } else {
        with_pixel_over(
            with_pixels_over(framebuffer, linear, encoding, pixels, color, count - 1),
            linear,
            encoding,
            pixels[count - 1],
            color,
        )
    }
}

/// A framebuffer with a text over it.
pub open spec fn with_text(
    framebuffer: FramebufferModel,
    linear: Seq<Float32>,
    encoding: Seq<Float32>,
    line: HudModel,
) -> FramebufferModel {
    let pixels = covered(
        framebuffer.width,
        framebuffer.height,
        line.x as i32,
        line.y as i32,
        line.text,
        line.scale as usize,
    );
    with_pixels_over(
        framebuffer,
        linear,
        encoding,
        pixels,
        line.color as u32,
        pixels.len() as int,
    )
}

/// A framebuffer with the first of some lines over it, one after the other.
pub open spec fn with_lines(
    framebuffer: FramebufferModel,
    linear: Seq<Float32>,
    encoding: Seq<Float32>,
    lines: Seq<HudModel>,
    count: int,
) -> FramebufferModel
    decreases count,
{
    if count <= 0 {
        framebuffer
    } else {
        with_text(
            with_lines(framebuffer, linear, encoding, lines, count - 1),
            linear,
            encoding,
            lines[count - 1],
        )
    }
}

impl Framebuffer {
    /// Puts a color over an encoded pixel. One that is not on the framebuffer, or has no place in
    /// the buffer, is ignored.
    pub fn blend_pixel(
        &mut self,
        x: usize,
        y: usize,
        color: u32,
        linear: &LinearTable,
        encoding: &EncodingTable,
    )
        ensures
            final(self)@ == with_pixel_over(old(self)@, linear@, encoding@, (x, y), color),
    {
        if x >= self.width || y >= self.height {
            return ;
        }
        let index: usize = match y.checked_mul(self.width) {
            None => {
                assert(y * self.width + x > usize::MAX);
                return ;
            },
            Some(row) => match row.checked_add(x) {
                None => {
                    return ;
                },
                Some(index) => index,
            },
        };
        if index < self.color.len() {
            let blended: u32 = blend_argb8888_linear(self.color[index], color, linear, encoding);
            self.color.set(index, blended);
        }
    }

    /// Draws a text over the encoded pixels, clipped at every edge.
    pub fn draw_text(
        &mut self,
        x: i32,
        y: i32,
        text: &str,
        scale: usize,
        color: u32,
        linear: &LinearTable,
        encoding: &EncodingTable,
    )
        ensures
            final(self)@ == with_text(
                old(self)@,
                linear@,
                encoding@,
                (HudModel {
                    x: x as int,
                    y: y as int,
                    text: text@,
                    scale: scale as int,
                    color: color as int,
                }),
            ),
            final(self)@.width == old(self)@.width,
            final(self)@.height == old(self)@.height,
    {
        let pixels: Vec<(usize, usize)> = text_pixels(self.width, self.height, x, y, text, scale);
        let mut i: usize = 0;
        while i < pixels.len()
            invariant
                i <= pixels@.len(),
                self@ == with_pixels_over(
                    old(self)@,
                    linear@,
                    encoding@,
                    pixels@,
                    color,
                    i as int,
                ),
                self@.width == old(self)@.width,
                self@.height == old(self)@.height,
            decreases pixels@.len() - i,
        {
            self.blend_pixel(pixels[i].0, pixels[i].1, color, linear, encoding);
            i += 1;
        }
    }

    /// Draws the overlay of all printable characters.
    pub fn draw_ascii_hud(
        &mut self,
        frame_number: u32,
        linear: &LinearTable,
        encoding: &EncodingTable,
    )
        ensures
            final(self)@ == with_lines(
                old(self)@,
                linear@,
                encoding@,
                hud(frame_number),
                hud(frame_number).len() as int,
            ),
    {
        let lines: Vec<HudLine> = ascii_hud(frame_number);
        let mut i: usize = 0;
        while i < lines.len()
            invariant
                i <= lines@.len(),
                hud_models(lines@) == hud(frame_number),
                self@ == with_lines(
                    old(self)@,
                    linear@,
                    encoding@,
                    hud(frame_number),
                    i as int,
                ),
            decreases lines@.len() - i,
        {
            let line: &HudLine = &lines[i];
            assert(hud(frame_number)[i as int] == line@);
            self.draw_text(
                line.x,
                line.y,
                line.text.as_str(),
                line.scale,
                line.color,
                linear,
                encoding,
            );
            i += 1;
        }
    }
}

} // verus!
