//! What the demos share: their arguments, the order of the post-processing passes, pictures in
//! the PPM format, and simple meshes and textures.
//!
//! Every demo takes the same arguments:
//!
//! - `--frames N`: stop after `N` frames.
//! - `--screenshot <path.ppm>`: render without a window and write the last frame.
//! - `--size WxH`: the size of the picture.
//! - `--ssaa`: supersample, twice in each direction.
//! - `--bloom`, `--fxaa`, `--vignette`, `--ssao`: post-processing passes.
//! - `--hdr`: keep linear values through rendering and bloom.
//! - `--exposure X`: scale the linear values before they are mapped to the screen.
//! - `--ibl`: light with an environment.

use crate::decimal::Reading;
use crate::fb::{channels, channels_of, Framebuffer};
use crate::float::{Float32, ONE};
use crate::math::{Vec2, Vec3};
use crate::mesh::{mesh_of, plain_vertex, Mesh, MeshVertex};
use crate::records::{
    piece, read_single, read_unsigned, reading_value, single_reading, unsigned_number,
    value_of_reading,
};
use crate::text::{characters, decimal_digits, decimal_text, join2, same_text, texts};
use crate::topology::are_in_range;
use vstd::prelude::*;
use vstd::string::*;

verus! {

/// How many frames of a screenshot make a second.
pub const SCREENSHOT_FPS: u32 = 0x4270_0000;

/// The arguments of a demo.
#[derive(Debug, PartialEq)]
pub struct DemoArgs {
    pub frames: Option<usize>,
    pub screenshot: Option<String>,
    pub size: Option<(u32, u32)>,
    pub ssaa: bool,
    pub bloom: bool,
    pub fxaa: bool,
    pub vignette: bool,
    pub ssao: bool,
    pub hdr: bool,
    pub ibl: bool,
    pub exposure: Float32,
}

/// The arguments of a demo as mathematics.
#[verifier::ext_equal]
pub struct ArgsModel {
    pub frames: Option<usize>,
    pub screenshot: Option<Seq<char>>,
    pub size: Option<(u32, u32)>,
    pub ssaa: bool,
    pub bloom: bool,
    pub fxaa: bool,
    pub vignette: bool,
    pub ssao: bool,
    pub hdr: bool,
    pub ibl: bool,
    pub exposure: Float32,
}

impl View for DemoArgs {
    type V = ArgsModel;

    open spec fn view(&self) -> ArgsModel {
        ArgsModel {
            frames: self.frames,
            screenshot: match self.screenshot {
                Some(path) => Some(path@),
                None => None,
            },
            size: self.size,
            ssaa: self.ssaa,
            bloom: self.bloom,
            fxaa: self.fxaa,
            vignette: self.vignette,
            ssao: self.ssao,
            hdr: self.hdr,
            ibl: self.ibl,
            exposure: self.exposure,
        }
    }
}

/// The arguments of a demo that is given none.
pub open spec fn no_args() -> ArgsModel {
    ArgsModel {
        frames: None,
        screenshot: None,
        size: None,
        ssaa: false,
        bloom: false,
        fxaa: false,
        vignette: false,
        ssao: false,
        hdr: false,
        ibl: false,
        exposure: Float32 { bits: ONE },
    }
}

impl Default for DemoArgs {
    fn default() -> (result: DemoArgs)
        ensures
            result@ == no_args(),
    {
        DemoArgs {
            frames: None,
            screenshot: None,
            size: None,
            ssaa: false,
            bloom: false,
            fxaa: false,
            vignette: false,
            ssao: false,
            hdr: false,
            ibl: false,
            exposure: Float32 { bits: ONE },
        }
    }
}

/// Where the first `x` of a text is, small or capital, from `index` on.
pub open spec fn cross_from(text: Seq<char>, index: int) -> int
    decreases text.len() - index,
{
    if 0 <= index < text.len() && text[index] != 'x' && text[index] != 'X' {
        cross_from(text, index + 1)
    } else {
        index
    }
}

/// The size that a text describes.
pub open spec fn size_in(text: Seq<char>) -> Result<(u32, u32), Seq<char>> {
    let cross = cross_from(text, 0);
    if cross >= text.len() {
        Err("--size wants WxH, got "@ + text)
    } else {
        match unsigned_number(text.take(cross), u32::MAX as nat) {
            None => Err("invalid width in --size "@ + text),
            Some(width) => match unsigned_number(text.skip(cross + 1), u32::MAX as nat) {
                None => Err("invalid height in --size "@ + text),
                Some(height) => if width == 0 || height == 0 {
                    Err("--size dimensions must be non-zero, got "@ + text)
                } else {
                    Ok((width as u32, height as u32))
                },
            },
        }
    }
}

/// What an argument without a value makes of the arguments.
pub open spec fn with_flag(args: ArgsModel, argument: Seq<char>) -> Option<ArgsModel> {
    if argument == "--ssaa"@ {
        Some(ArgsModel { ssaa: true, ..args })
    } else if argument == "--bloom"@ {
        Some(ArgsModel { bloom: true, ..args })
    } else if argument == "--fxaa"@ {
        Some(ArgsModel { fxaa: true, ..args })
    } else if argument == "--vignette"@ {
        Some(ArgsModel { vignette: true, ..args })
    } else if argument == "--ssao"@ {
        Some(ArgsModel { ssao: true, ..args })
    } else if argument == "--hdr"@ {
        Some(ArgsModel { hdr: true, ..args })
    } else if argument == "--ibl"@ {
        Some(ArgsModel { ibl: true, ..args })
    } else {
        None
    }
}

/// Whether an argument has a value.
pub open spec fn has_value(argument: Seq<char>) -> bool {
    argument == "--frames"@ || argument == "--screenshot"@ || argument == "--size"@ || argument
        == "--exposure"@
}

/// What is said of an argument whose value is missing.
pub open spec fn missing_value(argument: Seq<char>) -> Seq<char> {
    if argument == "--frames"@ {
        "--frames needs a number"@
    } else if argument == "--screenshot"@ {
        "--screenshot needs a path"@
    } else if argument == "--size"@ {
        "--size needs WxH"@
    } else {
        "--exposure needs a number"@
    }
}

/// What an argument with a value makes of the arguments.
pub open spec fn with_value(args: ArgsModel, argument: Seq<char>, value: Seq<char>) -> Result<
    ArgsModel,
    Seq<char>,
> {
    if argument == "--frames"@ {
        match unsigned_number(value, usize::MAX as nat) {
            Some(frames) => Ok(ArgsModel { frames: Some(frames as usize), ..args }),
            None => Err("invalid --frames value "@ + value),
        }
    } else if argument == "--screenshot"@ {
        Ok(ArgsModel { screenshot: Some(value), ..args })
    } else if argument == "--size"@ {
        match size_in(value) {
            Ok(size) => Ok(ArgsModel { size: Some(size), ..args }),
            Err(message) => Err(message),
        }
    } else {
        match single_reading(value) {
            Reading::Invalid => Err("invalid --exposure value "@ + value),
            read => Ok(ArgsModel { exposure: reading_value(read), ..args }),
        }
    }
}

/// What the arguments from `index` on make of the arguments.
pub open spec fn args_from(list: Seq<Seq<char>>, index: int, args: ArgsModel) -> Result<
    ArgsModel,
    Seq<char>,
>
    decreases list.len() - index,
{
    if !(0 <= index < list.len()) {
        Ok(args)
    } else if has_value(list[index]) {
        if index + 1 >= list.len() {
            Err(missing_value(list[index]))
        } else {
            match with_value(args, list[index], list[index + 1]) {
                Err(message) => Err(message),
                Ok(next) => args_from(list, index + 2, next),
            }
        }
    } else {
        match with_flag(args, list[index]) {
            None => Err("unexpected argument: "@ + list[index]),
            Some(next) => args_from(list, index + 1, next),
        }
    }
}

/// A pass over a finished picture.
#[derive(Clone, Copy, Debug, PartialEq)]
pub enum PostPass {
    /// Darkens corners by the depth of their surroundings, for which it needs the projection.
    Ssao,
    Bloom,
    Vignette,
    /// Maps linear values to the screen, with this exposure.
    AcesTonemap(Float32),
    Fxaa,
}

impl ArgsModel {
    /// The passes that need nothing but the picture. Linear values are mapped to the screen after
    /// the vignette and before the edges are smoothed.
    pub open spec fn color_passes(self) -> Seq<PostPass> {
        let bloom = if self.bloom {
            seq![PostPass::Bloom]
        } else {
            Seq::empty()
        };
        let vignette = if self.vignette {
            seq![PostPass::Vignette]
        } else {
            Seq::empty()
        };
        let fxaa = if self.fxaa {
            seq![PostPass::Fxaa]
        } else {
            Seq::empty()
        };
        if self.hdr {
            bloom + vignette + seq![PostPass::AcesTonemap(self.exposure)] + fxaa
        } else {
            bloom + fxaa + vignette
        }
    }

    /// All passes, the one that needs the projection first.
    pub open spec fn all_passes(self) -> Seq<PostPass> {
        if self.ssao {
            seq![PostPass::Ssao] + self.color_passes()
        } else {
            self.color_passes()
        }
    }
}

fn find_cross(text: &[char]) -> (result: usize)
    ensures
        result == cross_from(text@, 0),
        result <= text@.len(),
{
    let mut i: usize = 0;
    while i < text.len() && text[i] != 'x' && text[i] != 'X'
        invariant
            i <= text@.len(),
            cross_from(text@, 0) == cross_from(text@, i as int),
        decreases text@.len() - i,
    {
        i += 1;
    }
    i
}

/// Parses a size.
pub fn parse_size(value: &str) -> (result: Result<(u32, u32), String>)
    ensures
        match result {
            Ok(size) => size_in(value@) == Ok::<(u32, u32), Seq<char>>(size),
            Err(message) => size_in(value@) == Err::<(u32, u32), Seq<char>>(message@),
        },
{
    let text: Vec<char> = characters(value);
    let cross: usize = find_cross(text.as_slice());
    if cross >= text.len() {
        return Err(join2("--size wants WxH, got ", value));
    }
    let left: Vec<char> = piece(text.as_slice(), 0, cross);
    let right: Vec<char> = piece(text.as_slice(), cross + 1, text.len());
    assert(left@ =~= value@.take(cross as int));
    assert(right@ =~= value@.skip(cross + 1));
    let width: u64 = match read_unsigned(left.as_slice(), u32::MAX as u64) {
        Some(width) => width,
        None => {
            return Err(join2("invalid width in --size ", value));
        },
    };
    let height: u64 = match read_unsigned(right.as_slice(), u32::MAX as u64) {
        Some(height) => height,
        None => {
            return Err(join2("invalid height in --size ", value));
        },
    };
    if width == 0 || height == 0 {
        return Err(join2("--size dimensions must be non-zero, got ", value));
    }
    Ok((width as u32, height as u32))
}

fn takes_value(argument: &str) -> (result: bool)
    ensures
        result == has_value(argument@),
{
    same_text(argument, "--frames") || same_text(argument, "--screenshot") || same_text(
        argument,
        "--size",
    ) || same_text(argument, "--exposure")
}

fn say_missing(argument: &str) -> (result: String)
    ensures
        result@ == missing_value(argument@),
{
    if same_text(argument, "--frames") {
        "--frames needs a number".to_owned()
    } else if same_text(argument, "--screenshot") {
        "--screenshot needs a path".to_owned()
    } else if same_text(argument, "--size") {
        "--size needs WxH".to_owned()
    } else {
        "--exposure needs a number".to_owned()
    }
}

impl DemoArgs {
    fn take_flag(&mut self, argument: &str) -> (result: bool)
        ensures
            match with_flag(old(self)@, argument@) {
                Some(next) => result && final(self)@ == next,
                None => !result && final(self)@ == old(self)@,
            },
    {
        if same_text(argument, "--ssaa") {
            self.ssaa = true;
        } else if same_text(argument, "--bloom") {
            self.bloom = true;
        } else if same_text(argument, "--fxaa") {
            self.fxaa = true;
        } else if same_text(argument, "--vignette") {
            self.vignette = true;
        } else if same_text(argument, "--ssao") {
            self.ssao = true;
        } else if same_text(argument, "--hdr") {
            self.hdr = true;
        } else if same_text(argument, "--ibl") {
            self.ibl = true;
        } else {
            return false;
        }
        true
    }

    fn take_value(&mut self, argument: &str, value: &str) -> (result: Result<(), String>)
        ensures
            match result {
                Ok(_) => with_value(old(self)@, argument@, value@) == Ok::<ArgsModel, Seq<char>>(
                    final(self)@,
                ),
                Err(message) => with_value(old(self)@, argument@, value@) == Err::<
                    ArgsModel,
                    Seq<char>,
                >(message@),
            },
    {
        let text: Vec<char> = characters(value);
        if same_text(argument, "--frames") {
            match read_unsigned(text.as_slice(), usize::MAX as u64) {
                Some(frames) => {
                    self.frames = Some(frames as usize);
                },
                None => {
                    return Err(join2("invalid --frames value ", value));
                },
            }
        } else if same_text(argument, "--screenshot") {
            self.screenshot = Some(value.to_owned());
        } else if same_text(argument, "--size") {
            self.size = Some(parse_size(value)?);
        } else {
            match read_single(text.as_slice()) {
                Reading::Invalid => {
                    return Err(join2("invalid --exposure value ", value));
                },
                read => {
                    self.exposure = value_of_reading(read);
                },
            }
        }
        Ok(())
    }

    /// Parses the arguments of a demo.
    pub fn parse(source: &[String]) -> (result: Result<DemoArgs, String>)
        ensures
            match result {
                Ok(args) => args_from(texts(source@), 0, no_args()) == Ok::<ArgsModel, Seq<char>>(
                    args@,
                ),
                Err(message) => args_from(texts(source@), 0, no_args()) == Err::<
                    ArgsModel,
                    Seq<char>,
                >(message@),
            },
    {
        let ghost list = texts(source@);
        let mut args: DemoArgs = DemoArgs::default();
        let mut i: usize = 0;
        while i < source.len()
            invariant
                i <= source@.len(),
                list == texts(source@),
                args_from(list, 0, no_args()) == args_from(list, i as int, args@),
            decreases source@.len() - i,
        {
            let argument: &str = source[i].as_str();
            assert(list[i as int] == argument@);
            if takes_value(argument) {
                if source.len() - i < 2 {
                    return Err(say_missing(argument));
                }
                let value: &str = source[i + 1].as_str();
                assert(list[i + 1] == value@);
                match args.take_value(argument, value) {
                    Err(message) => {
                        return Err(message);
                    },
                    Ok(_) => {},
                }
                i += 2;
            } else {
                if !args.take_flag(argument) {
                    return Err(join2("unexpected argument: ", argument));
                }
                i += 1;
            }
        }
        Ok(args)
    }

    fn push_color_passes(&self, chain: &mut Vec<PostPass>)
        ensures
            final(chain)@ == old(chain)@ + self@.color_passes(),
    {
        let ghost start = chain@;
        if self.bloom {
            chain.push(PostPass::Bloom);
        }
        if self.hdr {
            if self.vignette {
                chain.push(PostPass::Vignette);
            }
            chain.push(PostPass::AcesTonemap(self.exposure));
            if self.fxaa {
                chain.push(PostPass::Fxaa);
            }
        } else {
            if self.fxaa {
                chain.push(PostPass::Fxaa);
            }
            if self.vignette {
                chain.push(PostPass::Vignette);
            }
        }
        assert(chain@ =~= start + self@.color_passes());
    }

    /// The passes that need nothing but the picture, in order.
    pub fn post_chain(&self) -> (result: Vec<PostPass>)
        ensures
            result@ == self@.color_passes(),
    {
        let mut chain: Vec<PostPass> = Vec::new();
        self.push_color_passes(&mut chain);
        assert(chain@ =~= self@.color_passes());
        chain
    }

    /// All passes, in order. The first may need the projection of the frame.
    pub fn post_chain_with_projection(&self) -> (result: Vec<PostPass>)
        ensures
            result@ == self@.all_passes(),
    {
        let mut chain: Vec<PostPass> = Vec::new();
        if self.ssao {
            chain.push(PostPass::Ssao);
        }
        self.push_color_passes(&mut chain);
        assert(chain@ =~= self@.all_passes());
        chain
    }

    /// The size of the picture.
    pub fn picture_size(&self, default_width: u32, default_height: u32) -> (result: (u32, u32))
        ensures
            result == (match self@.size {
                Some(size) => size,
                None => (default_width, default_height),
            }),
    {
        match self.size {
            Some(size) => size,
            None => (default_width, default_height),
        }
    }

    /// How many frames a screenshot takes: one at least, and a second without an argument.
    pub fn screenshot_frames(&self) -> (result: usize)
        ensures
            result == (match self@.frames {
                None => 60,
                Some(frames) => if frames == 0 {
                    1
                } else {
                    frames
                },
            }),
    {
        match self.frames {
            None => 60,
            Some(frames) => if frames == 0 {
                1
            } else {
                frames
            },
        }
    }
}

/// Whatever the arguments, linear values are mapped to the screen exactly in the linear mode, and
/// then after every other pass but the one that smooths the edges.
pub proof fn law_tonemapping_follows_linear_passes(args: ArgsModel)
    ensures
        args.color_passes().contains(PostPass::AcesTonemap(args.exposure)) == args.hdr,
        args.hdr ==> args.color_passes()[args.color_passes().len() - 1 - if args.fxaa {
            1int
        } else {
            0int
        }] == PostPass::AcesTonemap(args.exposure),
        args.color_passes().contains(PostPass::Bloom) ==> args.color_passes()[0] == PostPass::Bloom,
        args.ssao ==> args.all_passes()[0] == PostPass::Ssao,
{
    let chain = args.color_passes();
    if args.hdr {
        let at = chain.len() - 1 - if args.fxaa {
            1int
        } else {
            0int
        };
        assert(chain[at] == PostPass::AcesTonemap(args.exposure));
    }
}

/// The bytes of a text of ASCII characters.
pub open spec fn ascii_bytes(text: Seq<char>) -> Seq<u8> {
    Seq::new(text.len(), |i: int| text[i] as u8)
}

/// The colors of the first `count` pixels, three bytes each.
pub open spec fn color_bytes(color: Seq<u32>, count: int) -> Seq<u8>
    decreases count,
{
    if count <= 0 {
        Seq::empty()
    } else {
        let (_, red, green, blue) = channels_of(color[count - 1]);
        color_bytes(color, count - 1) + seq![red, green, blue]
    }
}

/// The head of a picture in the PPM format.
pub open spec fn ppm_head(width: nat, height: nat) -> Seq<u8> {
    ascii_bytes("P6\n"@) + ascii_bytes(decimal_digits(width)) + ascii_bytes(" "@) + ascii_bytes(
        decimal_digits(height),
    ) + ascii_bytes("\n255\n"@)
}

fn push_ascii(bytes: &mut Vec<u8>, text: &str)
    ensures
        final(bytes)@ == old(bytes)@ + ascii_bytes(text@),
{
    let ghost start = bytes@;
    let list: Vec<char> = characters(text);
    let mut i: usize = 0;
    while i < list.len()
        invariant
            i <= list@.len(),
            list@ == text@,
            bytes@ =~= start + ascii_bytes(text@).take(i as int),
        decreases list@.len() - i,
    {
        bytes.push(list[i] as u8);
        i += 1;
    }
    assert(ascii_bytes(text@).take(text@.len() as int) =~= ascii_bytes(text@));
}

/// A picture in the binary PPM format.
pub fn ppm_bytes(framebuffer: &Framebuffer) -> (result: Vec<u8>)
    requires
        framebuffer@.width * framebuffer@.height <= framebuffer@.color.len(),
    ensures
        result@ == ppm_head(framebuffer@.width as nat, framebuffer@.height as nat) + color_bytes(
            framebuffer@.color,
            framebuffer@.width * framebuffer@.height,
        ),
{
    let mut bytes: Vec<u8> = Vec::new();
    push_ascii(&mut bytes, "P6\n");
    push_ascii(&mut bytes, decimal_text(framebuffer.width as u64).as_str());
    push_ascii(&mut bytes, " ");
    push_ascii(&mut bytes, decimal_text(framebuffer.height as u64).as_str());
    push_ascii(&mut bytes, "\n255\n");
    let ghost head = bytes@;
    assert(head =~= ppm_head(framebuffer@.width as nat, framebuffer@.height as nat));
    assert(framebuffer.color.len() == framebuffer@.color.len());
    let count: usize = framebuffer.width * framebuffer.height;
    let mut i: usize = 0;
    assert(head + Seq::empty() =~= head);
    while i < count
        invariant
            i <= count <= framebuffer.color@.len(),
            bytes@ == head + color_bytes(framebuffer.color@, i as int),
        decreases count - i,
    {
        let (_, red, green, blue): (u8, u8, u8, u8) = channels(framebuffer.color[i]);
        let ghost before = color_bytes(framebuffer.color@, i as int);
        bytes.push(red);
        bytes.push(green);
        bytes.push(blue);
        assert(bytes@ =~= head + (before + seq![red, green, blue]));
        i += 1;
    }
    bytes
}

/// A picture holds three bytes for each pixel after its head.
pub proof fn law_pictures_hold_every_pixel(color: Seq<u32>, count: int)
    requires
        0 <= count <= color.len(),
    ensures
        color_bytes(color, count).len() == 3 * count,
        forall|i: int|
            0 <= i < count ==> color_bytes(color, count)[3 * i] == (#[trigger] channels_of(
                color[i],
            )).1 && color_bytes(color, count)[3 * i + 1] == channels_of(color[i]).2 && color_bytes(
                color,
                count,
            )[3 * i + 2] == channels_of(color[i]).3,
    decreases count,
{
    if count > 0 {
        law_pictures_hold_every_pixel(color, count - 1);
    }
}

/// One of the two triangles of each cell of a grid, row after row. The corners of a grid are
/// numbered row after row too, with one more than there are cells in each direction.
pub open spec fn grid_triangle(columns: int, rising: bool, index: int) -> [usize; 3] {
    let cell = index / 2;
    let a = cell / columns * (columns + 1) + cell % columns;
    let b = a + 1;
    let c = a + columns + 1;
    let d = c + 1;
    if rising {
        if index % 2 == 0 {
            [a as usize, c as usize, b as usize]
        } else {
            [b as usize, c as usize, d as usize]
        }
    } else {
        if index % 2 == 0 {
            [a as usize, b as usize, c as usize]
        } else {
            [b as usize, d as usize, c as usize]
        }
    }
}

/// The triangles of a grid.
pub open spec fn grid(rows: nat, columns: nat, rising: bool) -> Seq<[usize; 3]> {
    Seq::new(2 * rows * columns, |i: int| grid_triangle(columns as int, rising, i))
}

proof fn lemma_grid_cell(rows: int, columns: int, row: int, column: int)
    requires
        0 <= row < rows,
        0 <= column < columns,
    ensures
        0 <= row * columns + column < rows * columns,
        (row * columns + column) / columns == row,
        (row * columns + column) % columns == column,
        0 <= row * (columns + 1),
        row * (columns + 1) + column + columns + 2 < (rows + 1) * (columns + 1),
{
    vstd::arithmetic::div_mod::lemma_fundamental_div_mod_converse(
        row * columns + column,
        columns,
        row,
        column,
    );
    assert(0 <= row * columns + column < rows * columns) by (nonlinear_arith)
        requires
            0 <= row < rows,
            0 <= column < columns,
    ;
    assert(0 <= row * (columns + 1)) by (nonlinear_arith)
        requires
            0 <= row,
            0 < columns,
    ;
    assert(row * (columns + 1) + column + columns + 2 < (rows + 1) * (columns + 1))
        by (nonlinear_arith)
        requires
            0 <= row < rows,
            0 <= column < columns,
    ;
}

/// The triangles of a grid of cells. In a rising grid the second corner of a triangle lies in the
/// next row.
pub fn grid_triangles(rows: usize, columns: usize, rising: bool) -> (result: Vec<[usize; 3]>)
    requires
        (rows + 1) * (columns + 1) <= usize::MAX,
    ensures
        result@ == grid(rows as nat, columns as nat, rising),
        are_in_range(result@, ((rows + 1) * (columns + 1)) as nat),
{
    let ghost total = (rows + 1) * (columns + 1);
    let mut triangles: Vec<[usize; 3]> = Vec::new();
    let mut row: usize = 0;
    assert(0 * columns == 0) by (nonlinear_arith);
    while row < rows
        invariant
            row <= rows,
            total == (rows + 1) * (columns + 1),
            total <= usize::MAX,
            triangles@.len() == 2 * (row * columns),
            forall|i: int|
                0 <= i < triangles@.len() ==> #[trigger] triangles@[i] == grid_triangle(
                    columns as int,
                    rising,
                    i,
                ),
            forall|i: int, k: int|
                0 <= i < triangles@.len() && 0 <= k < 3 ==> #[trigger] triangles@[i][k] < total,
        decreases rows - row,
    {
        let mut column: usize = 0;
        while column < columns
            invariant
                row < rows,
                column <= columns,
                total == (rows + 1) * (columns + 1),
                total <= usize::MAX,
                triangles@.len() == 2 * (row * columns + column),
                forall|i: int|
                    0 <= i < triangles@.len() ==> #[trigger] triangles@[i] == grid_triangle(
                        columns as int,
                        rising,
                        i,
                    ),
                forall|i: int, k: int|
                    0 <= i < triangles@.len() && 0 <= k < 3 ==> #[trigger] triangles@[i][k]
                        < total,
            decreases columns - column,
        {
            proof {
                lemma_grid_cell(rows as int, columns as int, row as int, column as int);
            }
            let ghost before = triangles@;
            let a: usize = row * (columns + 1) + column;
            let b: usize = a + 1;
            let c: usize = a + (columns + 1);
            let d: usize = c + 1;
            let first: [usize; 3] = if rising {
                [a, c, b]
            } else {
                [a, b, c]
            };
            let second: [usize; 3] = if rising {
                [b, c, d]
            } else {
                [b, d, c]
            };
            proof {
                let cell = row * columns + column;
                assert((2 * cell) / 2 == cell && (2 * cell + 1) / 2 == cell);
                let one = grid_triangle(columns as int, rising, 2 * cell);
                let two = grid_triangle(columns as int, rising, 2 * cell + 1);
                assert(first@ =~= one@);
                assert(first =~= one);
                assert(second@ =~= two@);
                assert(second =~= two);
            }
            triangles.push(first);
            triangles.push(second);
            assert forall|i: int, k: int| 0 <= i < triangles@.len() && 0 <= k < 3 implies
            #[trigger] triangles@[i][k] < total by {
                assert(k == 0 || k == 1 || k == 2);
                if i < before.len() {
                    assert(triangles@[i] == before[i]);
                    assert(before[i][k] < total);
                }
            }
            column += 1;
        }
        assert(row * columns + columns == (row + 1) * columns) by (nonlinear_arith);
        row += 1;
    }
    assert(2 * rows * columns == 2 * (rows * columns)) by (nonlinear_arith);
    assert(triangles@ =~= grid(rows as nat, columns as nat, rising));
    triangles
}

/// The rings and segments of a sphere: at least two rings of three segments.
pub fn sphere_resolution(rings: usize, segments: usize) -> (result: (usize, usize))
    ensures
        result.0 == if rings < 2 {
            2
        } else {
            rings
        },
        result.1 == if segments < 3 {
            3
        } else {
            segments
        },
{
    (
        if rings < 2 {
            2
        } else {
            rings
        },
        if segments < 3 {
            3
        } else {
            segments
        },
    )
}

/// The value one, or minus one.
pub open spec fn unit(negative: bool) -> Float32 {
    Float32::of(negative, ONE as nat)
}

/// The corner of a cube in the direction of these signs; a sign that is set is negative.
pub open spec fn cube_corner(e: Float32, x: bool, y: bool, z: bool) -> Vec3 {
    Vec3 {
        x: if x {
            e.opposite()
        } else {
            e
        },
        y: if y {
            e.opposite()
        } else {
            e
        },
        z: if z {
            e.opposite()
        } else {
            e
        },
    }
}

/// The texture coordinate of each corner of a face: the lower left one first, counterclockwise.
pub open spec fn face_texcoord(corner: int) -> Vec2 {
    let zero = Float32 { bits: 0 };
    let one = Float32 { bits: ONE };
    if corner == 0 {
        Vec2 { x: zero, y: one }
    } else if corner == 1 {
        Vec2 { x: one, y: one }
    } else if corner == 2 {
        Vec2 { x: one, y: zero }
    } else {
        Vec2 { x: zero, y: zero }
    }
}

/// The normal of a face: along z, x and y, forward and back.
pub open spec fn face_normal(face: int) -> Vec3 {
    let zero = Float32 { bits: 0 };
    if face == 0 {
        Vec3 { x: zero, y: zero, z: unit(false) }
    } else if face == 1 {
        Vec3 { x: zero, y: zero, z: unit(true) }
    } else if face == 2 {
        Vec3 { x: unit(false), y: zero, z: zero }
    } else if face == 3 {
        Vec3 { x: unit(true), y: zero, z: zero }
    } else if face == 4 {
        Vec3 { x: zero, y: unit(false), z: zero }
    } else {
        Vec3 { x: zero, y: unit(true), z: zero }
    }
}

/// Whether a corner of a face lies to the right, and whether it lies above.
pub open spec fn corner_side(corner: int) -> (bool, bool) {
    (corner == 1 || corner == 2, corner >= 2)
}

/// The place of a corner of a face, seen from outside.
pub open spec fn face_corner(e: Float32, face: int, corner: int) -> Vec3 {
    let (right, above) = corner_side(corner);
    if face == 0 {
        cube_corner(e, !right, !above, false)
    } else if face == 1 {
        cube_corner(e, right, !above, true)
    } else if face == 2 {
        cube_corner(e, false, !above, right)
    } else if face == 3 {
        cube_corner(e, true, !above, !right)
    } else if face == 4 {
        cube_corner(e, !right, false, above)
    } else {
        cube_corner(e, !right, true, !above)
    }
}

/// The vertices of a cube, four for each face.
pub open spec fn cube_vertices(e: Float32) -> Seq<MeshVertex> {
    Seq::new(
        24,
        |i: int|
            plain_vertex(
                face_corner(e, i / 4, i % 4),
                Some(face_texcoord(i % 4)),
                Some(face_normal(i / 4)),
                false,
            ),
    )
}

/// The triangles of a cube, two for each face.
pub open spec fn cube_triangle(index: int) -> [usize; 3] {
    let base = index / 2 * 4;
    if index % 2 == 0 {
        [base as usize, (base + 1) as usize, (base + 2) as usize]
    } else {
        [base as usize, (base + 2) as usize, (base + 3) as usize]
    }
}

fn make_corner(e: Float32, x: bool, y: bool, z: bool) -> (result: Vec3)
    ensures
        result == cube_corner(e, x, y, z),
{
    let minus: Float32 = e.negate();
    Vec3 {
        x: if x {
            minus
        } else {
            e
        },
        y: if y {
            minus
        } else {
            e
        },
        z: if z {
            minus
        } else {
            e
        },
    }
}

fn make_face_corner(e: Float32, face: usize, corner: usize) -> (result: Vec3)
    requires
        face < 6,
        corner < 4,
    ensures
        result == face_corner(e, face as int, corner as int),
{
    let right: bool = corner == 1 || corner == 2;
    let above: bool = corner >= 2;
    if face == 0 {
        make_corner(e, !right, !above, false)
    } else if face == 1 {
        make_corner(e, right, !above, true)
    } else if face == 2 {
        make_corner(e, false, !above, right)
    } else if face == 3 {
        make_corner(e, true, !above, !right)
    } else if face == 4 {
        make_corner(e, !right, false, above)
    } else {
        make_corner(e, !right, true, !above)
    }
}

fn make_face_normal(face: usize) -> (result: Vec3)
    requires
        face < 6,
    ensures
        result == face_normal(face as int),
{
    let zero: Float32 = Float32 { bits: 0 };
    let plus: Float32 = Float32 { bits: ONE };
    let minus: Float32 = plus.negate();
    if face == 0 {
        Vec3 { x: zero, y: zero, z: plus }
    } else if face == 1 {
        Vec3 { x: zero, y: zero, z: minus }
    } else if face == 2 {
        Vec3 { x: plus, y: zero, z: zero }
    } else if face == 3 {
        Vec3 { x: minus, y: zero, z: zero }
    } else if face == 4 {
        Vec3 { x: zero, y: plus, z: zero }
    } else {
        Vec3 { x: zero, y: minus, z: zero }
    }
}

fn make_face_texcoord(corner: usize) -> (result: Vec2)
    requires
        corner < 4,
    ensures
        result == face_texcoord(corner as int),
{
    let zero: Float32 = Float32 { bits: 0 };
    let one: Float32 = Float32 { bits: ONE };
    if corner == 0 {
        Vec2 { x: zero, y: one }
    } else if corner == 1 {
        Vec2 { x: one, y: one }
    } else if corner == 2 {
        Vec2 { x: one, y: zero }
    } else {
        Vec2 { x: zero, y: zero }
    }
}

/// A cube along the axes, with texture coordinates and outward normals for each face.
pub fn cube_with_uvs(half_extent: Float32) -> (result: Mesh)
    ensures
        result@ == mesh_of(
            cube_vertices(half_extent),
            Seq::new(12, |i: int| cube_triangle(i)),
        ),
{
    let mut vertices: Vec<MeshVertex> = Vec::new();
    let mut i: usize = 0;
    while i < 24
        invariant
            i <= 24,
            vertices@ =~= cube_vertices(half_extent).take(i as int),
        decreases 24 - i,
    {
        let face: usize = i / 4;
        let corner: usize = i % 4;
        vertices.push(
            MeshVertex::new(
                make_face_corner(half_extent, face, corner),
                Some(make_face_texcoord(corner)),
                Some(make_face_normal(face)),
            ),
        );
        i += 1;
    }
    let mut triangles: Vec<[usize; 3]> = Vec::new();
    let mut t: usize = 0;
    while t < 12
        invariant
            t <= 12,
            triangles@ =~= Seq::new(t as nat, |j: int| cube_triangle(j)),
        decreases 12 - t,
    {
        let base: usize = t / 2 * 4;
        let triangle: [usize; 3] = if t % 2 == 0 {
            [base, base + 1, base + 2]
        } else {
            [base, base + 2, base + 3]
        };
        proof {
            assert(triangle@ =~= cube_triangle(t as int)@);
            assert(triangle =~= cube_triangle(t as int));
        }
        triangles.push(triangle);
        t += 1;
    }
    assert(vertices@ =~= cube_vertices(half_extent));
    Mesh::new(vertices, triangles)
}

} // verus!
