//! The arguments and modes of the viewers.

use crate::demo::{args_from, no_args, ArgsModel, DemoArgs, PostPass};
use crate::float::Float32;
use crate::math::Vec3;
use crate::text::{characters, join2, join3, same_text, texts};
use vstd::prelude::*;
use vstd::string::*;

verus! {

/// A material of the shader playground.
#[derive(Clone, Copy, Debug, PartialEq, Eq, Structural)]
pub enum ShaderMode {
    Toon,
    Psx,
    Dither,
    Fog,
    Normals,
    Wireframe,
}

/// The mode with a name.
pub open spec fn mode_named(name: Seq<char>) -> Option<ShaderMode> {
    if name == "toon"@ {
        Some(ShaderMode::Toon)
    } else if name == "psx"@ {
        Some(ShaderMode::Psx)
    } else if name == "dither"@ {
        Some(ShaderMode::Dither)
    } else if name == "fog"@ {
        Some(ShaderMode::Fog)
    } else if name == "normals"@ {
        Some(ShaderMode::Normals)
    } else if name == "wireframe"@ || name == "wire"@ {
        Some(ShaderMode::Wireframe)
    } else {
        None
    }
}

/// The mode that a text names, or what is said where it names none.
pub open spec fn mode_in(name: Seq<char>) -> Result<ShaderMode, Seq<char>> {
    match mode_named(name) {
        Some(mode) => Ok(mode),
        None => Err(
            "unknown shader "@ + name
                + "; use toon, psx, dither, fog, normals, or wireframe"@,
        ),
    }
}

/// The place of a mode in the order of the modes.
pub open spec fn mode_place(mode: ShaderMode) -> int {
    match mode {
        ShaderMode::Toon => 0,
        ShaderMode::Psx => 1,
        ShaderMode::Dither => 2,
        ShaderMode::Fog => 3,
        ShaderMode::Normals => 4,
        ShaderMode::Wireframe => 5,
    }
}

/// The mode after another; the first after the last.
pub open spec fn mode_after(mode: ShaderMode) -> ShaderMode {
    match mode {
        ShaderMode::Toon => ShaderMode::Psx,
        ShaderMode::Psx => ShaderMode::Dither,
        ShaderMode::Dither => ShaderMode::Fog,
        ShaderMode::Fog => ShaderMode::Normals,
        ShaderMode::Normals => ShaderMode::Wireframe,
        ShaderMode::Wireframe => ShaderMode::Toon,
    }
}

impl ShaderMode {
    /// Parses the name of a mode.
    pub fn parse(value: &str) -> (result: Result<ShaderMode, String>)
        ensures
            match result {
                Ok(mode) => mode_in(value@) == Ok::<ShaderMode, Seq<char>>(mode),
                Err(message) => mode_in(value@) == Err::<ShaderMode, Seq<char>>(message@),
            },
    {
        if same_text(value, "toon") {
            Ok(ShaderMode::Toon)
        } else if same_text(value, "psx") {
            Ok(ShaderMode::Psx)
        } else if same_text(value, "dither") {
            Ok(ShaderMode::Dither)
        } else if same_text(value, "fog") {
            Ok(ShaderMode::Fog)
        } else if same_text(value, "normals") {
            Ok(ShaderMode::Normals)
        } else if same_text(value, "wireframe") || same_text(value, "wire") {
            Ok(ShaderMode::Wireframe)
        } else {
            Err(
                join3(
                    "unknown shader ",
                    value,
                    "; use toon, psx, dither, fog, normals, or wireframe",
                ),
            )
        }
    }

    /// The place in the order of the modes.
    pub fn index(self) -> (result: usize)
        ensures
            result == mode_place(self),
    {
        match self {
            ShaderMode::Toon => 0,
            ShaderMode::Psx => 1,
            ShaderMode::Dither => 2,
            ShaderMode::Fog => 3,
            ShaderMode::Normals => 4,
            ShaderMode::Wireframe => 5,
        }
    }

    /// The next mode.
    pub fn next(self) -> (result: ShaderMode)
        ensures
            result == mode_after(self),
    {
        match self {
            ShaderMode::Toon => ShaderMode::Psx,
            ShaderMode::Psx => ShaderMode::Dither,
            ShaderMode::Dither => ShaderMode::Fog,
            ShaderMode::Fog => ShaderMode::Normals,
            ShaderMode::Normals => ShaderMode::Wireframe,
            ShaderMode::Wireframe => ShaderMode::Toon,
        }
    }
}

/// Stepping through the modes visits them in order and starts over after the last.
pub proof fn law_modes_come_round(mode: ShaderMode)
    ensures
        mode_place(mode_after(mode)) == (mode_place(mode) + 1) % 6,
{
}

/// The mode once a key is pressed or held, and whether it is down: a key that was up goes to the
/// next mode.
pub fn press_next(mode: ShaderMode, was_down: bool, is_down: bool) -> (result: ShaderMode)
    ensures
        result == if is_down && !was_down {
            mode_after(mode)
        } else {
            mode
        },
{
    if is_down && !was_down {
        mode.next()
    } else {
        mode
    }
}

/// Whether an argument of a viewer is followed by a value that the demo takes.
pub open spec fn passes_value(argument: Seq<char>) -> bool {
    argument == "--frames"@ || argument == "--screenshot"@ || argument == "--size"@
}

fn check_passes_value(argument: &str) -> (result: bool)
    ensures
        result == passes_value(argument@),
{
    same_text(argument, "--frames") || same_text(argument, "--screenshot") || same_text(
        argument,
        "--size",
    )
}

/// The mode, and the arguments for the demo, once the arguments from `index` on are sorted.
pub open spec fn playground_from(
    list: Seq<Seq<char>>,
    index: int,
    mode: ShaderMode,
    kept: Seq<Seq<char>>,
) -> Result<(ShaderMode, Seq<Seq<char>>), Seq<char>>
    decreases list.len() - index,
{
    if !(0 <= index < list.len()) {
        Ok((mode, kept))
    } else if list[index] == "--shader"@ {
        if index + 1 >= list.len() {
            Err("--shader needs a name"@)
        } else {
            match mode_in(list[index + 1]) {
                Err(message) => Err(message),
                Ok(next) => playground_from(list, index + 2, next, kept),
            }
        }
    } else if passes_value(list[index]) {
        if index + 1 >= list.len() {
            Err("flag needs a value"@)
        } else {
            playground_from(
                list,
                index + 2,
                mode,
                kept.push(list[index]).push(list[index + 1]),
            )
        }
    } else {
        playground_from(list, index + 1, mode, kept.push(list[index]))
    }
}

/// The mode and the arguments of the shader playground.
pub open spec fn playground_args(list: Seq<Seq<char>>) -> Result<
    (ShaderMode, ArgsModel),
    Seq<char>,
> {
    match playground_from(list, 0, ShaderMode::Toon, Seq::empty()) {
        Err(message) => Err(message),
        Ok((mode, kept)) => match args_from(kept, 0, no_args()) {
            Err(message) => Err(message),
            Ok(args) => Ok((mode, args)),
        },
    }
}

fn push_copy(list: &mut Vec<String>, text: &String)
    ensures
        texts(final(list)@) == texts(old(list)@).push(text@),
{
    let ghost before = texts(list@);
    let copy: String = text.clone();
    list.push(copy);
    assert(texts(list@) =~= before.push(text@));
}

/// Parses the arguments of the shader playground.
pub fn parse_playground_args(source: &[String]) -> (result: Result<(ShaderMode, DemoArgs), String>)
    ensures
        match result {
            Ok((mode, args)) => playground_args(texts(source@)) == Ok::<
                (ShaderMode, ArgsModel),
                Seq<char>,
            >((mode, args@)),
            Err(message) => playground_args(texts(source@)) == Err::<
                (ShaderMode, ArgsModel),
                Seq<char>,
            >(message@),
        },
{
    let ghost list = texts(source@);
    let mut mode: ShaderMode = ShaderMode::Toon;
    let mut kept: Vec<String> = Vec::new();
    let mut i: usize = 0;
    assert(texts(kept@) =~= Seq::empty());
    while i < source.len()
        invariant
            i <= source@.len(),
            list == texts(source@),
            playground_from(list, 0, ShaderMode::Toon, Seq::empty()) == playground_from(
                list,
                i as int,
                mode,
                texts(kept@),
            ),
        decreases source@.len() - i,
    {
        assert(list[i as int] == source@[i as int]@);
        if same_text(source[i].as_str(), "--shader") {
            if source.len() - i < 2 {
                return Err("--shader needs a name".to_owned());
            }
            assert(list[i + 1] == source@[i + 1]@);
            match ShaderMode::parse(source[i + 1].as_str()) {
                Err(message) => {
                    return Err(message);
                },
                Ok(next) => {
                    mode = next;
                },
            }
            i += 2;
        } else if check_passes_value(source[i].as_str()) {
            if source.len() - i < 2 {
                return Err("flag needs a value".to_owned());
            }
            assert(list[i + 1] == source@[i + 1]@);
            push_copy(&mut kept, &source[i]);
            push_copy(&mut kept, &source[i + 1]);
            i += 2;
        } else {
            push_copy(&mut kept, &source[i]);
            i += 1;
        }
    }
    let args: DemoArgs = DemoArgs::parse(kept.as_slice())?;
    Ok((mode, args))
}

/// Whether an argument is an option: it starts with two dashes.
pub open spec fn is_option(argument: Seq<char>) -> bool {
    argument.len() >= 2 && argument[0] == '-' && argument[1] == '-'
}

fn check_option(argument: &str) -> (result: bool)
    ensures
        result == is_option(argument@),
{
    let list: Vec<char> = characters(argument);
    list.len() >= 2 && list[0] == '-' && list[1] == '-'
}

/// The path, and the arguments for the demo, once the arguments from `index` on are sorted.
pub open spec fn asset_from(
    list: Seq<Seq<char>>,
    index: int,
    path: Seq<char>,
    kept: Seq<Seq<char>>,
) -> Result<(Seq<char>, Seq<Seq<char>>), Seq<char>>
    decreases list.len() - index,
{
    if !(0 <= index < list.len()) {
        Ok((path, kept))
    } else if passes_value(list[index]) {
        if index + 1 >= list.len() {
            Err("option needs a value"@)
        } else {
            asset_from(list, index + 2, path, kept.push(list[index]).push(list[index + 1]))
        }
    } else if is_option(list[index]) {
        Err("unknown argument: "@ + list[index])
    } else {
        asset_from(list, index + 1, list[index], kept)
    }
}

/// The path and the arguments of a viewer of assets.
pub open spec fn asset_args(list: Seq<Seq<char>>, path: Seq<char>) -> Result<
    (Seq<char>, ArgsModel),
    Seq<char>,
> {
    match asset_from(list, 0, path, Seq::empty()) {
        Err(message) => Err(message),
        Ok((found, kept)) => match args_from(kept, 0, no_args()) {
            Err(message) => Err(message),
            Ok(args) => Ok((found, args)),
        },
    }
}

/// Parses the arguments of a viewer of assets, which shows `default_path` where none is given.
pub fn parse_asset_args(source: &[String], default_path: &str) -> (result: Result<
    (String, DemoArgs),
    String,
>)
    ensures
        match result {
            Ok((path, args)) => asset_args(texts(source@), default_path@) == Ok::<
                (Seq<char>, ArgsModel),
                Seq<char>,
            >((path@, args@)),
            Err(message) => asset_args(texts(source@), default_path@) == Err::<
                (Seq<char>, ArgsModel),
                Seq<char>,
            >(message@),
        },
{
    let ghost list = texts(source@);
    let mut path: String = default_path.to_owned();
    let mut kept: Vec<String> = Vec::new();
    let mut i: usize = 0;
    assert(texts(kept@) =~= Seq::empty());
    while i < source.len()
        invariant
            i <= source@.len(),
            list == texts(source@),
            asset_from(list, 0, default_path@, Seq::empty()) == asset_from(
                list,
                i as int,
                path@,
                texts(kept@),
            ),
        decreases source@.len() - i,
    {
        assert(list[i as int] == source@[i as int]@);
        if check_passes_value(source[i].as_str()) {
            if source.len() - i < 2 {
                return Err("option needs a value".to_owned());
            }
            assert(list[i + 1] == source@[i + 1]@);
            push_copy(&mut kept, &source[i]);
            push_copy(&mut kept, &source[i + 1]);
            i += 2;
        } else if check_option(source[i].as_str()) {
            return Err(join2("unknown argument: ", source[i].as_str()));
        } else {
            path = source[i].clone();
            i += 1;
        }
    }
    let args: DemoArgs = DemoArgs::parse(kept.as_slice())?;
    Ok((path, args))
}

/// The passes of a phase: each binary digit of the phase turns one on.
pub open spec fn phase_passes(phase: nat) -> Seq<PostPass> {
    let bloom = if phase % 2 == 1 {
        seq![PostPass::Bloom]
    } else {
        Seq::empty()
    };
    let fxaa = if phase / 2 % 2 == 1 {
        seq![PostPass::Fxaa]
    } else {
        Seq::empty()
    };
    let vignette = if phase / 4 % 2 == 1 {
        seq![PostPass::Vignette]
    } else {
        Seq::empty()
    };
    bloom + fxaa + vignette
}

/// The passes of a phase of the post-processing demo, which shows every choice of three passes.
pub fn cycling_chain(phase: usize) -> (result: Vec<PostPass>)
    ensures
        result@ == phase_passes(phase as nat),
{
    let mut chain: Vec<PostPass> = Vec::new();
    if phase % 2 == 1 {
        chain.push(PostPass::Bloom);
    }
    if phase / 2 % 2 == 1 {
        chain.push(PostPass::Fxaa);
    }
    if phase / 4 % 2 == 1 {
        chain.push(PostPass::Vignette);
    }
    assert(chain@ =~= phase_passes(phase as nat));
    chain
}

/// How the surface of a material is drawn.
#[derive(Clone, Copy, Debug, PartialEq, Eq, Structural)]
pub enum SurfaceKind {
    Plain,
    Textured,
    NormalMapped,
}

/// How the surface of a material is drawn: a normal map counts only together with an albedo.
pub fn surface_kind(has_albedo: bool, has_normal_map: bool) -> (result: SurfaceKind)
    ensures
        result == if !has_albedo {
            SurfaceKind::Plain
        } else if has_normal_map {
            SurfaceKind::NormalMapped
        } else {
            SurfaceKind::Textured
        },
{
    if !has_albedo {
        SurfaceKind::Plain
    } else if has_normal_map {
        SurfaceKind::NormalMapped
    } else {
        SurfaceKind::Textured
    }
}

/// What a mode of the shader playground looks like, for a target of a size.
#[derive(Clone, Copy, Debug, PartialEq)]
pub enum ModeLook {
    /// Flat bands of a color, lit from a direction.
    Toon { color: Vec3, light: Vec3 },
    /// A color on vertices that snap to the pixels.
    Psx { color: Vec3, width: u32, height: u32 },
    /// A color, dithered to the pixels.
    Dither { color: Vec3, width: u32, height: u32 },
    /// A color that fades into fog between two depths.
    Fog { color: Vec3, fog: Vec3, start: Float32, end: Float32 },
    /// The normals as colors.
    Normals,
    /// Lines of a color around filled triangles.
    Wireframe { fill: Vec3, line: Vec3 },
}

/// The vector whose coordinates have these bits.
pub open spec fn vector_of(x: u32, y: u32, z: u32) -> Vec3 {
    Vec3 { x: Float32 { bits: x }, y: Float32 { bits: y }, z: Float32 { bits: z } }
}

fn vector(x: u32, y: u32, z: u32) -> (result: Vec3)
    ensures
        result == vector_of(x, y, z),
{
    Vec3 { x: Float32 { bits: x }, y: Float32 { bits: y }, z: Float32 { bits: z } }
}

/// What a mode looks like.
pub open spec fn look_of(mode: ShaderMode, width: u32, height: u32) -> ModeLook {
    match mode {
        ShaderMode::Toon => ModeLook::Toon {
            color: vector_of(0x3f57_0a3d, 0x3e99_999a, 0x3dcc_cccd),
            light: vector_of(0xbecc_cccd, 0x3f4c_cccd, 0x3f80_0000),
        },
        ShaderMode::Psx => ModeLook::Psx {
            color: vector_of(0x3e38_51ec, 0x3f28_f5c3, 0x3f6b_851f),
            width,
            height,
        },
        ShaderMode::Dither => ModeLook::Dither {
            color: vector_of(0x3f73_3333, 0x3f1e_b852, 0x3e23_d70a),
            width,
            height,
        },
        ShaderMode::Fog => ModeLook::Fog {
            color: vector_of(0x3e38_51ec, 0x3f38_51ec, 0x3eae_147b),
            fog: vector_of(0x3df5_c28f, 0x3e23_d70a, 0x3e8f_5c29),
            start: Float32 { bits: 0x4040_0000 },
            end: Float32 { bits: 0x40c0_0000 },
        },
        ShaderMode::Normals => ModeLook::Normals,
        ShaderMode::Wireframe => ModeLook::Wireframe {
            fill: vector_of(0x3da3_d70a, 0x3dcc_cccd, 0x3e23_d70a),
            line: vector_of(0x3f73_3333, 0x3f38_51ec, 0x3df5_c28f),
        },
    }
}

/// What is drawn for a mode on a target of a size.
pub fn draw_mode(mode: ShaderMode, width: u32, height: u32) -> (result: ModeLook)
    ensures
        result == look_of(mode, width, height),
{
    match mode {
        ShaderMode::Toon => ModeLook::Toon {
            color: vector(0x3f57_0a3d, 0x3e99_999a, 0x3dcc_cccd),
            light: vector(0xbecc_cccd, 0x3f4c_cccd, 0x3f80_0000),
        },
        ShaderMode::Psx => ModeLook::Psx {
            color: vector(0x3e38_51ec, 0x3f28_f5c3, 0x3f6b_851f),
            width,
            height,
        },
        ShaderMode::Dither => ModeLook::Dither {
            color: vector(0x3f73_3333, 0x3f1e_b852, 0x3e23_d70a),
            width,
            height,
        },
        ShaderMode::Fog => ModeLook::Fog {
            color: vector(0x3e38_51ec, 0x3f38_51ec, 0x3eae_147b),
            fog: vector(0x3df5_c28f, 0x3e23_d70a, 0x3e8f_5c29),
            start: Float32 { bits: 0x4040_0000 },
            end: Float32 { bits: 0x40c0_0000 },
        },
        ShaderMode::Normals => ModeLook::Normals,
        ShaderMode::Wireframe => ModeLook::Wireframe {
            fill: vector(0x3da3_d70a, 0x3dcc_cccd, 0x3e23_d70a),
            line: vector(0x3f73_3333, 0x3f38_51ec, 0x3df5_c28f),
        },
    }
}

} // verus!
