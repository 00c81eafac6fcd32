use chimy2::demo::{
    cube_with_uvs, grid_triangles, parse_size, ppm_bytes, sphere_resolution, DemoArgs, PostPass,
};
use chimy2::dither::{bayer_offset, BAYER_8X8};
use chimy2::fb::{argb8888, Framebuffer};
use chimy2::float::Float32;
use chimy2::ibl_bake::Angle;
use chimy2::math::Vec3;
use chimy2::shapes::{plane_xz, uv_sphere};
use chimy2::texture::checkerboard_texture;
use chimy2::viewer::{
    cycling_chain, parse_asset_args, parse_playground_args, press_next, surface_kind, ShaderMode,
    SurfaceKind,
};

fn s(value: f32) -> Float32 {
    Float32 { bits: value.to_bits() }
}

fn n(value: Float32) -> f32 {
    f32::from_bits(value.bits)
}

fn v3(x: f32, y: f32, z: f32) -> Vec3 {
    Vec3::new(s(x), s(y), s(z))
}

fn strings(list: &[&str]) -> Vec<String> {
    list.iter().map(|text| text.to_string()).collect()
}

fn parse(list: &[&str]) -> Result<DemoArgs, String> {
    DemoArgs::parse(&strings(list))
}

#[test]
fn parses_frames_screenshot_and_size() {
    let args =
        parse(&["--frames", "12", "--screenshot", "shot.ppm", "--size", "320x200"]).unwrap();
    assert_eq!(args.frames, Some(12));
    assert_eq!(args.screenshot, Some("shot.ppm".to_string()));
    assert_eq!(args.size, Some((320, 200)));
    assert_eq!(args.picture_size(7, 8), (320, 200));
    assert_eq!(args.screenshot_frames(), 12);
}

#[test]
fn parses_postfx_flags_in_chain_order() {
    let args = parse(&["--bloom", "--fxaa", "--vignette"]).unwrap();
    assert!(args.bloom && args.fxaa && args.vignette);
    assert_eq!(args.post_chain().len(), 3);
}

#[test]
fn parses_hdr_and_exposure() {
    let args = parse(&["--hdr", "--exposure", "2.0"]).unwrap();
    assert!(args.hdr);
    assert_eq!(n(args.exposure), 2.0);
    assert_eq!(args.post_chain().len(), 1);
}

#[test]
fn parses_ibl() {
    let args = parse(&["--ibl"]).unwrap();
    assert!(args.ibl);
}

#[test]
fn parser_rejects_bare_positional_and_unknown_flag() {
    let bare = parse(&["asset.obj"]).unwrap_err();
    assert!(bare.contains("unexpected argument"), "got {bare}");
    let flag = parse(&["--nope"]).unwrap_err();
    assert!(flag.contains("unexpected argument"), "got {flag}");
}

#[test]
fn parser_names_what_is_missing_or_wrong() {
    assert_eq!(parse(&["--frames"]).unwrap_err(), "--frames needs a number");
    assert_eq!(parse(&["--frames", "x"]).unwrap_err(), "invalid --frames value x");
    assert_eq!(parse(&["--screenshot"]).unwrap_err(), "--screenshot needs a path");
    assert_eq!(parse(&["--size"]).unwrap_err(), "--size needs WxH");
    assert_eq!(parse(&["--size", "3"]).unwrap_err(), "--size wants WxH, got 3");
    assert_eq!(parse(&["--exposure"]).unwrap_err(), "--exposure needs a number");
    assert_eq!(parse(&["--exposure", "bright"]).unwrap_err(), "invalid --exposure value bright");
    assert_eq!(parse_size("ax2").unwrap_err(), "invalid width in --size ax2");
    assert_eq!(parse_size("2xb").unwrap_err(), "invalid height in --size 2xb");
    assert_eq!(
        parse_size("0x2").unwrap_err(),
        "--size dimensions must be non-zero, got 0x2"
    );
    assert_eq!(parse_size("640X480"), Ok((640, 480)));
    let none = parse(&[]).unwrap();
    assert_eq!(none.picture_size(7, 8), (7, 8));
    assert_eq!(none.screenshot_frames(), 60);
    assert_eq!(n(none.exposure), 1.0);
}

#[test]
fn tonemapping_stands_between_linear_and_screen_passes() {
    let args =
        parse(&["--hdr", "--bloom", "--fxaa", "--vignette", "--ssao", "--exposure", "0.5"]).unwrap();
    assert_eq!(
        args.post_chain_with_projection(),
        vec![
            PostPass::Ssao,
            PostPass::Bloom,
            PostPass::Vignette,
            PostPass::AcesTonemap(s(0.5)),
            PostPass::Fxaa,
        ]
    );
    let plain = parse(&["--bloom", "--fxaa", "--vignette"]).unwrap();
    assert_eq!(plain.post_chain(), vec![PostPass::Bloom, PostPass::Fxaa, PostPass::Vignette]);
}

#[test]
fn pictures_hold_every_pixel() {
    let mut framebuffer = Framebuffer::new(2, 2);
    framebuffer.color = vec![
        argb8888(255, 10, 20, 30),
        argb8888(255, 40, 50, 60),
        argb8888(255, 70, 80, 90),
        argb8888(255, 100, 110, 120),
    ];
    let bytes = ppm_bytes(&framebuffer);
    assert_eq!(&bytes[..11], b"P6\n2 2\n255\n");
    assert_eq!(&bytes[11..], &[10, 20, 30, 40, 50, 60, 70, 80, 90, 100, 110, 120]);
}

#[test]
fn bayer_matrix_covers_every_value_zero_through_sixty_three_exactly_once() {
    let mut seen = [false; 64];
    for row in &BAYER_8X8 {
        for &value in row {
            assert!(value < 64, "value {value} out of range");
            assert!(!seen[value as usize], "duplicate value {value}");
            seen[value as usize] = true;
        }
    }
    assert!(seen.iter().all(|&flag| flag));
}

#[test]
fn bayer_offset_range_is_centered_around_zero() {
    let mut minimum: f32 = 0.0;
    let mut maximum: f32 = 0.0;
    let mut sum: f32 = 0.0;
    for y in 0..8 {
        for x in 0..8 {
            let offset = n(bayer_offset(x, y));
            minimum = minimum.min(offset);
            maximum = maximum.max(offset);
            sum += offset;
        }
    }
    assert!(sum.abs() < 1e-4, "mean {sum} is not zero");
    assert!((maximum + minimum).abs() < 1e-4);
    assert!(maximum > 0.49 && maximum < 0.5);
    assert_eq!(n(bayer_offset(0, 0)), (0.0 - 31.5) / 64.0);
}

#[test]
fn bayer_offset_is_periodic_and_deterministic() {
    for y in 0..3 {
        for x in 0..3 {
            assert_eq!(bayer_offset(x, y), bayer_offset(x + 8, y));
            assert_eq!(bayer_offset(x, y), bayer_offset(x, y + 8));
            assert_eq!(bayer_offset(x, y), bayer_offset(x + 16, y + 24));
        }
    }
}

#[test]
fn cubes_have_outward_faces() {
    let cube = cube_with_uvs(s(2.0));
    assert_eq!(cube.vertices().len(), 24);
    assert_eq!(cube.indices().len(), 12);
    assert_eq!(cube.vertices()[0].position(), v3(-2.0, -2.0, 2.0));
    assert_eq!(cube.vertices()[0].normal(), Some(v3(0.0, 0.0, 1.0)));
    assert_eq!(cube.bounds().max(), v3(2.0, 2.0, 2.0));
    for &[a, b, c] in cube.indices() {
        let corner = |index: usize| cube.vertices()[index].position();
        let normal = (corner(b) - corner(a)).cross(corner(c) - corner(a));
        assert!(n(normal.dot(corner(a))) > 0.0);
    }
}

#[test]
fn planes_spread_their_texture() {
    let plane = plane_xz(s(4.0), s(2.0), 2, s(3.0));
    assert_eq!(plane.vertices().len(), 9);
    assert_eq!(plane.indices().len(), 8);
    assert_eq!(plane.indices()[0], [0, 3, 1]);
    assert_eq!(plane.indices()[1], [1, 3, 4]);
    assert_eq!(plane.vertices()[0].position(), v3(-2.0, 0.0, -1.0));
    assert_eq!(plane.vertices()[8].position(), v3(2.0, 0.0, 1.0));
    let center = plane.vertices()[4].texcoord().unwrap();
    assert_eq!((n(center.x), n(center.y)), (1.5, 1.5));
    assert_eq!(plane_xz(s(4.0), s(2.0), 0, s(1.0)).indices().len(), 2);
}

#[test]
fn spheres_have_unit_normals() {
    let (rings, segments) = sphere_resolution(1, 2);
    assert_eq!((rings, segments), (2, 3));
    let angle = |turn: f32| Angle { cosine: s(turn.cos()), sine: s(turn.sin()) };
    let latitudes: Vec<Angle> =
        (0..=4).map(|ring| angle(ring as f32 / 4.0 * std::f32::consts::PI)).collect();
    let longitudes: Vec<Angle> =
        (0..=6).map(|segment| angle(segment as f32 / 6.0 * std::f32::consts::TAU)).collect();
    let sphere = uv_sphere(s(1.5), &latitudes, &longitudes);
    assert_eq!(sphere.vertices().len(), 5 * 7);
    assert_eq!(sphere.indices().len(), 4 * 6 * 2);
    assert_eq!(sphere.indices()[0], [0, 1, 7]);
    assert_eq!(sphere.indices()[1], [1, 8, 7]);
    for vertex in sphere.vertices() {
        assert!((n(vertex.position().length()) - 1.5).abs() < 1e-5);
        assert!((n(vertex.normal().unwrap().length()) - 1.0).abs() < 1e-5);
    }
    let last = sphere.vertices()[34].texcoord().unwrap();
    assert_eq!((n(last.x), n(last.y)), (1.0, 1.0));
}

#[test]
fn grids_use_every_corner() {
    let triangles = grid_triangles(2, 3, false);
    assert_eq!(triangles.len(), 12);
    let mut used = vec![false; 12];
    for corner in triangles.iter().flatten() {
        used[*corner] = true;
    }
    assert!(used.into_iter().all(|flag| flag));
}

#[test]
fn checkers_have_borders_and_two_colors() {
    let texture = checkerboard_texture(16, 2);
    assert_eq!((texture.width(), texture.height()), (16, 16));
    let pixel = |x: usize, y: usize| texture.pixels()[y * 16 + x];
    assert_eq!(pixel(0, 0), [40, 55, 70, 255]);
    assert_eq!(pixel(4, 4), [235, 232, 220, 255]);
    assert_eq!(pixel(12, 4), [30, 40, 55, 255]);
    assert_eq!(pixel(12, 12), [235, 232, 220, 255]);
    assert_eq!(pixel(7, 4), [40, 55, 70, 255]);
}

#[test]
fn modes_come_round() {
    let start = ShaderMode::parse("toon").unwrap();
    let mut mode = start;
    let mut count = 0;
    loop {
        mode = mode.next();
        count += 1;
        if mode == start {
            break;
        }
    }
    assert_eq!(count, 6);
    assert_eq!(ShaderMode::parse("wire"), ShaderMode::parse("wireframe"));
    assert_eq!(press_next(start, false, true), start.next());
    assert_eq!(press_next(start, true, true), start);
    assert_eq!(
        ShaderMode::parse("nope").unwrap_err(),
        "unknown shader nope; use toon, psx, dither, fog, normals, or wireframe"
    );
}

#[test]
fn viewers_take_their_own_arguments_first() {
    let (path, args) =
        parse_asset_args(&strings(&["model.gltf", "--frames", "3"]), "default.gltf").unwrap();
    assert_eq!(path, "model.gltf");
    assert_eq!(args.frames, Some(3));
    let (path, _) = parse_asset_args(&[], "default.gltf").unwrap();
    assert_eq!(path, "default.gltf");
    assert!(parse_playground_args(&strings(&["--frames", "2"])).is_ok());
    assert!(cycling_chain(0).is_empty());
    assert_eq!(cycling_chain(5), vec![PostPass::Bloom, PostPass::Vignette]);
    assert_eq!(cycling_chain(10), vec![PostPass::Fxaa]);
    assert_eq!(surface_kind(false, true), SurfaceKind::Plain);
    assert_eq!(surface_kind(true, false), SurfaceKind::Textured);
    assert_eq!(surface_kind(true, true), SurfaceKind::NormalMapped);
}
