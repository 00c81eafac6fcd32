use chimy2::frames::{FpsReporter, WindowReport, PERIODIC_WINDOW};
use chimy2::float::Float32;
use chimy2::ibl::{CubeFace, FloatCube};
use chimy2::ibl_bake::Angle;
use chimy2::icosphere::{icosphere, icosphere_mesh, midpoint};
use chimy2::math::{Mat4, Vec3, Vec4};
use chimy2::painting::{
    banded_texture, bump_map, make_banded_pixel, sky_face, small_checker, small_gradient, BandWaves,
};
use chimy2::scenes::{cube_models, morph_deltas};
use chimy2::shapes::{orbiting_quads, plane_xz};
use chimy2::topology::is_closed_manifold;
use chimy2::viewer::{draw_mode, ModeLook, ShaderMode};

fn s(value: f32) -> Float32 {
    Float32 { bits: value.to_bits() }
}

fn n(value: Float32) -> f32 {
    f32::from_bits(value.bits)
}

fn v3(x: f32, y: f32, z: f32) -> Vec3 {
    Vec3::new(s(x), s(y), s(z))
}

#[test]
fn spheres_are_divided_into_closed_meshes() {
    for levels in 0..4 {
        let (vertices, triangles) = icosphere(levels);
        assert_eq!(triangles.len(), 20 * 4usize.pow(levels));
        assert_eq!(vertices.len(), 2 + triangles.len() / 2);
        assert!(is_closed_manifold(&triangles));
        for vertex in &vertices {
            assert!((n(vertex.length()) - 1.0).abs() < 1.0e-5);
        }
    }
    let (vertices, triangles) = icosphere(1);
    assert_eq!(vertices[0], v3(-0.525731, 0.850651, 0.0));
    assert_eq!(vertices[11], v3(-0.850651, 0.0, 0.525731));
    assert_eq!(triangles[0], [0, 12, 14]);
    assert_eq!(triangles[3], [12, 13, 14]);
    assert_eq!(vertices[12], midpoint(vertices[0], vertices[11]));
    assert_eq!(icosphere_mesh(2).indices().len(), 320);
}

#[test]
fn modes_have_their_look() {
    assert_eq!(
        draw_mode(ShaderMode::Toon, 8, 6),
        ModeLook::Toon { color: v3(0.84, 0.30, 0.10), light: v3(-0.4, 0.8, 1.0) }
    );
    assert_eq!(
        draw_mode(ShaderMode::Psx, 8, 6),
        ModeLook::Psx { color: v3(0.18, 0.66, 0.92), width: 8, height: 6 }
    );
    assert_eq!(
        draw_mode(ShaderMode::Fog, 8, 6),
        ModeLook::Fog {
            color: v3(0.18, 0.72, 0.34),
            fog: v3(0.12, 0.16, 0.28),
            start: s(3.0),
            end: s(6.0),
        }
    );
    assert_eq!(draw_mode(ShaderMode::Normals, 8, 6), ModeLook::Normals);
}

#[test]
fn bands_follow_their_waves() {
    let cool = BandWaves { latitude: s(0.0), stripe: s(0.0), swirl: s(0.0), haze: s(-1.0) };
    assert_eq!(make_banded_pixel(cool), [81, 127, 183, 255]);
    let bright = BandWaves { latitude: s(1.0), stripe: s(1.0), swirl: s(1.0), haze: s(1.0) };
    assert_eq!(make_banded_pixel(bright)[0], 255);
    let texture = banded_texture(0, &[cool; 4]).unwrap();
    assert_eq!((texture.width(), texture.height()), (2, 2));
    assert!(banded_texture(3, &[cool; 4]).is_none());
}

#[test]
fn small_pictures_have_their_pixels() {
    let checker = small_checker();
    assert_eq!(checker.pixels()[0], [235, 235, 235, 255]);
    assert_eq!(checker.pixels()[1], [30, 35, 45, 255]);
    assert_eq!(checker.pixels()[4], [30, 35, 45, 255]);
    assert_eq!(small_gradient().pixels()[14], [170, 255, 180, 255]);
    let flat = [Angle { cosine: s(0.0), sine: s(0.0) }; 64];
    assert_eq!(bump_map(&flat, &flat).pixels()[9], [128, 128, 255, 255]);
    let sky = sky_face([210, 70, 55]);
    for (index, pixel) in sky.pixels().iter().enumerate() {
        let (x, y) = (index % 32, index / 32);
        let vertical = y as f32 / 31.0;
        let distance = ((x as f32 / 31.0 - 0.72).powi(2) + (vertical - 0.24).powi(2)).sqrt();
        let sun = (1.0 - distance / 0.16).clamp(0.0, 1.0);
        let shade = 1.0 - vertical * 0.38;
        let expected = [
            (210.0 * shade + 255.0 * sun).min(255.0) as u8,
            (70.0 * shade + 235.0 * sun).min(255.0) as u8,
            (55.0 * shade + 150.0 * sun).min(255.0) as u8,
            255,
        ];
        assert_eq!(*pixel, expected, "{x} {y}");
    }
}

#[test]
fn decoded_cubes_apply_a_linear_intensity() {
    let faces: Vec<Vec<Vec3>> = (0..6).map(|face| vec![v3(face as f32, 0.5, 1.0)]).collect();
    let cube = FloatCube::from_cube_texture(1, &faces, s(3.0)).unwrap();
    assert_eq!(cube.pixel(CubeFace::NegativeX, 0, 0), v3(3.0, 1.5, 3.0));
    let dark = FloatCube::from_cube_texture(1, &faces, s(-2.0)).unwrap();
    assert_eq!(dark.pixel(CubeFace::NegativeX, 0, 0), v3(0.0, 0.0, 0.0));
    let plain = FloatCube::from_cube_texture(1, &faces, s(f32::NAN)).unwrap();
    assert_eq!(plain.pixel(CubeFace::NegativeX, 0, 0), v3(1.0, 0.5, 1.0));
    assert!(FloatCube::from_cube_texture(2, &faces, s(1.0)).is_none());
}

#[test]
fn quads_turn_around_their_centers() {
    let quads = orbiting_quads(Mat4::identity(), Mat4::identity());
    assert_eq!(quads.indices(), &[[0, 1, 2], [0, 2, 3], [4, 5, 6], [4, 6, 7]]);
    assert_eq!(quads.vertex(0).unwrap().position(), v3(-0.8 - 1.25, -0.7 + 0.6, 0.45));
    assert_eq!(quads.vertex(6).unwrap().position(), v3(0.8 + 1.25, 0.7 + 0.85, -0.15));
    let half = std::f32::consts::FRAC_PI_4;
    let turned = Mat4::rotate(v3(0.0, 1.0, 0.0), s(half.sin()), s(half.cos()));
    let place = turned * Vec4::new(s(1.0), s(0.0), s(0.0), s(1.0));
    assert!(n(place.x).abs() < 1e-6 && (n(place.z) + 1.0).abs() < 1e-6);
}

#[test]
fn scenes_place_their_parts() {
    let models = cube_models(&[Mat4::identity(); 3]);
    let place = models[2] * Vec4::new(s(0.0), s(0.0), s(0.0), s(1.0));
    assert_eq!([n(place.x), n(place.y), n(place.z)], [-1.8, 0.8, -20.0]);
    let base = plane_xz(s(2.0), s(2.0), 1, s(1.0));
    let (inflate, spike) = morph_deltas(&base);
    assert_eq!(n(inflate[3].x), 0.22);
    assert_eq!(n(spike[3].y), 0.0);
}

#[test]
fn reports_come_once_a_second() {
    let mut reporter = FpsReporter::new();
    assert_eq!(reporter.observe(5, 8, 6), None);
    assert_eq!(reporter.observe(PERIODIC_WINDOW, 8, 6), None);
    assert_eq!(
        reporter.observe(PERIODIC_WINDOW + 5, 8, 6),
        Some(WindowReport { frame_count: 3, window_frames: 3, window_elapsed: PERIODIC_WINDOW })
    );
    assert_eq!(reporter.observe(PERIODIC_WINDOW + 6, 9, 7), None);
    assert_eq!((reporter.frame_count, reporter.window_frames), (4, 1));
    assert_eq!((reporter.last_width, reporter.wall_start), (9, Some(5)));
}
