use chimy2::float::Float32;
use chimy2::ibl::{
    cube_face, face_index, radical_inverse_bits, CubeFace, EnvironmentBrdfLut, FloatCube,
    IblSettings, PrefilteredEnvironment,
};
use chimy2::ibl_bake::{
    basis, direction_for_texel, gloss_turn, hammersley, importance_sample_ggx, integrate_brdf,
    integrate_irradiance, lambert_turn, smith_visibility, Angle, BakeAngles, IblMaps,
};
use chimy2::math::{Vec2, Vec3};
use std::f32::consts::PI;

fn s(value: f32) -> Float32 {
    Float32 { bits: value.to_bits() }
}

fn n(value: Float32) -> f32 {
    f32::from_bits(value.bits)
}

fn v3(x: f32, y: f32, z: f32) -> Vec3 {
    Vec3::new(s(x), s(y), s(z))
}

fn angle(turn: f32) -> Angle {
    Angle { cosine: s(turn.cos()), sine: s(turn.sin()) }
}

/// The angles of samples that are turned by the second coordinate of their points.
fn lambert_angles(count: usize) -> Vec<Angle> {
    (0..count).map(|index| angle(n(lambert_turn(index, count)))).collect()
}

/// The angles of samples that are turned by the first coordinate of their points.
fn gloss_angles(count: usize) -> Vec<Angle> {
    (0..count).map(|index| angle(n(gloss_turn(index, count)))).collect()
}

fn bake(color: Vec3) -> IblMaps {
    let settings = IblSettings::test();
    let angles = BakeAngles {
        irradiance: lambert_angles(settings.irradiance_samples),
        prefilter: gloss_angles(settings.prefilter_samples),
        brdf: gloss_angles(settings.brdf_samples),
    };
    IblMaps::from_sampler(&|_: Vec3| color, settings, &angles)
}

fn close(actual: Vec3, expected: Vec3) -> bool {
    (n(actual.x) - n(expected.x)).abs() < 1.0e-5
        && (n(actual.y) - n(expected.y)).abs() < 1.0e-5
        && (n(actual.z) - n(expected.z)).abs() < 1.0e-5
}

fn all_faces() -> Vec<CubeFace> {
    (0..6).map(cube_face).collect()
}

fn center() -> Vec2 {
    Vec2::new(s(0.5), s(0.5))
}

#[test]
fn constant_environment_irradiance_is_constant() {
    let expected = v3(64.0 / 255.0, 128.0 / 255.0, 1.0);
    let maps = bake(expected);
    for face in all_faces() {
        assert!(close(maps.irradiance.sample_face(face, center()), expected));
    }
}

#[test]
fn constant_environment_prefilter_mip_zero_is_constant() {
    let expected = v3(32.0 / 255.0, 96.0 / 255.0, 200.0 / 255.0);
    let maps = bake(expected);
    let mip_zero = maps.prefiltered.level(0).unwrap();
    for face in all_faces() {
        assert!(close(mip_zero.sample_face(face, Vec2::new(s(0.3), s(0.9))), expected));
        assert!(close(maps.prefiltered.sample_face(face, center(), s(0.7)), expected));
    }
}

#[test]
fn karis_brdf_normal_incidence_at_zero_roughness_is_one_zero() {
    let maps = bake(v3(1.0, 1.0, 1.0));
    let anchor = maps.brdf_lut.sample(s(1.0), s(0.0));
    assert!((n(anchor.x) - 1.0).abs() < 1.0e-5);
    assert!(n(anchor.y).abs() < 1.0e-5);
}

#[test]
fn karis_prefilter_uses_squared_perceptual_roughness() {
    let half_vector = importance_sample_ggx(
        s(0.5),
        angle(2.0 * PI * 0.5),
        s(0.5),
        v3(0.0, 0.0, 1.0),
        v3(1.0, 0.0, 0.0),
        v3(0.0, 1.0, 0.0),
    );
    assert!((n(half_vector.z) - 0.9701425).abs() < 1.0e-5);
}

#[test]
fn karis_ibl_visibility_anchor_at_grazing_zero_roughness() {
    let anchor = integrate_brdf(s(0.5), s(0.0), &gloss_angles(64));
    assert!((n(anchor.x) - 0.96875).abs() < 1.0e-5);
    assert!((n(anchor.y) - 0.03125).abs() < 1.0e-5);
}

fn top_white(direction: Vec3) -> Vec3 {
    if n(direction.z) > 0.0 {
        v3(1.0, 1.0, 1.0)
    } else {
        v3(0.0, 0.0, 0.0)
    }
}

#[test]
fn two_hemisphere_irradiance_probe_matches_analytic_values() {
    let tilted = v3(0.57735026, 0.0, 0.8164966);
    let actual_tilted = n(integrate_irradiance(&top_white, tilted, &lambert_angles(1_048_576)).x);
    let expected_tilted = 0.9082483;
    assert!((actual_tilted - expected_tilted).abs() < 2.0e-5);
    let actual_up = n(integrate_irradiance(&top_white, v3(0.0, 0.0, 1.0), &lambert_angles(64)).x);
    assert!((actual_up - 1.0).abs() < 1.0e-5);
}

#[test]
fn bake_is_byte_stable_for_the_same_environment() {
    let color = v3(17.0 / 255.0, 83.0 / 255.0, 191.0 / 255.0);
    let first = bake(color);
    let second = bake(color);
    for face in all_faces() {
        for y in 0..2 {
            for x in 0..2 {
                assert_eq!(
                    first.irradiance.pixel(face, x, y),
                    second.irradiance.pixel(face, x, y)
                );
                for level in 0..3 {
                    assert_eq!(
                        first.prefiltered.level(level).unwrap().pixel(face, x, y),
                        second.prefiltered.level(level).unwrap().pixel(face, x, y)
                    );
                }
            }
        }
    }
    for y in 0..8 {
        for x in 0..8 {
            assert_eq!(first.brdf_lut.pixel(x, y), second.brdf_lut.pixel(x, y));
        }
    }
}

#[test]
fn floating_point_source_preserves_hdr_values_above_one() {
    let source = FloatCube::constant(2, v3(2.0, 1.5, 4.0));
    let settings = IblSettings::test();
    let angles = BakeAngles {
        irradiance: lambert_angles(settings.irradiance_samples),
        prefilter: gloss_angles(settings.prefilter_samples),
        brdf: gloss_angles(settings.brdf_samples),
    };
    let sample = |_: Vec3| source.sample_face(CubeFace::PositiveZ, center());
    let maps = IblMaps::from_sampler(&sample, settings, &angles);
    let actual = maps.irradiance.sample_face(CubeFace::PositiveZ, center());
    assert!((n(actual.x) - 2.0).abs() < 1.0e-5);
    assert!((n(actual.y) - 1.5).abs() < 1.0e-5);
    assert!((n(actual.z) - 4.0).abs() < 1.0e-5);
}

#[test]
fn settings_are_one_at_least() {
    let settings = IblSettings {
        irradiance_size: 0,
        irradiance_samples: 0,
        prefilter_size: 0,
        prefilter_levels: 0,
        prefilter_samples: 0,
        brdf_size: 0,
        brdf_samples: 3,
    };
    let usable = settings.sanitized();
    assert_eq!((usable.irradiance_size, usable.prefilter_levels, usable.brdf_samples), (1, 1, 3));
    assert_eq!(usable.sanitized(), usable);
    assert_eq!(IblSettings::default().prefilter_levels, 5);
    let angles = BakeAngles {
        irradiance: lambert_angles(1),
        prefilter: gloss_angles(1),
        brdf: gloss_angles(3),
    };
    let maps = IblMaps::from_sampler(&|_: Vec3| v3(0.5, 0.5, 0.5), settings, &angles);
    assert_eq!(maps.prefiltered.level_count(), 1);
    assert_eq!(maps.brdf_lut.size(), 1);
    assert!(close(
        maps.prefiltered.sample_face(CubeFace::NegativeX, center(), s(0.4)),
        v3(0.5, 0.5, 0.5)
    ));
}

#[test]
fn samples_lie_between_pixels() {
    let mut faces = vec![vec![v3(0.0, 0.0, 0.0); 4]; 6];
    faces[2] = vec![v3(0.0, 0.0, 0.0), v3(1.0, 0.0, 0.0), v3(0.0, 2.0, 0.0), v3(1.0, 2.0, 0.0)];
    let cube = FloatCube::new(2, faces).unwrap();
    let at = |u: f32, v: f32| cube.sample_face(CubeFace::PositiveY, Vec2::new(s(u), s(v)));
    assert_eq!(at(0.25, 0.25), v3(0.0, 0.0, 0.0));
    assert_eq!(at(0.5, 0.5), v3(0.5, 1.0, 0.0));
    assert_eq!(at(0.0, 0.0), v3(0.0, 0.0, 0.0));
    assert_eq!(at(9.0, 9.0), v3(1.0, 2.0, 0.0));
    assert_eq!(at(-9.0, 1.0), v3(0.0, 2.0, 0.0));
    assert!(FloatCube::new(2, vec![vec![v3(0.0, 0.0, 0.0); 3]; 6]).is_none());
}

#[test]
fn levels_are_mixed_by_roughness() {
    let levels = vec![
        FloatCube::constant(1, v3(0.0, 0.0, 0.0)),
        FloatCube::constant(1, v3(1.0, 1.0, 1.0)),
        FloatCube::constant(1, v3(4.0, 4.0, 4.0)),
    ];
    let chain = PrefilteredEnvironment::new(levels);
    let at = |roughness: f32| n(chain.sample_face(CubeFace::NegativeZ, center(), s(roughness)).x);
    assert_eq!((at(0.0), at(0.25), at(0.5), at(0.75), at(1.0)), (0.0, 0.5, 1.0, 2.5, 4.0));
    assert_eq!((at(-3.0), at(7.0)), (0.0, 4.0));
}

#[test]
fn tables_are_read_between_entries() {
    let entries = vec![
        Vec2::new(s(0.0), s(0.0)),
        Vec2::new(s(1.0), s(0.0)),
        Vec2::new(s(0.0), s(1.0)),
        Vec2::new(s(1.0), s(1.0)),
    ];
    let table = EnvironmentBrdfLut::new(2, entries).unwrap();
    assert_eq!(table.sample(s(0.5), s(0.25)), Vec2::new(s(0.5), s(0.0)));
    assert_eq!(table.sample(s(1.0), s(0.5)), Vec2::new(s(1.0), s(0.5)));
    assert!(EnvironmentBrdfLut::new(2, vec![]).is_none());
}

#[test]
fn faces_have_their_own_index_and_direction() {
    for index in 0..6 {
        assert_eq!(face_index(cube_face(index)), index);
    }
    assert!(close(direction_for_texel(CubeFace::PositiveX, 0, 0, 1), v3(1.0, 0.0, 0.0)));
    assert!(close(direction_for_texel(CubeFace::NegativeY, 0, 0, 1), v3(0.0, -1.0, 0.0)));
    let corner = direction_for_texel(CubeFace::PositiveZ, 0, 0, 2);
    assert!(n(corner.x) < 0.0 && n(corner.y) > 0.0 && n(corner.z) > 0.0);
    assert!((n(corner.length()) - 1.0).abs() < 1e-6);
}

#[test]
fn bases_are_square() {
    for normal in [v3(0.0, 0.0, 1.0), v3(0.6, 0.0, 0.8), v3(0.0, -1.0, 0.0)] {
        let (tangent, bitangent) = basis(normal);
        assert!(n(tangent.dot(normal)).abs() < 1e-6);
        assert!(n(bitangent.dot(normal)).abs() < 1e-6);
        assert!(n(tangent.dot(bitangent)).abs() < 1e-6);
    }
}

#[test]
fn reversing_digits_twice_changes_nothing() {
    for value in [0u32, 1, 2, 3, 0x8000_0000, 0x1234_5678, u32::MAX] {
        assert_eq!(radical_inverse_bits(value), value.reverse_bits());
        assert_eq!(radical_inverse_bits(radical_inverse_bits(value)), value);
    }
    assert_eq!(n(hammersley(1, 4).x), 0.375);
    assert_eq!(n(hammersley(1, 4).y), 0.5);
    assert_eq!(n(hammersley(3, 4).y), 0.75);
}

#[test]
fn visibility_is_full_without_roughness() {
    assert_eq!(n(smith_visibility(s(0.5), s(0.25), s(0.0))), 1.0);
    let k = 0.5f32;
    let one = |cosine: f32| cosine / (cosine * (1.0 - k) + k).max(1.0e-6);
    assert_eq!(n(smith_visibility(s(0.5), s(0.25), s(1.0))), one(0.5) * one(0.25));
}

#[test]
fn samples_are_turned_by_their_points() {
    for index in [0usize, 1, 2, 3, 17, 63] {
        let point = hammersley(index, 64);
        assert_eq!(n(lambert_turn(index, 64)), 2.0 * PI * n(point.y));
        assert_eq!(n(gloss_turn(index, 64)), 2.0 * PI * n(point.x));
    }
    assert_eq!(n(lambert_turn(1, 4)), PI);
    assert_eq!(n(gloss_turn(1, 4)), 2.0 * PI * 0.375);
}
