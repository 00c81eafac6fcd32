use chimy2::cascade_fit::{
    fit_cascade_light_projection, frustum_slice_corners, safe_direction, snap_ortho_origin,
};
use chimy2::cascade_state::{
    caster_points, depth_range, matrix_row_scale, mix_visibility, world_texel_size, CascadeCamera,
    CascadeShadowState, MapSize,
};
use chimy2::csm::{
    cascade_blend_widths, cascade_index, cascade_sample_pair, effective_cascade_count,
    finite_point, practical_split_depths, safe_up, sanitize_aspect, sanitize_field_of_view,
    split_fraction, CascadeShadowConfig,
};
use chimy2::demo::cube_with_uvs;
use chimy2::float::Float32;
use chimy2::math::{transform_point, Mat4, Vec3};

fn s(value: f32) -> Float32 {
    Float32 { bits: value.to_bits() }
}

fn n(value: Float32) -> f32 {
    f32::from_bits(value.bits)
}

fn v3(x: f32, y: f32, z: f32) -> Vec3 {
    Vec3::new(s(x), s(y), s(z))
}

/// A camera that looks along the negative third axis with a view of a quarter turn.
fn camera_at(x: f32, y: f32, z: f32) -> CascadeCamera {
    let focal = 1.0 / (std::f32::consts::FRAC_PI_2 * 0.5).tan();
    let projection = Mat4::perspective(s(focal), s(1.0), s(0.1), s(100.0));
    CascadeCamera {
        view_projection: projection * Mat4::translate(v3(-x, -y, -z)),
        near: s(0.1),
        far: s(100.0),
    }
}

fn powers(near: f32, far: f32, count: usize) -> Vec<Float32> {
    (0..count - 1)
        .map(|index| s((far / near).powf(n(split_fraction(index, count)))))
        .collect()
}

fn state_for(camera: CascadeCamera, count: usize, size: usize) -> CascadeShadowState {
    let mut config = CascadeShadowConfig::default();
    config.set_cascade_count(count);
    CascadeShadowState::with_casters(
        camera,
        v3(0.4, 1.0, 0.2),
        &vec![MapSize { width: size, height: size }; count],
        config,
        &powers(n(camera.near), n(camera.far), count),
        &[],
    )
    .unwrap()
}

#[test]
fn exact_blend_band_sweep_is_smooth_and_has_endpoint_weights() {
    let state = state_for(camera_at(0.0, 0.0, 0.0), 3, 1);
    let boundary = n(state.split_depths[0]);
    let width = n(state.blend_widths[0]);
    let lower_edge = boundary - width;
    let visibility = |depth: f32| {
        let found = state
            .lookup(v3(0.0, 0.0, -depth), s(depth), v3(0.0, 1.0, 0.0), v3(0.4, 1.0, 0.2))
            .unwrap();
        assert!(found.lower.is_some() && found.upper.is_some());
        let seen = [0.0, 1.0, 0.0];
        n(mix_visibility(found.pair, s(seen[found.pair.lower]), s(seen[found.pair.upper])))
    };
    let first = visibility(lower_edge);
    let last = visibility(boundary);
    assert_eq!(first, 0.0);
    assert_eq!(last, 1.0);
    let mut previous = first;
    let mut maximum_step: f32 = 0.0;
    for step in 1..=100 {
        let depth = lower_edge + width * step as f32 / 100.0;
        let current = visibility(depth);
        assert!(current + 1e-6 >= previous);
        maximum_step = maximum_step.max((current - previous).abs());
        previous = current;
    }
    assert!(maximum_step < 0.05, "smooth-band step {maximum_step}");
}

#[test]
fn close_nonzero_split_gaps_get_nonzero_blend_bands() {
    let near = 1000.0;
    let far = 1000.0001;
    let count = effective_cascade_count(s(near), s(far), 4);
    let splits = practical_split_depths(s(near), s(far), 4, s(0.5), &powers(near, far, count));
    let widths = cascade_blend_widths(s(near), &splits, count);
    assert_eq!(count, 2);
    assert!(n(splits[0]) < n(splits[1]));
    assert!(n(widths[0]) > 0.0);
}

#[test]
fn blend_endpoint_weights_are_exact_for_every_boundary() {
    let state = state_for(camera_at(0.0, 1.0, 5.0), 3, 1);
    for index in 0..state.cascade_count() - 1 {
        let boundary = state.split_depths[index];
        let width = state.blend_widths[index];
        let lower =
            cascade_sample_pair(boundary - width, &state.split_depths, &state.blend_widths);
        let upper = cascade_sample_pair(boundary, &state.split_depths, &state.blend_widths);
        assert_eq!((lower.lower, lower.upper, n(lower.weight)), (index, index + 1, 0.0));
        assert_eq!((upper.lower, upper.upper, n(upper.weight)), (index, index + 1, 1.0));
    }
}

#[test]
fn texel_and_depth_helpers_use_projection_rows() {
    let matrix = Mat4::new(
        [
            3.0, 0.0, 4.0, 0.0, 0.0, 4.0, 0.0, 0.0, 0.0, 0.0, 5.0, 0.0, 0.0, 0.0, 0.0, 1.0,
        ]
        .map(s),
    );
    let size = MapSize { width: 4, height: 2 };
    assert_eq!(n(matrix_row_scale(matrix, 0)), 3.0);
    assert_eq!(n(matrix_row_scale(matrix, 1)), 4.0);
    assert_eq!(n(matrix_row_scale(matrix, 2)), 41.0_f32.sqrt());
    assert!((n(world_texel_size(matrix, size)) - 0.25).abs() < 1e-6);
    assert!((n(depth_range(matrix)) - 2.0 / 41.0_f32.sqrt()).abs() < 1e-6);
}

#[test]
fn splits_mix_both_schemes() {
    let splits = practical_split_depths(s(1.0), s(16.0), 2, s(0.5), &[s(4.0)]);
    assert_eq!(splits, [s(0.5 * 4.0 + 0.5 * 8.5), s(16.0), s(16.0), s(16.0)]);
    let even = practical_split_depths(s(1.0), s(16.0), 2, s(0.0), &[s(4.0)]);
    assert_eq!(even[0], s(8.5));
    let not_finite = practical_split_depths(s(1.0), s(16.0), 2, s(f32::NAN), &[s(4.0)]);
    assert_eq!(not_finite, splits);
}

#[test]
fn deeper_points_fall_into_later_cascades() {
    let splits = [s(2.0), s(5.0), s(9.0)];
    assert_eq!(cascade_index(s(1.0), &splits), 0);
    assert_eq!(cascade_index(s(2.0), &splits), 0);
    assert_eq!(cascade_index(s(4.0), &splits), 1);
    assert_eq!(cascade_index(s(50.0), &splits), 2);
    assert_eq!(cascade_index(s(f32::NAN), &splits), 2);
    assert_eq!(cascade_index(s(1.0), &[]), 0);
}

#[test]
fn configurations_are_held_to_their_range() {
    let config = CascadeShadowConfig::new(9, s(7.0));
    assert_eq!((config.cascade_count(), n(config.lambda())), (4, 1.0));
    let low = CascadeShadowConfig::new(0, s(f32::NAN));
    assert_eq!((low.cascade_count(), n(low.lambda())), (2, 0.5));
    assert_eq!(config.check_map_count(4), Ok(()));
    assert_eq!(
        config.check_map_count(3),
        Err("cascade config count must match 2 to 4 shadow maps".to_string())
    );
}

#[test]
fn wrong_numbers_of_maps_are_refused() {
    let camera = camera_at(0.0, 0.0, 0.0);
    let refused = CascadeShadowState::with_casters(
        camera,
        v3(0.4, 1.0, 0.2),
        &[MapSize { width: 4, height: 4 }],
        CascadeShadowConfig::new(3, s(0.5)),
        &powers(0.1, 100.0, 3),
        &[],
    );
    assert_eq!(
        refused.err(),
        Some("cascade config count must match 2 to 4 shadow maps".to_string())
    );
}

#[test]
fn slice_corners_lie_on_the_planes_of_the_slice() {
    let camera = camera_at(1.0, 2.0, 3.0);
    let corners =
        frustum_slice_corners(camera.view_projection, camera.near, camera.far, s(2.0), s(10.0));
    assert_eq!(corners.len(), 8);
    for (index, corner) in corners.iter().enumerate() {
        let depth = if index < 4 { 2.0 } else { 10.0 };
        assert!((3.0 - n(corner.z) - depth).abs() < 1e-2, "{index}: {}", n(corner.z));
        let x = if index % 2 == 0 { 1.0 - depth } else { 1.0 + depth };
        let y = if index % 4 < 2 { 2.0 - depth } else { 2.0 + depth };
        assert!((n(corner.x) - x).abs() < 1e-2);
        assert!((n(corner.y) - y).abs() < 1e-2);
    }
}

#[test]
fn fitted_projections_hold_their_slice() {
    let camera = camera_at(0.0, 1.0, 5.0);
    let light = fit_cascade_light_projection(
        camera.view_projection,
        camera.near,
        camera.far,
        v3(0.4, 1.0, 0.2),
        s(0.1),
        s(8.0),
        64,
    );
    let corners =
        frustum_slice_corners(camera.view_projection, camera.near, camera.far, s(0.1), s(8.0));
    for corner in corners {
        let place = transform_point(light, corner);
        assert!(n(place.x).abs() <= 1.1 && n(place.y).abs() <= 1.1 && n(place.z).abs() <= 1.1);
    }
}

#[test]
fn small_motion_of_the_camera_keeps_the_size_of_the_projection() {
    let base = state_for(camera_at(0.0, 1.0, 5.0), 2, 64);
    let moved = state_for(camera_at(0.001, 1.0, 5.0), 2, 64);
    for index in 0..2 {
        for row in 0..3 {
            let left = n(matrix_row_scale(base.light_view_projections[index], row));
            let right = n(matrix_row_scale(moved.light_view_projections[index], row));
            assert!((left - right).abs() <= 1e-3 * left);
        }
    }
}

#[test]
fn origins_snap_to_their_grid() {
    assert_eq!(n(snap_ortho_origin(s(1.3), s(0.5))), 1.5);
    assert_eq!(n(snap_ortho_origin(s(-1.3), s(0.5))), -1.5);
    assert_eq!(n(snap_ortho_origin(s(1.25), s(0.5))), 1.5);
    assert_eq!(n(snap_ortho_origin(s(f32::NAN), s(0.5))), 0.0);
    assert_eq!(n(snap_ortho_origin(s(2.0), s(0.0))), 0.0);
    assert_eq!(n(snap_ortho_origin(s(2.0), s(f32::INFINITY))), 0.0);
}

#[test]
fn unusable_values_have_replacements() {
    assert_eq!(safe_direction(v3(0.0, 0.0, 0.0)), v3(0.0, 1.0, 0.0));
    assert_eq!(safe_direction(v3(f32::NAN, 1.0, 0.0)), v3(0.0, 1.0, 0.0));
    assert_eq!(safe_direction(v3(3.0, 0.0, 4.0)), v3(0.6, 0.0, 0.8));
    assert_eq!(safe_up(v3(0.0, 0.96, 0.0)), v3(0.0, 0.0, 1.0));
    assert_eq!(safe_up(v3(0.0, -0.5, 0.0)), v3(0.0, 1.0, 0.0));
    assert_eq!(finite_point(v3(20000.0, -20000.0, 1.0)), Some(v3(10000.0, -10000.0, 1.0)));
    assert_eq!(finite_point(v3(f32::INFINITY, 0.0, 0.0)), None);
    assert_eq!(n(sanitize_aspect(s(-2.0))), 1.0);
    assert_eq!(n(sanitize_aspect(s(1.5))), 1.5);
    assert_eq!(n(sanitize_field_of_view(s(f32::NAN))), std::f32::consts::FRAC_PI_4);
    assert_eq!(n(sanitize_field_of_view(s(9.0))), std::f32::consts::PI - 0.01);
}

#[test]
fn casters_are_moved_by_their_model() {
    let cube = cube_with_uvs(s(1.0));
    let moved = Mat4::translate(v3(5.0, 0.0, 0.0));
    let points = caster_points(&[cube], &[moved]);
    assert_eq!(points.len(), 24);
    assert!(points.iter().all(|point| n(point.x) == 4.0 || n(point.x) == 6.0));
    let mut pointless = Mat4::identity();
    pointless.data[15] = s(0.0);
    assert!(caster_points(&[cube_with_uvs(s(1.0))], &[pointless]).is_empty());
}

#[test]
fn depths_that_are_not_finite_are_lit() {
    let state = state_for(camera_at(0.0, 0.0, 0.0), 2, 4);
    let up = v3(0.0, 1.0, 0.0);
    assert!(state.lookup(v3(0.0, 0.0, -1.0), s(f32::NAN), up, up).is_none());
    assert_eq!(state.bias(), (s(1.0), s(2.0)));
    assert_eq!(state.select_cascade(s(0.2)), 0);
}

#[test]
fn flat_light_gets_more_bias() {
    let state = state_for(camera_at(0.0, 0.0, 0.0), 2, 64);
    let point = v3(0.0, 0.0, -1.0);
    let facing = state.sample_cascade(0, point, v3(0.0, 1.0, 0.0), v3(0.0, 1.0, 0.0)).unwrap();
    let flat = state.sample_cascade(0, point, v3(0.0, 1.0, 0.0), v3(1.0, 0.0, 0.0)).unwrap();
    assert!(n(facing.bias) > 0.0);
    assert!(n(flat.bias) > n(facing.bias));
    assert!((n(flat.bias) / n(facing.bias) - 3.0).abs() < 1e-4 || n(flat.bias) == 0.1);
    assert_eq!(facing.uv, flat.uv);
}

#[test]
fn one_map_size_serves_all_cascades() {
    let camera = camera_at(0.0, 0.0, 0.0);
    let mut config = CascadeShadowConfig::default();
    config.set_cascade_count(3);
    let light = v3(0.4, 1.0, 0.2);
    let powers = powers(n(camera.near), n(camera.far), 3);
    let state =
        CascadeShadowState::with_map_size(camera, light, config, 64, &powers, &[]).unwrap();
    let expected = state_for(camera, 3, 64);
    assert_eq!(state.split_depths, expected.split_depths);
    assert_eq!(state.light_view_projections, expected.light_view_projections);
    assert_eq!(
        CascadeShadowState::with_map_size(camera, light, config, 0, &powers, &[]).unwrap_err(),
        "cascade shadow-map size must be non-zero"
    );
}

#[test]
fn visibility_mixes_what_the_maps_say() {
    let state = state_for(camera_at(0.0, 0.0, 0.0), 3, 1);
    let up = v3(0.0, 1.0, 0.0);
    let light = v3(0.4, 1.0, 0.2);
    let maps = |cascade: usize, _| s([0.25, 0.75, 0.0][cascade]);
    let at = |depth: f32| n(state.visibility(&maps, v3(0.0, 0.0, -depth), s(depth), up, light));
    assert_eq!(at(n(state.split_depths()[0]) * 0.5), 0.25);
    assert_eq!(at(n(state.split_depths()[0])), 0.75);
    let middle = n(state.split_depths()[0]) - n(state.blend_widths()[0]) * 0.5;
    assert!((at(middle) - 0.5).abs() < 1.0e-3);
    assert_eq!(at(f32::INFINITY), 1.0);
    assert_eq!(state.light_view_projections().len(), 3);
}

#[test]
fn far_planes_at_the_largest_value_have_cascades() {
    let near = f32::MAX / 8.0;
    let camera = CascadeCamera { near: s(near), far: s(f32::MAX), ..camera_at(0.0, 0.0, 0.0) };
    let state = state_for(camera, 3, 64);
    assert_eq!(state.split_depths.len(), 3);
    assert_eq!(state.split_depths[2], s(f32::MAX));
    assert!(n(state.split_depths[0]) < n(state.split_depths[1]));
}

#[test]
fn unused_cascades_end_at_the_far_plane() {
    let three = practical_split_depths(s(1.0), s(64.0), 3, s(1.0), &powers(1.0, 64.0, 3));
    assert!((n(three[0]) - 4.0).abs() < 1e-4 && (n(three[1]) - 16.0).abs() < 1e-4);
    assert_eq!(three[2..], [s(64.0), s(64.0)]);
    let widths = cascade_blend_widths(s(1.0), &three, 3);
    assert!(n(widths[0]) > 0.0 && n(widths[1]) > 0.0);
    assert_eq!(widths[2], s(0.0));
    let lost = practical_split_depths(s(1.0), s(16.0), 2, s(0.0), &[s(f32::INFINITY)]);
    assert!(n(lost[0]).is_nan());
    assert_eq!(lost[1..], [s(16.0); 3]);
}
