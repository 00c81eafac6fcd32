//! Light projections that are fitted around a slice of a camera's frustum.
//!
//! The projection is moved in steps of a few shadow-map texels, so that a scene at rest keeps its
//! place on the texel grid while the camera moves by less than a step.

use crate::csm::{finite_point, point_in_range, safe_up, upward};
use crate::culling::{box_around, greatest, least, maximum, minimum, Aabb};
use crate::derived::nothing;
use crate::float::{Float32, HALF, ONE, TWO};
use crate::math::{
    identity_matrix, mapped, matrix_of, orthographic_elements, transform_point, view_elements, Mat4,
    Vec3, Vec4,
};
use crate::qem::THOUSANDTH;
use vstd::prelude::*;

verus! {

/// The bits of four.
pub const FOUR: u32 = 0x4080_0000;

/// The points that a matrix maps a list of points to.
pub open spec fn all_mapped(matrix: Mat4, points: Seq<Vec3>) -> Seq<Vec3> {
    Seq::new(points.len(), |i: int| mapped(matrix, points[i]))
}

fn transform_points(matrix: Mat4, points: &Vec<Vec3>) -> (result: Vec<Vec3>)
    ensures
        result@ == all_mapped(matrix, points@),
{
    let mut images: Vec<Vec3> = Vec::new();
    let mut i: usize = 0;
    while i < points.len()
        invariant
            i <= points@.len(),
            images@ =~= all_mapped(matrix, points@).take(i as int),
        decreases points@.len() - i,
    {
        images.push(transform_point(matrix, points[i]));
        i += 1;
    }
    assert(images@ =~= all_mapped(matrix, points@));
    images
}

/// The projected depth of a distance from the camera.
pub open spec fn projected_depth(depth: Float32, near: Float32, far: Float32) -> Float32 {
    let a = (far + near) / (near - far);
    let b = ((Float32 { bits: TWO }) * far * near) / (near - far);
    (a.opposite() * depth + b) / depth
}

fn ndc_depth_for_view_depth(depth: Float32, near: Float32, far: Float32) -> (result: Float32)
    ensures
        result == projected_depth(depth, near, far),
{
    let a: Float32 = (far + near) / (near - far);
    let b: Float32 = (Float32 { bits: TWO } * far * near) / (near - far);
    (a.negate() * depth + b) / depth
}

/// The inverse of a matrix, and the identity where it has none.
pub open spec fn inverse_or_identity(matrix: Mat4) -> Mat4 {
    match matrix.inverted() {
        Some(inverse) => inverse,
        None => identity_matrix(),
    }
}

/// A corner of a frustum slice: the four of the near side first, and in each side the lower two
/// first.
pub open spec fn slice_corner(
    inverse: Mat4,
    near_depth: Float32,
    far_depth: Float32,
    index: int,
) -> Vec3 {
    let one = Float32 { bits: ONE };
    let point = inverse.applied(
        Vec4 {
            x: if index % 2 == 0 {
                one.opposite()
            } else {
                one
            },
            y: if index % 4 < 2 {
                one.opposite()
            } else {
                one
            },
            z: if index < 4 {
                near_depth
            } else {
                far_depth
            },
            w: one,
        },
    );
    Vec3 { x: point.x / point.w, y: point.y / point.w, z: point.z / point.w }
}

/// The corners of the slice of a frustum between two distances from the camera, which are moved
/// between its planes.
pub open spec fn slice_corners(
    view_projection: Mat4,
    near: Float32,
    far: Float32,
    slice_near: Float32,
    slice_far: Float32,
) -> Seq<Vec3> {
    let start = slice_near.clamped(near, far);
    let end = slice_far.clamped(start, far);
    Seq::new(
        8,
        |i: int|
            slice_corner(
                inverse_or_identity(view_projection),
                projected_depth(start, near, far),
                projected_depth(end, near, far),
                i,
            ),
    )
}

/// The corners of the slice of a frustum between two distances from the camera. The frustum is
/// that of a view and projection with these planes.
pub fn frustum_slice_corners(
    view_projection: Mat4,
    near: Float32,
    far: Float32,
    slice_near: Float32,
    slice_far: Float32,
) -> (result: Vec<Vec3>)
    requires
        near.at_most(far),
        !slice_near.not_a_number(),
    ensures
        result@ == slice_corners(view_projection, near, far, slice_near, slice_far),
{
    let start: Float32 = slice_near.clamp_between(near, far);
    let end: Float32 = slice_far.clamp_between(start, far);
    let inverse: Mat4 = match view_projection.inverse() {
        Some(inverse) => inverse,
        None => Mat4::identity(),
    };
    let near_depth: Float32 = ndc_depth_for_view_depth(start, near, far);
    let far_depth: Float32 = ndc_depth_for_view_depth(end, near, far);
    let one: Float32 = Float32 { bits: ONE };
    let ghost wanted = slice_corners(view_projection, near, far, slice_near, slice_far);
    let mut corners: Vec<Vec3> = Vec::new();
    let mut i: usize = 0;
    while i < 8
        invariant
            i <= 8,
            one == (Float32 { bits: ONE }),
            wanted.len() == 8,
            forall|k: int|
                0 <= k < 8 ==> wanted[k] == #[trigger] slice_corner(
                    inverse,
                    near_depth,
                    far_depth,
                    k,
                ),
            corners@ =~= wanted.take(i as int),
        decreases 8 - i,
    {
        let x: Float32 = if i % 2 == 0 {
            one.negate()
        } else {
            one
        };
        let y: Float32 = if i % 4 < 2 {
            one.negate()
        } else {
            one
        };
        let z: Float32 = if i < 4 {
            near_depth
        } else {
            far_depth
        };
        let point: Vec4 = inverse * Vec4 { x, y, z, w: one };
        let corner: Vec3 = Vec3 {
            x: point.x / point.w,
            y: point.y / point.w,
            z: point.z / point.w,
        };
        assert(corner == slice_corner(inverse, near_depth, far_depth, i as int));
        corners.push(corner);
        i += 1;
    }
    assert(corners@ =~= wanted);
    corners
}

/// A coordinate, moved to the nearest multiple of a step; zero where one of them cannot be used.
pub open spec fn snapped(origin: Float32, step: Float32) -> Float32 {
    if !origin.finite() || !step.finite() || step.at_most(Float32 { bits: 0 }) {
        Float32 { bits: 0 }
    } else {
        (origin / step).rounded_value() * step
    }
}

/// Moves a coordinate to the nearest multiple of a step.
pub fn snap_ortho_origin(origin: Float32, texel_size: Float32) -> (result: Float32)
    ensures
        result == snapped(origin, texel_size),
{
    if !origin.is_finite() || !texel_size.is_finite() || texel_size.is_at_most(
        Float32 { bits: 0 },
    ) {
        return Float32 { bits: 0 };
    }
    (origin / texel_size).round() * texel_size
}

/// A usable direction: the given one with length one, or straight up.
pub open spec fn usable_direction(direction: Vec3) -> Vec3 {
    let given = match point_in_range(direction) {
        Some(point) => point,
        None => nothing(),
    };
    let length = given.norm();
    if length.finite() && (Float32 { bits: 0 }).less(length) {
        given / length
    } else {
        Vec3 { x: Float32 { bits: 0 }, y: Float32 { bits: ONE }, z: Float32 { bits: 0 } }
    }
}

/// A usable direction: the given one with length one, or straight up.
pub fn safe_direction(direction: Vec3) -> (result: Vec3)
    ensures
        result == usable_direction(direction),
{
    let zero: Float32 = Float32 { bits: 0 };
    let given: Vec3 = match finite_point(direction) {
        Some(point) => point,
        None => Vec3 { x: zero, y: zero, z: zero },
    };
    let length: Float32 = given.length();
    if length.is_finite() && zero.is_less(length) {
        given / length
    } else {
        Vec3 { x: zero, y: Float32 { bits: ONE }, z: zero }
    }
}

/// The least of the first `count` third coordinates and `start`.
pub open spec fn lowest(points: Seq<Vec3>, start: Float32, count: int) -> Float32
    decreases count,
{
    if count <= 0 {
        start
    } else {
        least(lowest(points, start, count - 1), points[count - 1].z)
    }
}

/// The greatest of the first `count` third coordinates and `start`.
pub open spec fn highest(points: Seq<Vec3>, start: Float32, count: int) -> Float32
    decreases count,
{
    if count <= 0 {
        start
    } else {
        greatest(highest(points, start, count - 1), points[count - 1].z)
    }
}

fn find_depths(points: &Vec<Vec3>, low: Float32, high: Float32) -> (result: (Float32, Float32))
    ensures
        result.0 == lowest(points@, low, points@.len() as int),
        result.1 == highest(points@, high, points@.len() as int),
{
    let mut least_depth: Float32 = low;
    let mut greatest_depth: Float32 = high;
    let mut i: usize = 0;
    while i < points.len()
        invariant
            i <= points@.len(),
            least_depth == lowest(points@, low, i as int),
            greatest_depth == highest(points@, high, i as int),
        decreases points@.len() - i,
    {
        least_depth = minimum(least_depth, points[i].z);
        greatest_depth = maximum(greatest_depth, points[i].z);
        i += 1;
    }
    (least_depth, greatest_depth)
}

/// The grid that a light projection is placed on, in the directions of the light.
#[derive(Clone, Copy, Debug, PartialEq)]
pub struct LightGrid {
    /// The step along each axis.
    pub step: Vec3,
    /// The texel along the third axis.
    pub texel_depth: Float32,
    /// How wide the projection is across and up.
    pub extent_x: Float32,
    pub extent_y: Float32,
    /// How deep the points lie.
    pub depth: Float32,
    /// The center, on the grid.
    pub center: Vec3,
}

/// The size of a span, at least a thousandth.
pub open spec fn span_of(low: Float32, high: Float32) -> Float32 {
    greatest(high - low, Float32 { bits: THOUSANDTH })
}

/// How many texels a step has: fewer on small maps.
pub open spec fn step_texels(size: usize) -> Float32 {
    if size < 32 {
        Float32 { bits: TWO }
    } else {
        Float32 { bits: FOUR }
    }
}

/// How many texels a map has across, at least one.
pub open spec fn texel_count(size: usize) -> Float32 {
    Float32::of_integer(
        false,
        if size < 1 {
            1
        } else {
            size as nat
        },
    )
}

/// The grid for the corners of a slice and for casters, both in the directions of the light.
pub open spec fn grid_for(corners: Seq<Vec3>, casters: Seq<Vec3>, size: usize) -> LightGrid {
    let half = Float32 { bits: HALF };
    let bounds = box_around(corners, corners.len() as int);
    let wide = span_of(bounds.min.x, bounds.max.x);
    let high = span_of(bounds.min.y, bounds.max.y);
    let front = corners[0].z;
    let low_depth = lowest(
        casters,
        lowest(corners, front, corners.len() as int),
        casters.len() as int,
    );
    let high_depth = highest(
        casters,
        highest(corners, front, corners.len() as int),
        casters.len() as int,
    );
    let deep = span_of(low_depth, high_depth);
    let texels = texel_count(size);
    let factor = step_texels(size);
    let step = Vec3 {
        x: (wide / texels) * factor,
        y: (high / texels) * factor,
        z: (deep / texels) * factor,
    };
    LightGrid {
        step,
        texel_depth: deep / texels,
        extent_x: wide + step.x,
        extent_y: high + step.y,
        depth: deep,
        center: Vec3 {
            x: snapped((bounds.min.x + bounds.max.x) * half, step.x),
            y: snapped((bounds.min.y + bounds.max.y) * half, step.y),
            z: snapped((low_depth + high_depth) * half, step.z),
        },
    }
}

fn find_grid(corners: &Vec<Vec3>, casters: &Vec<Vec3>, size: usize) -> (result: LightGrid)
    requires
        corners@.len() > 0,
    ensures
        result == grid_for(corners@, casters@, size),
{
    let half: Float32 = Float32 { bits: HALF };
    let least_span: Float32 = Float32 { bits: THOUSANDTH };
    let bounds: Aabb = Aabb::from_positions(corners.as_slice());
    let wide: Float32 = maximum(bounds.max.x - bounds.min.x, least_span);
    let high: Float32 = maximum(bounds.max.y - bounds.min.y, least_span);
    let front: Float32 = corners[0].z;
    let (near_low, near_high): (Float32, Float32) = find_depths(corners, front, front);
    let (low_depth, high_depth): (Float32, Float32) = find_depths(casters, near_low, near_high);
    let deep: Float32 = maximum(high_depth - low_depth, least_span);
    let texels: Float32 = Float32::from_integer(
        false,
        if size < 1 {
            1
        } else {
            size as u64
        },
    );
    let factor: Float32 = if size < 32 {
        Float32 { bits: TWO }
    } else {
        Float32 { bits: FOUR }
    };
    let step: Vec3 = Vec3 {
        x: (wide / texels) * factor,
        y: (high / texels) * factor,
        z: (deep / texels) * factor,
    };
    LightGrid {
        step,
        texel_depth: deep / texels,
        extent_x: wide + step.x,
        extent_y: high + step.y,
        depth: deep,
        center: Vec3 {
            x: snap_ortho_origin((bounds.min.x + bounds.max.x) * half, step.x),
            y: snap_ortho_origin((bounds.min.y + bounds.max.y) * half, step.y),
            z: snap_ortho_origin((low_depth + high_depth) * half, step.z),
        },
    }
}

/// The greatest finite distance of the first `count` points from an origin, and `start`.
pub open spec fn farthest(points: Seq<Vec3>, origin: Vec3, start: Float32, count: int) -> Float32
    decreases count,
{
    if count <= 0 {
        start
    } else {
        let before = farthest(points, origin, start, count - 1);
        let distance = (points[count - 1] - origin).norm();
        if distance.finite() {
            greatest(before, distance)
        } else {
            before
        }
    }
}

fn find_farthest(points: &Vec<Vec3>, origin: Vec3, start: Float32) -> (result: Float32)
    ensures
        result == farthest(points@, origin, start, points@.len() as int),
{
    let mut far: Float32 = start;
    let mut i: usize = 0;
    while i < points.len()
        invariant
            i <= points@.len(),
            far == farthest(points@, origin, start, i as int),
        decreases points@.len() - i,
    {
        let distance: Float32 = (points[i] - origin).length();
        if distance.is_finite() {
            far = maximum(far, distance);
        }
        i += 1;
    }
    far
}

/// The least and the greatest depth of those of the first `count` points that have a finite place
/// in a view, none where no point has.
pub open spec fn depth_range_of(view: Mat4, points: Seq<Vec3>, count: int) -> Option<
    (Float32, Float32),
>
    decreases count,
{
    if count <= 0 {
        None
    } else {
        let before = depth_range_of(view, points, count - 1);
        match point_in_range(mapped(view, points[count - 1])) {
            None => before,
            Some(place) => match before {
                None => Some((place.z, place.z)),
                Some((low, high)) => Some((least(low, place.z), greatest(high, place.z))),
            },
        }
    }
}

fn find_depth_range(view: Mat4, points: &Vec<Vec3>) -> (result: Option<(Float32, Float32)>)
    ensures
        result == depth_range_of(view, points@, points@.len() as int),
{
    let mut range: Option<(Float32, Float32)> = None;
    let mut i: usize = 0;
    while i < points.len()
        invariant
            i <= points@.len(),
            range == depth_range_of(view, points@, i as int),
        decreases points@.len() - i,
    {
        if let Some(place) = finite_point(transform_point(view, points[i])) {
            range = match range {
                None => Some((place.z, place.z)),
                Some((low, high)) => Some((minimum(low, place.z), maximum(high, place.z))),
            };
        }
        i += 1;
    }
    range
}

/// The directions of a light: a view along it from the origin.
pub open spec fn light_basis(direction: Vec3) -> Mat4 {
    matrix_of(view_elements(nothing(), direction.opposite(), upward(direction)))
}

/// The view of a light that looks along its direction at the center of a grid, from beyond every
/// point.
pub open spec fn light_view(direction: Vec3, grid: LightGrid, points: Seq<Vec3>) -> Mat4 {
    let one = Float32 { bits: ONE };
    let basis = light_basis(direction);
    let origin = match basis.inverted() {
        Some(inverse) => mapped(inverse, grid.center),
        None => nothing(),
    };
    let distance = farthest(points, origin, one, points.len() as int) + one;
    let eye = origin + direction * greatest(snapped(distance, grid.step.z), grid.texel_depth);
    basis * Mat4::translation(eye.opposite())
}

/// The projection of a light whose view is known.
pub open spec fn light_projection(view: Mat4, grid: LightGrid, points: Seq<Vec3>) -> Mat4 {
    let half = Float32 { bits: HALF };
    let least_span = Float32 { bits: THOUSANDTH };
    let (low, high) = match depth_range_of(view, points, points.len() as int) {
        Some(range) => range,
        None => (Float32 { bits: 0 }, Float32 { bits: 0 }),
    };
    let extent = greatest(grid.depth + grid.step.z, (high - low).absolute());
    let center = snapped((low + high) * half, grid.step.z);
    let near = greatest(center.opposite() - extent * half, least_span);
    let far = greatest(center.opposite() + extent * half, near + least_span);
    matrix_of(
        orthographic_elements(
            grid.extent_x.opposite() * half,
            grid.extent_x * half,
            grid.extent_y.opposite() * half,
            grid.extent_y * half,
            near,
            far,
        ),
    )
}

/// The projection of a light that is fitted around a slice of a frustum, and in depth around
/// casters too.
pub open spec fn fitted_light(
    corners: Seq<Vec3>,
    light_direction: Vec3,
    size: usize,
    casters: Seq<Vec3>,
) -> Mat4 {
    let direction = usable_direction(light_direction);
    let basis = light_basis(direction);
    let grid = grid_for(all_mapped(basis, corners), all_mapped(basis, casters), size);
    let points = corners + casters;
    let view = light_view(direction, grid, points);
    light_projection(view, grid, points) * view
}

/// Fits the projection of a light around a slice of a frustum, and in depth around casters too.
/// The frustum is that of a view and projection with these planes.
pub fn fit_cascade_light_projection_with_casters(
    view_projection: Mat4,
    camera_near: Float32,
    camera_far: Float32,
    light_direction: Vec3,
    slice_near: Float32,
    slice_far: Float32,
    shadow_map_size: usize,
    caster_points: &[Vec3],
) -> (result: Mat4)
    requires
        camera_near.at_most(camera_far),
        !slice_near.not_a_number(),
    ensures
        result == fitted_light(
            slice_corners(view_projection, camera_near, camera_far, slice_near, slice_far),
            light_direction,
            shadow_map_size,
            caster_points@,
        ),
{
    let zero: Float32 = Float32 { bits: 0 };
    let one: Float32 = Float32 { bits: ONE };
    let half: Float32 = Float32 { bits: HALF };
    let least_span: Float32 = Float32 { bits: THOUSANDTH };
    let corners: Vec<Vec3> = frustum_slice_corners(
        view_projection,
        camera_near,
        camera_far,
        slice_near,
        slice_far,
    );
    let mut casters: Vec<Vec3> = Vec::new();
    let mut points: Vec<Vec3> = Vec::new();
    let mut c: usize = 0;
    while c < 8
        invariant
            c <= 8,
            corners@.len() == 8,
            points@ =~= corners@.take(c as int),
        decreases 8 - c,
    {
        points.push(corners[c]);
        c += 1;
    }
    let mut k: usize = 0;
    while k < caster_points.len()
        invariant
            k <= caster_points@.len(),
            corners@.len() == 8,
            casters@ =~= caster_points@.take(k as int),
            points@ =~= corners@ + caster_points@.take(k as int),
        decreases caster_points@.len() - k,
    {
        casters.push(caster_points[k]);
        points.push(caster_points[k]);
        k += 1;
    }
    assert(casters@ =~= caster_points@);
    assert(points@ =~= corners@ + caster_points@);
    let direction: Vec3 = safe_direction(light_direction);
    let start: Vec3 = Vec3 { x: zero, y: zero, z: zero };
    let toward: Vec3 = Vec3 {
        x: direction.x.negate(),
        y: direction.y.negate(),
        z: direction.z.negate(),
    };
    let basis: Mat4 = Mat4::look_at(start, toward, safe_up(direction));
    assert(basis == light_basis(direction));
    let basis_corners: Vec<Vec3> = transform_points(basis, &corners);
    let basis_casters: Vec<Vec3> = transform_points(basis, &casters);
    let grid: LightGrid = find_grid(&basis_corners, &basis_casters, shadow_map_size);
    let origin: Vec3 = match basis.inverse() {
        Some(inverse) => transform_point(inverse, grid.center),
        None => start,
    };
    let reach: Float32 = find_farthest(&points, origin, one) + one;
    let distance: Float32 = maximum(snap_ortho_origin(reach, grid.step.z), grid.texel_depth);
    let eye: Vec3 = origin + direction * distance;
    let away: Vec3 = Vec3 { x: eye.x.negate(), y: eye.y.negate(), z: eye.z.negate() };
    let view: Mat4 = basis * Mat4::translate(away);
    assert(view == light_view(direction, grid, points@));
    let (low, high): (Float32, Float32) = match find_depth_range(view, &points) {
        Some(range) => range,
        None => (zero, zero),
    };
    let extent: Float32 = maximum(grid.depth + grid.step.z, (high - low).abs());
    let center: Float32 = snap_ortho_origin((low + high) * half, grid.step.z);
    let near: Float32 = maximum(center.negate() - extent * half, least_span);
    let far: Float32 = maximum(center.negate() + extent * half, near + least_span);
    let projection: Mat4 = Mat4::orthographic(
        grid.extent_x.negate() * half,
        grid.extent_x * half,
        grid.extent_y.negate() * half,
        grid.extent_y * half,
        near,
        far,
    );
    projection * view
}

/// Fits the projection of a light around a slice of a frustum.
pub fn fit_cascade_light_projection(
    view_projection: Mat4,
    camera_near: Float32,
    camera_far: Float32,
    light_direction: Vec3,
    slice_near: Float32,
    slice_far: Float32,
    shadow_map_size: usize,
) -> (result: Mat4)
    requires
        camera_near.at_most(camera_far),
        !slice_near.not_a_number(),
    ensures
        result == fitted_light(
            slice_corners(view_projection, camera_near, camera_far, slice_near, slice_far),
            light_direction,
            shadow_map_size,
            Seq::empty(),
        ),
{
    let none: Vec<Vec3> = Vec::new();
    assert(none@ =~= Seq::<Vec3>::empty());
    fit_cascade_light_projection_with_casters(
        view_projection,
        camera_near,
        camera_far,
        light_direction,
        slice_near,
        slice_far,
        shadow_map_size,
        none.as_slice(),
    )
}

} // verus!
