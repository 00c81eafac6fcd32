//! Bounding boxes, the planes of a frustum, and which boxes can be seen through it.

use crate::float::{Float32, INFINITY, ONE};
use crate::math::{mapped, transform_point, Mat4, Vec3, Vec4};
use crate::mesh::MeshVertex;
use vstd::prelude::*;

verus! {

/// The lesser of two values; the other one where one is not a number.
pub open spec fn least(left: Float32, right: Float32) -> Float32 {
    if left.not_a_number() || right.less(left) {
        right
    } else {
        left
    }
}

/// The greater of two values; the other one where one is not a number.
pub open spec fn greatest(left: Float32, right: Float32) -> Float32 {
    if left.not_a_number() || left.less(right) {
        right
    } else {
        left
    }
}

/// The lesser of two values.
pub fn minimum(left: Float32, right: Float32) -> (result: Float32)
    ensures
        result == least(left, right),
{
    if left.is_nan() || right.is_less(left) {
        right
    } else {
        left
    }
}

/// The greater of two values.
pub fn maximum(left: Float32, right: Float32) -> (result: Float32)
    ensures
        result == greatest(left, right),
{
    if left.is_nan() || left.is_less(right) {
        right
    } else {
        left
    }
}

/// A box along the axes.
#[derive(Clone, Copy, Debug, PartialEq)]
pub struct Aabb {
    pub min: Vec3,
    pub max: Vec3,
}

/// The origin.
pub open spec fn origin() -> Vec3 {
    Vec3 { x: Float32 { bits: 0 }, y: Float32 { bits: 0 }, z: Float32 { bits: 0 } }
}

/// The least coordinates of two points.
pub open spec fn least_point(left: Vec3, right: Vec3) -> Vec3 {
    Vec3 { x: least(left.x, right.x), y: least(left.y, right.y), z: least(left.z, right.z) }
}

/// The greatest coordinates of two points.
pub open spec fn greatest_point(left: Vec3, right: Vec3) -> Vec3 {
    Vec3 {
        x: greatest(left.x, right.x),
        y: greatest(left.y, right.y),
        z: greatest(left.z, right.z),
    }
}

/// The box around the first `count` points.
pub open spec fn box_around(points: Seq<Vec3>, count: int) -> Aabb
    decreases count,
{
    if count <= 0 {
        Aabb { min: origin(), max: origin() }
    } else if count == 1 {
        Aabb { min: points[0], max: points[0] }
    } else {
        let before = box_around(points, count - 1);
        Aabb {
            min: least_point(before.min, points[count - 1]),
            max: greatest_point(before.max, points[count - 1]),
        }
    }
}

/// A corner of a box. The three bits of the index choose the far side across,
/// up and along.
pub open spec fn corner_of(bounds: Aabb, index: int) -> Vec3 {
    Vec3 {
        x: if index % 2 == 0 {
            bounds.min.x
        } else {
            bounds.max.x
        },
        y: if index / 2 % 2 == 0 {
            bounds.min.y
        } else {
            bounds.max.y
        },
        z: if index / 4 % 2 == 0 {
            bounds.min.z
        } else {
            bounds.max.z
        },
    }
}

/// The positions of a list of vertices.
pub open spec fn positions(vertices: Seq<MeshVertex>) -> Seq<Vec3> {
    Seq::new(vertices.len(), |i: int| vertices[i].position)
}

impl Aabb {
    /// The box of nothing.
    pub fn empty() -> (result: Aabb)
        ensures
            result == (Aabb { min: origin(), max: origin() }),
    {
        let zero: Float32 = Float32 { bits: 0 };
        let point: Vec3 = Vec3 { x: zero, y: zero, z: zero };
        Aabb { min: point, max: point }
    }

    pub fn new(min: Vec3, max: Vec3) -> (result: Aabb)
        ensures
            result == (Aabb { min, max }),
    {
        Aabb { min, max }
    }

    pub fn min(self) -> (result: Vec3)
        ensures
            result == self.min,
    {
        self.min
    }

    pub fn max(self) -> (result: Vec3)
        ensures
            result == self.max,
    {
        self.max
    }

    /// The box around points; the box of nothing where there is none.
    pub fn from_positions(points: &[Vec3]) -> (result: Aabb)
        ensures
            result == box_around(points@, points@.len() as int),
    {
        if points.len() == 0 {
            return Aabb::empty();
        }
        let mut low: Vec3 = points[0];
        let mut high: Vec3 = points[0];
        let mut i: usize = 1;
        while i < points.len()
            invariant
                1 <= i <= points@.len(),
                (Aabb { min: low, max: high }) == box_around(points@, i as int),
            decreases points@.len() - i,
        {
            let point: Vec3 = points[i];
            low = Vec3 {
                x: minimum(low.x, point.x),
                y: minimum(low.y, point.y),
                z: minimum(low.z, point.z),
            };
            high = Vec3 {
                x: maximum(high.x, point.x),
                y: maximum(high.y, point.y),
                z: maximum(high.z, point.z),
            };
            i += 1;
        }
        Aabb { min: low, max: high }
    }

    /// The box around the positions of vertices.
    pub fn from_vertices(vertices: &[MeshVertex]) -> (result: Aabb)
        ensures
            result == box_around(positions(vertices@), vertices@.len() as int),
    {
        let mut points: Vec<Vec3> = Vec::new();
        let mut i: usize = 0;
        while i < vertices.len()
            invariant
                i <= vertices@.len(),
                points@ =~= positions(vertices@).take(i as int),
            decreases vertices@.len() - i,
        {
            points.push(vertices[i].position);
            i += 1;
        }
        assert(points@ =~= positions(vertices@));
        Aabb::from_positions(points.as_slice())
    }

    /// The corners of the box.
    pub fn corners(self) -> (result: Vec<Vec3>)
        ensures
            result@ == Seq::new(8, |i: int| corner_of(self, i)),
    {
        let mut made: Vec<Vec3> = Vec::new();
        let mut i: usize = 0;
        while i < 8
            invariant
                i <= 8,
                made@ =~= Seq::new(i as nat, |j: int| corner_of(self, j)),
            decreases 8 - i,
        {
            made.push(
                Vec3 {
                    x: if i % 2 == 0 {
                        self.min.x
                    } else {
                        self.max.x
                    },
                    y: if i / 2 % 2 == 0 {
                        self.min.y
                    } else {
                        self.max.y
                    },
                    z: if i / 4 % 2 == 0 {
                        self.min.z
                    } else {
                        self.max.z
                    },
                },
            );
            i += 1;
        }
        made
    }
}

/// Whether every coordinate of a point is a number.
pub open spec fn is_a_point(point: Vec3) -> bool {
    !point.x.not_a_number() && !point.y.not_a_number() && !point.z.not_a_number()
}

/// Whether a point lies in a box.
pub open spec fn lies_in(point: Vec3, bounds: Aabb) -> bool {
    &&& bounds.min.x.at_most(point.x) && point.x.at_most(bounds.max.x)
    &&& bounds.min.y.at_most(point.y) && point.y.at_most(bounds.max.y)
    &&& bounds.min.z.at_most(point.z) && point.z.at_most(bounds.max.z)
}

/// Every point lies in the box around the points.
pub proof fn law_boxes_hold_their_points(points: Seq<Vec3>, count: int)
    requires
        0 <= count <= points.len(),
        forall|i: int| 0 <= i < count ==> is_a_point(#[trigger] points[i]),
    ensures
        count > 0 ==> is_a_point(box_around(points, count).min) && is_a_point(
            box_around(points, count).max,
        ),
        forall|i: int| 0 <= i < count ==> lies_in(#[trigger] points[i], box_around(points, count)),
    decreases count,
{
    if count > 1 {
        law_boxes_hold_their_points(points, count - 1);
        assert(is_a_point(points[count - 1]));
        let before = box_around(points, count - 1);
        let now = box_around(points, count);
        assert forall|i: int| 0 <= i < count implies lies_in(#[trigger] points[i], now) by {
            if i < count - 1 {
                assert(lies_in(points[i], before));
            }
        }
    } else if count == 1 {
        assert(is_a_point(points[0]));
    }
}

/// The box is the least one: each of its sides touches a point.
pub proof fn law_boxes_touch_their_points(points: Seq<Vec3>, count: int)
    requires
        0 < count <= points.len(),
    ensures
        exists|i: int| 0 <= i < count && (#[trigger] points[i]).x == box_around(points, count).min.x,
        exists|i: int| 0 <= i < count && (#[trigger] points[i]).y == box_around(points, count).min.y,
        exists|i: int| 0 <= i < count && (#[trigger] points[i]).z == box_around(points, count).min.z,
        exists|i: int| 0 <= i < count && (#[trigger] points[i]).x == box_around(points, count).max.x,
        exists|i: int| 0 <= i < count && (#[trigger] points[i]).y == box_around(points, count).max.y,
        exists|i: int| 0 <= i < count && (#[trigger] points[i]).z == box_around(points, count).max.z,
    decreases count,
{
    if count > 1 {
        law_boxes_touch_their_points(points, count - 1);
    }
    let last = points[count - 1];
}

/// A plane: the points whose product with the normal is the opposite of the distance. The normal
/// points to the inner side.
#[derive(Clone, Copy, Debug, PartialEq)]
pub struct Plane {
    pub normal: Vec3,
    pub distance: Float32,
}

impl Plane {
    /// How far a point lies on the inner side.
    pub open spec fn above(self, point: Vec3) -> Float32 {
        self.normal.dot_product(point) + self.distance
    }

    /// The same plane with a normal of length one, and the plane of nothing where it has none.
    pub open spec fn scaled_to_unit(self) -> Plane {
        let length = self.normal.norm();
        if length.finite() && (Float32 { bits: 0 }).less(length) && self.distance.finite() {
            Plane { normal: self.normal / length, distance: self.distance / length }
        } else {
            Plane { normal: origin(), distance: Float32 { bits: 0 } }
        }
    }

    pub fn new(normal: Vec3, distance: Float32) -> (result: Plane)
        ensures
            result == (Plane { normal, distance }),
    {
        Plane { normal, distance }
    }

    pub fn normal(self) -> (result: Vec3)
        ensures
            result == self.normal,
    {
        self.normal
    }

    pub fn distance(self) -> (result: Float32)
        ensures
            result == self.distance,
    {
        self.distance
    }

    /// How far a point lies on the inner side.
    pub fn signed_distance(self, point: Vec3) -> (result: Float32)
        ensures
            result == self.above(point),
    {
        self.normal.dot(point) + self.distance
    }

    fn normalized(self) -> (result: Plane)
        ensures
            result == self.scaled_to_unit(),
    {
        let zero: Float32 = Float32 { bits: 0 };
        let length: Float32 = self.normal.length();
        if length.is_finite() && zero.is_less(length) && self.distance.is_finite() {
            Plane { normal: self.normal / length, distance: self.distance / length }
        } else {
            Plane { normal: Vec3 { x: zero, y: zero, z: zero }, distance: zero }
        }
    }
}

/// A row of a matrix whose elements are stored column by column.
pub open spec fn row_of(matrix: Mat4, row: int) -> Vec4 {
    Vec4 { x: matrix@[row], y: matrix@[row + 4], z: matrix@[row + 8], w: matrix@[row + 12] }
}

/// The plane whose normal and distance are the coordinates of a vector, with a normal of length
/// one.
pub open spec fn plane_of(coordinates: Vec4) -> Plane {
    (Plane {
        normal: Vec3 { x: coordinates.x, y: coordinates.y, z: coordinates.z },
        distance: coordinates.w,
    }).scaled_to_unit()
}

/// A plane of the frustum of a matrix: left, right, bottom, top, near and far, in this order.
pub open spec fn frustum_plane(matrix: Mat4, index: int) -> Plane {
    let last = row_of(matrix, 3);
    let row = row_of(matrix, index / 2);
    plane_of(
        if index % 2 == 0 {
            last + row
        } else {
            last - row
        },
    )
}

/// Whether a corner lies on the inner side of a plane, or on it.
pub open spec fn is_inside(distance: Float32) -> bool {
    (Float32 { bits: 0 }).at_most(distance)
}

/// The corners of a box, moved by a matrix.
pub open spec fn moved_corners(bounds: Aabb, model: Mat4) -> Seq<Vec3> {
    Seq::new(8, |i: int| mapped(model, corner_of(bounds, i)))
}

/// Whether some of the points lies on the inner side of a plane.
pub open spec fn some_inside(plane: Plane, points: Seq<Vec3>) -> bool {
    exists|i: int| 0 <= i < points.len() && is_inside(plane.above(#[trigger] points[i]))
}

/// Whether points can be seen: unless some plane has all of them on its outer side. Points of
/// which one is not finite count as seen.
pub open spec fn can_be_seen(planes: Seq<Plane>, points: Seq<Vec3>) -> bool {
    ||| exists|i: int| 0 <= i < points.len() && !(#[trigger] points[i]).finite()
    ||| forall|p: int| 0 <= p < planes.len() ==> some_inside(#[trigger] planes[p], points)
}

/// How far the nearest of the first corners of a moved box lies on the inner side of a plane. A
/// corner that has no place lies on the plane.
pub open spec fn nearest_corner(plane: Plane, bounds: Aabb, model: Mat4, count: int) -> Float32
    decreases count,
{
    if count <= 0 {
        Float32 { bits: INFINITY }
    } else {
        least(
            nearest_corner(plane, bounds, model, count - 1),
            corner_height(plane, corner_of(bounds, count - 1), model),
        )
    }
}

/// How far a moved point lies on the inner side of a plane: nothing where it has no place.
pub open spec fn corner_height(plane: Plane, point: Vec3, model: Mat4) -> Float32 {
    let image = model.applied(
        Vec4 { x: point.x, y: point.y, z: point.z, w: Float32 { bits: ONE } },
    );
    if image.w.magnitude() == 0 || !image.w.finite() {
        Float32 { bits: 0 }
    } else {
        plane.above(
            Vec3 { x: image.x / image.w, y: image.y / image.w, z: image.z / image.w },
        )
    }
}

/// A plane, moved outward as far as a box reaches beyond it.
pub open spec fn widened(plane: Plane, bounds: Aabb, model: Mat4) -> Plane {
    let nearest = nearest_corner(plane, bounds, model, 8);
    if nearest.finite() && nearest.less(Float32 { bits: 0 }) {
        Plane { normal: plane.normal, distance: plane.distance - nearest }
    } else {
        plane
    }
}

/// A plane, moved outward for the first of the boxes, one after the other.
pub open spec fn widened_for(plane: Plane, casters: Seq<(Aabb, Mat4)>, count: int) -> Plane
    decreases count,
{
    if count <= 0 {
        plane
    } else {
        widened(
            widened_for(plane, casters, count - 1),
            casters[count - 1].0,
            casters[count - 1].1,
        )
    }
}

/// What a view shows: the points on the inner side of six planes.
#[derive(Clone, Copy, Debug, PartialEq)]
pub struct Frustum {
    pub planes: [Plane; 6],
}

fn has_inside(plane: Plane, points: &Vec<Vec3>) -> (result: bool)
    ensures
        result == some_inside(plane, points@),
{
    let zero: Float32 = Float32 { bits: 0 };
    let mut i: usize = 0;
    while i < points.len()
        invariant
            i <= points@.len(),
            zero == (Float32 { bits: 0 }),
            forall|j: int| 0 <= j < i ==> !is_inside(plane.above(#[trigger] points@[j])),
        decreases points@.len() - i,
    {
        if zero.is_at_most(plane.signed_distance(points[i])) {
            assert(is_inside(plane.above(points@[i as int])));
            return true;
        }
        i += 1;
    }
    false
}

fn row_at(matrix: &Mat4, row: usize) -> (result: Vec4)
    requires
        row < 4,
    ensures
        result == row_of(*matrix, row as int),
{
    Vec4 {
        x: matrix.data[row],
        y: matrix.data[row + 4],
        z: matrix.data[row + 8],
        w: matrix.data[row + 12],
    }
}

fn make_plane(coordinates: Vec4) -> (result: Plane)
    ensures
        result == plane_of(coordinates),
{
    Plane {
        normal: Vec3 { x: coordinates.x, y: coordinates.y, z: coordinates.z },
        distance: coordinates.w,
    }.normalized()
}

fn widen(plane: Plane, bounds: Aabb, model: Mat4) -> (result: Plane)
    ensures
        result == widened(plane, bounds, model),
{
    let zero: Float32 = Float32 { bits: 0 };
    let corners: Vec<Vec3> = bounds.corners();
    let mut nearest: Float32 = Float32 { bits: INFINITY };
    let mut i: usize = 0;
    while i < 8
        invariant
            i <= 8,
            zero == (Float32 { bits: 0 }),
            corners@ == Seq::new(8, |j: int| corner_of(bounds, j)),
            nearest == nearest_corner(plane, bounds, model, i as int),
        decreases 8 - i,
    {
        let corner: Vec3 = corners[i];
        assert(corner == corner_of(bounds, i as int));
        let image: Vec4 = model * Vec4 {
            x: corner.x,
            y: corner.y,
            z: corner.z,
            w: Float32 { bits: ONE },
        };
        let height: Float32 = if image.w.is_zero() || !image.w.is_finite() {
            zero
        } else {
            plane.signed_distance(
                Vec3 { x: image.x / image.w, y: image.y / image.w, z: image.z / image.w },
            )
        };
        nearest = minimum(nearest, height);
        i += 1;
    }
    if nearest.is_finite() && nearest.is_less(zero) {
        Plane { normal: plane.normal, distance: plane.distance - nearest }
    } else {
        plane
    }
}

impl Frustum {
    /// The planes of a view and projection: left, right, bottom, top, near and far.
    pub fn from_view_projection(matrix: Mat4) -> (result: Frustum)
        ensures
            forall|i: int|
                0 <= i < 6 ==> #[trigger] result.planes@[i] == frustum_plane(matrix, i),
    {
        let x: Vec4 = row_at(&matrix, 0);
        let y: Vec4 = row_at(&matrix, 1);
        let z: Vec4 = row_at(&matrix, 2);
        let w: Vec4 = row_at(&matrix, 3);
        Frustum {
            planes: [
                make_plane(w + x),
                make_plane(w - x),
                make_plane(w + y),
                make_plane(w - y),
                make_plane(w + z),
                make_plane(w - z),
            ],
        }
    }

    pub fn planes(self) -> (result: [Plane; 6])
        ensures
            result == self.planes,
    {
        self.planes
    }

    /// Whether a moved box can be seen. A box with a corner that is not finite counts as seen;
    /// any other is only left out where some plane has every corner on its outer side.
    pub fn intersects_aabb(self, bounds: Aabb, model: Mat4) -> (result: bool)
        ensures
            result == can_be_seen(self.planes@, moved_corners(bounds, model)),
    {
        let corners: Vec<Vec3> = bounds.corners();
        let ghost places = moved_corners(bounds, model);
        let mut moved: Vec<Vec3> = Vec::new();
        let mut i: usize = 0;
        while i < 8
            invariant
                i <= 8,
                corners@ == Seq::new(8, |j: int| corner_of(bounds, j)),
                places == moved_corners(bounds, model),
                moved@ =~= places.take(i as int),
                forall|j: int| 0 <= j < i ==> (#[trigger] places[j]).finite(),
            decreases 8 - i,
        {
            let place: Vec3 = transform_point(model, corners[i]);
            assert(place == places[i as int]);
            if !place.is_finite() {
                return true;
            }
            moved.push(place);
            i += 1;
        }
        assert(moved@ =~= places);
        let mut p: usize = 0;
        while p < 6
            invariant
                p <= 6,
                moved@ == places,
                places == moved_corners(bounds, model),
                forall|j: int| 0 <= j < 8 ==> (#[trigger] places[j]).finite(),
                forall|q: int| 0 <= q < p ==> some_inside(#[trigger] self.planes@[q], places),
            decreases 6 - p,
        {
            if !has_inside(self.planes[p], &moved) {
                assert(!some_inside(self.planes@[p as int], places));
                return false;
            }
            p += 1;
        }
        true
    }

    /// The planes of a view and projection, each moved outward to take in boxes.
    pub fn from_view_projection_including_bounds(
        matrix: Mat4,
        bounds: &[(Aabb, Mat4)],
    ) -> (result: Frustum)
        ensures
            forall|i: int|
                0 <= i < 6 ==> #[trigger] result.planes@[i] == widened_for(
                    frustum_plane(matrix, i),
                    bounds@,
                    bounds@.len() as int,
                ),
    {
        let mut planes: [Plane; 6] = Frustum::from_view_projection(matrix).planes;
        let mut b: usize = 0;
        while b < bounds.len()
            invariant
                b <= bounds@.len(),
                forall|i: int|
                    0 <= i < 6 ==> #[trigger] planes@[i] == widened_for(
                        frustum_plane(matrix, i),
                        bounds@,
                        b as int,
                    ),
            decreases bounds@.len() - b,
        {
            let mut p: usize = 0;
            while p < 6
                invariant
                    p <= 6,
                    b < bounds@.len(),
                    forall|i: int|
                        0 <= i < 6 ==> #[trigger] planes@[i] == widened_for(
                            frustum_plane(matrix, i),
                            bounds@,
                            if i < p {
                                b + 1
                            } else {
                                b as int
                            },
                        ),
                decreases 6 - p,
            {
                let plane: Plane = widen(planes[p], bounds[b].0, bounds[b].1);
                planes[p] = plane;
                p += 1;
            }
            b += 1;
        }
        Frustum { planes }
    }
}

/// A point that lies on the inner side of every plane keeps the points it is among.
pub proof fn law_points_within_are_kept(planes: Seq<Plane>, points: Seq<Vec3>, index: int)
    requires
        0 <= index < points.len(),
        forall|p: int| 0 <= p < planes.len() ==> is_inside((#[trigger] planes[p]).above(points[index])),
    ensures
        can_be_seen(planes, points),
{
    assert forall|p: int| 0 <= p < planes.len() implies some_inside(#[trigger] planes[p], points) by {
        assert(is_inside(planes[p].above(points[index])));
    }
}

/// Points are left out only where some plane has all of them on its outer side.
pub proof fn law_only_points_outside_a_plane_are_left_out(planes: Seq<Plane>, points: Seq<Vec3>)
    requires
        !can_be_seen(planes, points),
    ensures
        exists|p: int|
            0 <= p < planes.len() && forall|i: int|
                0 <= i < points.len() ==> !is_inside(
                    (#[trigger] planes[p]).above(#[trigger] points[i]),
                ),
{
    let p = choose|p: int| 0 <= p < planes.len() && !some_inside(#[trigger] planes[p], points);
    assert(!some_inside(planes[p], points));
    assert forall|i: int| 0 <= i < points.len() implies !is_inside(
        planes[p].above(#[trigger] points[i]),
    ) by {}
}

} // verus!
