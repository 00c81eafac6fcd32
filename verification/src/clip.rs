//! Clipping triangles at the near plane, and which side of a triangle is seen.
//!
//! A corner is inside if it lies on the viewer's side of the plane or on it. What else a vertex
//! carries is mixed by whoever clips, from the share that a crossing has of its edge.

use crate::float::Float32;
use crate::math::{Vec3, Vec4};
use vstd::prelude::*;

verus! {

/// A point of a clipped triangle.
#[derive(Clone, Copy, Debug, PartialEq, Eq, Structural)]
pub enum ClipPoint {
    /// A corner of the triangle.
    Corner(usize),
    /// Where the edge that starts at this corner crosses the plane.
    Crossing(usize),
}

/// Where an edge crosses the plane.
#[derive(Clone, Copy, Debug, PartialEq)]
pub enum EdgeShare {
    /// At its start, which lies on the plane.
    Start,
    /// At its end, which lies on the plane.
    End,
    /// At this share of the way from its start to its end.
    Between(Float32),
}

/// How far a position lies on the viewer's side of the plane.
pub open spec fn near_distance(position: Vec4) -> Float32 {
    position.z + position.w
}

/// Whether a position lies on the viewer's side of the plane or on it.
pub open spec fn is_inside_near(position: Vec4) -> bool {
    (Float32 { bits: 0 }).at_most(near_distance(position))
}

/// Whether a position lies on the viewer's side of the plane or on it.
pub fn inside_near(position: Vec4) -> (result: bool)
    ensures
        result == is_inside_near(position),
{
    (Float32 { bits: 0 }).is_at_most(position.z + position.w)
}

/// Where an edge crosses the plane.
pub open spec fn share_of(start: Vec4, end: Vec4) -> EdgeShare {
    let zero = Float32 { bits: 0 };
    let before = near_distance(start);
    let after = near_distance(end);
    if before.same_value(zero) {
        EdgeShare::Start
    } else if after.same_value(zero) {
        EdgeShare::End
    } else if (before - after).same_value(zero) {
        EdgeShare::Between(zero)
    } else {
        EdgeShare::Between((before / (before - after)).clamped_to_unit())
    }
}

fn find_share(start: Vec4, end: Vec4) -> (result: EdgeShare)
    ensures
        result == share_of(start, end),
{
    let zero: Float32 = Float32 { bits: 0 };
    let before: Float32 = start.z + start.w;
    let after: Float32 = end.z + end.w;
    if before.equals(zero) {
        return EdgeShare::Start;
    }
    if after.equals(zero) {
        return EdgeShare::End;
    }
    let difference: Float32 = before - after;
    if difference.equals(zero) {
        return EdgeShare::Between(zero);
    }
    EdgeShare::Between((before / difference).clamp_to_unit())
}

/// The position at a share of an edge.
pub open spec fn at_share(start: Vec4, end: Vec4, share: EdgeShare) -> Vec4 {
    match share {
        EdgeShare::Start => start,
        EdgeShare::End => end,
        EdgeShare::Between(factor) => start + (end - start) * factor,
    }
}

fn find_crossing(start: Vec4, end: Vec4, share: EdgeShare) -> (result: Vec4)
    ensures
        result == at_share(start, end, share),
{
    match share {
        EdgeShare::Start => start,
        EdgeShare::End => end,
        EdgeShare::Between(factor) => start + (end - start) * factor,
    }
}

/// Whether two positions are equal.
pub open spec fn same_position(left: Vec4, right: Vec4) -> bool {
    left.x.same_value(right.x) && left.y.same_value(right.y) && left.z.same_value(right.z)
        && left.w.same_value(right.w)
}

fn check_same_position(left: Vec4, right: Vec4) -> (result: bool)
    ensures
        result == same_position(left, right),
{
    left.x.equals(right.x) && left.y.equals(right.y) && left.z.equals(right.z) && left.w.equals(
        right.w,
    )
}

/// A triangle at the near plane: its corners, whether each is inside, and where each edge crosses
/// the plane. A crossing counts only where one end of its edge is inside and the other is not.
#[derive(Clone, Copy, Debug)]
pub struct NearTriangle {
    pub corners: [Vec4; 3],
    pub inside: [bool; 3],
    pub shares: [EdgeShare; 3],
    pub crossings: [Vec4; 3],
}

/// The corner after another.
pub open spec fn next_corner(index: int) -> int {
    if index == 2 {
        0
    } else {
        index + 1
    }
}

impl NearTriangle {
    /// Whether the sides and the crossings are those of the corners.
    pub open spec fn valid(self) -> bool {
        forall|i: int|
            0 <= i < 3 ==> {
                let start = #[trigger] self.corners[i];
                let end = self.corners[next_corner(i)];
                &&& self.inside[i] == is_inside_near(start)
                &&& self.shares[i] == share_of(start, end)
                &&& self.crossings[i] == at_share(start, end, share_of(start, end))
            }
    }

    /// A triangle with these corners.
    pub fn new(corners: [Vec4; 3]) -> (result: NearTriangle)
        ensures
            result.corners == corners,
            result.valid(),
    {
        let first: EdgeShare = find_share(corners[0], corners[1]);
        let second: EdgeShare = find_share(corners[1], corners[2]);
        let third: EdgeShare = find_share(corners[2], corners[0]);
        let result: NearTriangle = NearTriangle {
            corners,
            inside: [inside_near(corners[0]), inside_near(corners[1]), inside_near(corners[2])],
            shares: [first, second, third],
            crossings: [
                find_crossing(corners[0], corners[1], first),
                find_crossing(corners[1], corners[2], second),
                find_crossing(corners[2], corners[0], third),
            ],
        };
        assert forall|i: int| 0 <= i < 3 implies {
            let start = #[trigger] result.corners[i];
            let end = result.corners[next_corner(i)];
            &&& result.inside[i] == is_inside_near(start)
            &&& result.shares[i] == share_of(start, end)
            &&& result.crossings[i] == at_share(start, end, share_of(start, end))
        } by {
            if i == 0 {
            } else if i == 1 {
            } else {
                assert(i == 2);
            }
        }
        result
    }

    /// The position of a point.
    pub open spec fn position(self, point: ClipPoint) -> Vec4 {
        match point {
            ClipPoint::Corner(index) => self.corners[index as int],
            ClipPoint::Crossing(index) => self.crossings[index as int],
        }
    }

    /// A list with one more point, unless it is where the last one is.
    pub open spec fn with_point(self, points: Seq<ClipPoint>, point: ClipPoint) -> Seq<ClipPoint> {
        if points.len() > 0 && same_position(self.position(points.last()), self.position(point)) {
            points
        } else {
            points.push(point)
        }
    }

    /// The points once the edge that starts at a corner is walked.
    pub open spec fn with_edge(self, points: Seq<ClipPoint>, index: int) -> Seq<ClipPoint> {
        let next = next_corner(index);
        let crossing = ClipPoint::Crossing(index as usize);
        let end = ClipPoint::Corner(next as usize);
        if self.inside[index] && self.inside[next] {
            self.with_point(points, end)
        } else if self.inside[index] {
            self.with_point(points, crossing)
        } else if self.inside[next] {
            self.with_point(self.with_point(points, crossing), end)
        } else {
            points
        }
    }

    /// The points once all edges are walked.
    pub open spec fn walked(self) -> Seq<ClipPoint> {
        self.with_edge(self.with_edge(self.with_edge(Seq::empty(), 0), 1), 2)
    }

    /// The clipped polygon: without its last point where that is where the first one is.
    pub open spec fn polygon(self) -> Seq<ClipPoint> {
        let points = self.walked();
        if points.len() > 1 && same_position(self.position(points[0]), self.position(points.last())) {
            points.drop_last()
        } else {
            points
        }
    }

    /// The triangles of the clipped polygon.
    pub open spec fn triangles(self) -> Seq<[ClipPoint; 3]> {
        let points = self.polygon();
        if points.len() < 3 {
            Seq::empty()
        } else if points.len() == 3 {
            seq![[points[0], points[1], points[2]]]
        } else {
            seq![[points[0], points[1], points[2]], [points[0], points[2], points[3]]]
        }
    }

    fn find_position(&self, point: ClipPoint) -> (result: Vec4)
        requires
            is_a_point(point),
        ensures
            result == self.position(point),
    {
        match point {
            ClipPoint::Corner(index) => self.corners[index],
            ClipPoint::Crossing(index) => self.crossings[index],
        }
    }

    fn push_unique(&self, points: &mut Vec<ClipPoint>, point: ClipPoint)
        requires
            is_a_point(point),
            are_points(old(points)@),
        ensures
            final(points)@ == self.with_point(old(points)@, point),
            are_points(final(points)@),
    {
        if points.len() > 0 {
            let last: ClipPoint = points[points.len() - 1];
            if check_same_position(self.find_position(last), self.find_position(point)) {
                return ;
            }
        }
        points.push(point);
    }

    fn push_edge(&self, points: &mut Vec<ClipPoint>, index: usize)
        requires
            index < 3,
            are_points(old(points)@),
        ensures
            final(points)@ == self.with_edge(old(points)@, index as int),
            are_points(final(points)@),
    {
        let next: usize = if index == 2 {
            0
        } else {
            index + 1
        };
        let here: bool = self.inside[index];
        let there: bool = self.inside[next];
        if here && there {
            self.push_unique(points, ClipPoint::Corner(next));
        } else if here {
            self.push_unique(points, ClipPoint::Crossing(index));
        } else if there {
            self.push_unique(points, ClipPoint::Crossing(index));
            self.push_unique(points, ClipPoint::Corner(next));
        }
    }
}

/// Whether a point is one of a triangle.
pub open spec fn is_a_point(point: ClipPoint) -> bool {
    match point {
        ClipPoint::Corner(index) => index < 3,
        ClipPoint::Crossing(index) => index < 3,
    }
}

/// Whether all points of a list are points of a triangle.
pub open spec fn are_points(points: Seq<ClipPoint>) -> bool {
    forall|i: int| 0 <= i < points.len() ==> is_a_point(#[trigger] points[i])
}

proof fn lemma_at_most_four(triangle: NearTriangle)
    ensures
        triangle.walked().len() <= 4,
{
}

/// What remains of a triangle: none, one or two triangles.
#[derive(Debug)]
pub struct ClippedTriangles {
    pub source: NearTriangle,
    pub triangles: Vec<[ClipPoint; 3]>,
}

impl ClippedTriangles {
    pub fn len(&self) -> (result: usize)
        ensures
            result == self.triangles@.len(),
    {
        self.triangles.len()
    }

    pub fn is_empty(&self) -> (result: bool)
        ensures
            result == (self.triangles@.len() == 0),
    {
        self.triangles.len() == 0
    }

    /// The position of a point.
    pub fn position(&self, point: ClipPoint) -> (result: Vec4)
        requires
            is_a_point(point),
        ensures
            result == self.source.position(point),
    {
        self.source.find_position(point)
    }

    /// The positions of a triangle.
    pub fn positions(&self, index: usize) -> (result: [Vec4; 3])
        requires
            index < self.triangles@.len(),
            forall|i: int| 0 <= i < self.triangles@.len() ==> are_points((#[trigger] self.triangles@[i])@),
        ensures
            forall|i: int|
                0 <= i < 3 ==> #[trigger] result@[i] == self.source.position(
                    self.triangles@[index as int]@[i],
                ),
    {
        let triangle: [ClipPoint; 3] = self.triangles[index];
        assert(are_points(triangle@));
        assert(is_a_point(triangle@[0]) && is_a_point(triangle@[1]) && is_a_point(triangle@[2]));
        [
            self.source.find_position(triangle[0]),
            self.source.find_position(triangle[1]),
            self.source.find_position(triangle[2]),
        ]
    }
}

/// What remains of a triangle with these corners.
pub fn clip_triangle_near(corners: [Vec4; 3]) -> (result: ClippedTriangles)
    ensures
        result.source.corners == corners,
        result.source.valid(),
        result.triangles@ == result.source.triangles(),
        result.triangles@.len() <= 2,
        forall|i: int|
            0 <= i < result.triangles@.len() ==> are_points((#[trigger] result.triangles@[i])@),
{
    let triangle: NearTriangle = NearTriangle::new(corners);
    let mut points: Vec<ClipPoint> = Vec::new();
    triangle.push_edge(&mut points, 0);
    triangle.push_edge(&mut points, 1);
    triangle.push_edge(&mut points, 2);
    proof {
        lemma_at_most_four(triangle);
    }
    if points.len() > 1 && check_same_position(
        triangle.find_position(points[0]),
        triangle.find_position(points[points.len() - 1]),
    ) {
        let ghost before = points@;
        let dropped: Option<ClipPoint> = points.pop();
        assert(points@ =~= before.drop_last());
    }
    assert(points@ == triangle.polygon());
    assert(are_points(points@));
    let mut made: Vec<[ClipPoint; 3]> = Vec::new();
    if points.len() >= 3 {
        let first: [ClipPoint; 3] = [points[0], points[1], points[2]];
        assert(first@ =~= triangle.triangles()[0]@);
        assert(first =~= triangle.triangles()[0]);
        made.push(first);
        if points.len() >= 4 {
            let second: [ClipPoint; 3] = [points[0], points[2], points[3]];
            assert(second@ =~= triangle.triangles()[1]@);
            assert(second =~= triangle.triangles()[1]);
            made.push(second);
        }
    }
    assert(made@ =~= triangle.triangles());
    ClippedTriangles { source: triangle, triangles: made }
}

/// What remains of a triangle with these corners.
pub fn clip_triangle(corners: [Vec4; 3]) -> (result: ClippedTriangles)
    ensures
        result.source.corners == corners,
        result.source.valid(),
        result.triangles@ == result.source.triangles(),
        result.triangles@.len() <= 2,
        forall|i: int|
            0 <= i < result.triangles@.len() ==> are_points((#[trigger] result.triangles@[i])@),
{
    clip_triangle_near(corners)
}

/// A position after division by its last coordinate.
pub open spec fn divided(position: Vec4) -> Vec3 {
    Vec3 {
        x: position.x / position.w,
        y: position.y / position.w,
        z: position.z / position.w,
    }
}

/// Whether a position has a place on the screen.
pub open spec fn has_place(position: Vec4) -> bool {
    position.w.magnitude() != 0 && divided(position).x.finite() && divided(position).y.finite()
}

/// Twice the area of a triangle on the screen, positive where its corners run counter-clockwise;
/// none where a corner has no place there.
pub open spec fn screen_area(corners: [Vec4; 3]) -> Option<Float32> {
    let a = divided(corners[0]);
    let b = divided(corners[1]);
    let c = divided(corners[2]);
    if has_place(corners[0]) && has_place(corners[1]) && has_place(corners[2]) {
        Some((b.x - a.x) * (c.y - a.y) - (b.y - a.y) * (c.x - a.x))
    } else {
        None
    }
}

fn divide(position: Vec4) -> (result: Option<Vec3>)
    ensures
        result == (if has_place(position) {
            Some(divided(position))
        } else {
            None
        }),
{
    if position.w.is_zero() {
        return None;
    }
    let point: Vec3 = Vec3 {
        x: position.x / position.w,
        y: position.y / position.w,
        z: position.z / position.w,
    };
    if !point.x.is_finite() || !point.y.is_finite() {
        return None;
    }
    Some(point)
}

/// Twice the area of a triangle on the screen, if every corner has a place there.
pub fn ndc_signed_area(corners: [Vec4; 3]) -> (result: Option<Float32>)
    ensures
        result == screen_area(corners),
{
    match (divide(corners[0]), divide(corners[1]), divide(corners[2])) {
        (Some(a), Some(b), Some(c)) => Some(
            (b.x - a.x) * (c.y - a.y) - (b.y - a.y) * (c.x - a.x),
        ),
        _ => None,
    }
}

/// Whether the front of a triangle is seen.
pub open spec fn shows_front(corners: [Vec4; 3]) -> bool {
    match screen_area(corners) {
        Some(area) => (Float32 { bits: 0 }).less(area),
        None => false,
    }
}

/// Whether the front of a triangle is seen.
pub fn is_front_facing(corners: [Vec4; 3]) -> (result: bool)
    ensures
        result == shows_front(corners),
{
    match ndc_signed_area(corners) {
        Some(area) => (Float32 { bits: 0 }).is_less(area),
        None => false,
    }
}

/// Whether a triangle is left out because its front is not seen.
pub fn cull_backface(corners: [Vec4; 3]) -> (result: bool)
    ensures
        result == !shows_front(corners),
{
    !is_front_facing(corners)
}

/// Whether a point is on the inner side: an inner corner, or a crossing of an edge that has one
/// inner end.
pub open spec fn may_remain(triangle: NearTriangle, point: ClipPoint) -> bool {
    match point {
        ClipPoint::Corner(index) => index < 3 && triangle.inside[index as int],
        ClipPoint::Crossing(index) => index < 3 && triangle.inside[index as int]
            != triangle.inside[next_corner(index as int)],
    }
}

/// Nothing that remains lies beyond the plane: every point is an inner corner or a crossing.
pub proof fn law_only_inner_points_remain(triangle: NearTriangle)
    ensures
        forall|i: int| 0 <= i < triangle.polygon().len() ==> may_remain(
            triangle,
            #[trigger] triangle.polygon()[i],
        ),
{
    let first = triangle.with_edge(Seq::empty(), 0);
    let second = triangle.with_edge(first, 1);
    let third = triangle.with_edge(second, 2);
    assert(forall|i: int| 0 <= i < first.len() ==> may_remain(triangle, #[trigger] first[i]));
    assert(forall|i: int| 0 <= i < second.len() ==> may_remain(triangle, #[trigger] second[i]));
    assert(forall|i: int| 0 <= i < third.len() ==> may_remain(triangle, #[trigger] third[i]));
}

/// Nothing remains of a triangle beyond the plane, and a triangle on the inner side whose corners
/// are apart remains as it is, from its second corner on.
pub proof fn law_whole_triangles_stay_whole(triangle: NearTriangle)
    ensures
        !triangle.inside[0] && !triangle.inside[1] && !triangle.inside[2]
            ==> triangle.triangles().len() == 0,
        triangle.inside[0] && triangle.inside[1] && triangle.inside[2] && !same_position(
            triangle.corners[0],
            triangle.corners[1],
        ) && !same_position(triangle.corners[1], triangle.corners[2]) && !same_position(
            triangle.corners[2],
            triangle.corners[0],
        ) && !same_position(triangle.corners[1], triangle.corners[0]) ==> triangle.triangles()
            == seq![
            [ClipPoint::Corner(1), ClipPoint::Corner(2), ClipPoint::Corner(0)],
        ],
{
    let points = triangle.walked();
    if triangle.inside[0] && triangle.inside[1] && triangle.inside[2] && !same_position(
        triangle.corners[1],
        triangle.corners[2],
    ) && !same_position(triangle.corners[2], triangle.corners[0]) && !same_position(
        triangle.corners[1],
        triangle.corners[0],
    ) {
        assert(points =~= seq![ClipPoint::Corner(1), ClipPoint::Corner(2), ClipPoint::Corner(0)]);
        let one: [ClipPoint; 3] = [ClipPoint::Corner(1), ClipPoint::Corner(2), ClipPoint::Corner(0)];
        let found = triangle.triangles()[0];
        assert(found@ =~= one@);
        assert(found =~= one);
        assert(triangle.triangles() =~= seq![one]);
    }
}

} // verus!
