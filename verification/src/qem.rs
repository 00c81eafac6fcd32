//! Quadric errors: how far a surface moves when an edge is collapsed, and which collapses its
//! faces allow.
//!
//! The measure is that of Garland and Heckbert, "Surface Simplification Using Quadric Error
//! Metrics", SIGGRAPH 1997.

use crate::culling::{greatest, maximum};
use crate::derived::{corners_exist, face_normal, EPSILON};
use crate::float::{Float32, HALF, TWO};
use crate::math::Vec3;
use crate::mesh::{Mesh, MeshModel, MeshVertex};
use vstd::prelude::*;

verus! {

/// The bits of three.
pub const THREE: u32 = 0x4040_0000;

/// The bits of a thousandth.
pub const THOUSANDTH: u32 = 0x3a83_126f;

/// The bits of 1.0e-5.
pub const CONVEX_TOLERANCE: u32 = 0x3727_c5ac;

/// The bits of a millionth.
pub const MILLIONTH: u32 = 0x3586_37bd;

/// The bits of the smallest value with a full significand.
pub const SMALLEST_NORMAL: u32 = 0x0080_0000;

/// The squared distances from a set of planes, as a symmetric matrix of four rows.
#[derive(Clone, Copy, Debug, PartialEq)]
pub struct Quadric {
    pub xx: Float32,
    pub xy: Float32,
    pub xz: Float32,
    pub xw: Float32,
    pub yy: Float32,
    pub yz: Float32,
    pub yw: Float32,
    pub zz: Float32,
    pub zw: Float32,
    pub ww: Float32,
}

impl Quadric {
    /// The quadric of no plane.
    pub open spec fn none() -> Quadric {
        let n = Float32 { bits: 0 };
        Quadric { xx: n, xy: n, xz: n, xw: n, yy: n, yz: n, yw: n, zz: n, zw: n, ww: n }
    }

    /// The quadric of no plane.
    pub fn zero() -> (result: Quadric)
        ensures
            result == Quadric::none(),
    {
        let n: Float32 = Float32 { bits: 0 };
        Quadric { xx: n, xy: n, xz: n, xw: n, yy: n, yz: n, yw: n, zz: n, zw: n, ww: n }
    }

    /// The quadric of the plane with this normal and distance.
    pub open spec fn of_plane(normal: Vec3, distance: Float32) -> Quadric {
        Quadric {
            xx: normal.x * normal.x,
            xy: normal.x * normal.y,
            xz: normal.x * normal.z,
            xw: normal.x * distance,
            yy: normal.y * normal.y,
            yz: normal.y * normal.z,
            yw: normal.y * distance,
            zz: normal.z * normal.z,
            zw: normal.z * distance,
            ww: distance * distance,
        }
    }

    pub fn from_plane(normal: Vec3, distance: Float32) -> (result: Quadric)
        ensures
            result == Quadric::of_plane(normal, distance),
    {
        Quadric {
            xx: normal.x * normal.x,
            xy: normal.x * normal.y,
            xz: normal.x * normal.z,
            xw: normal.x * distance,
            yy: normal.y * normal.y,
            yz: normal.y * normal.z,
            yw: normal.y * distance,
            zz: normal.z * normal.z,
            zw: normal.z * distance,
            ww: distance * distance,
        }
    }

    pub open spec fn spec_add(self, other: Quadric) -> Quadric {
        Quadric {
            xx: self.xx + other.xx,
            xy: self.xy + other.xy,
            xz: self.xz + other.xz,
            xw: self.xw + other.xw,
            yy: self.yy + other.yy,
            yz: self.yz + other.yz,
            yw: self.yw + other.yw,
            zz: self.zz + other.zz,
            zw: self.zw + other.zw,
            ww: self.ww + other.ww,
        }
    }

    /// The error of a position: the sum of its squared distances from the planes.
    pub open spec fn error_at(self, p: Vec3) -> Float32 {
        let two = Float32 { bits: TWO };
        self.xx * p.x * p.x + two * self.xy * p.x * p.y + two * self.xz * p.x * p.z + two * self.xw
            * p.x + self.yy * p.y * p.y + two * self.yz * p.y * p.z + two * self.yw * p.y + self.zz
            * p.z * p.z + two * self.zw * p.z + self.ww
    }

    pub fn evaluate(self, p: Vec3) -> (result: Float32)
        ensures
            result == self.error_at(p),
    {
        let two: Float32 = Float32 { bits: TWO };
        self.xx * p.x * p.x + two * self.xy * p.x * p.y + two * self.xz * p.x * p.z + two * self.xw
            * p.x + self.yy * p.y * p.y + two * self.yz * p.y * p.z + two * self.yw * p.y + self.zz
            * p.z * p.z + two * self.zw * p.z + self.ww
    }
}

impl Quadric {
    /// The error of a position, summed row by row.
    pub open spec fn error_by_rows(self, p: Vec3) -> Float32 {
        p.x * (self.xx * p.x + self.xy * p.y + self.xz * p.z + self.xw) + p.y * (self.xy * p.x
            + self.yy * p.y + self.yz * p.z + self.yw) + p.z * (self.xz * p.x + self.yz * p.y
            + self.zz * p.z + self.zw) + self.ww
    }

    pub fn evaluate_by_rows(self, p: Vec3) -> (result: Float32)
        ensures
            result == self.error_by_rows(p),
    {
        p.x * (self.xx * p.x + self.xy * p.y + self.xz * p.z + self.xw) + p.y * (self.xy * p.x
            + self.yy * p.y + self.yz * p.z + self.yw) + p.z * (self.xz * p.x + self.yz * p.y
            + self.zz * p.z + self.zw) + self.ww
    }
}

impl std::ops::Add for Quadric {
    type Output = Quadric;

    fn add(self, other: Quadric) -> (result: Quadric) {
        Quadric {
            xx: self.xx + other.xx,
            xy: self.xy + other.xy,
            xz: self.xz + other.xz,
            xw: self.xw + other.xw,
            yy: self.yy + other.yy,
            yz: self.yz + other.yz,
            yw: self.yw + other.yw,
            zz: self.zz + other.zz,
            zw: self.zw + other.zw,
            ww: self.ww + other.ww,
        }
    }
}

impl vstd::std_specs::ops::AddSpecImpl for Quadric {
    open spec fn obeys_add_spec() -> bool {
        true
    }

    open spec fn add_req(self, other: Quadric) -> bool {
        true
    }

    open spec fn add_spec(self, other: Quadric) -> Quadric {
        self + other
    }
}

/// The quadric of the plane of a face: none where the face has no area.
pub open spec fn face_quadric(vertices: Seq<MeshVertex>, triangle: [usize; 3]) -> Option<Quadric> {
    if !corners_exist(triangle, vertices.len()) {
        None
    } else {
        let outer = face_normal(vertices, triangle);
        let length = outer.norm();
        if !length.finite() || length.at_most(Float32 { bits: EPSILON }) {
            None
        } else {
            let normal = outer / length;
            let distance = normal.dot_product(vertices[triangle[0] as int].position).opposite();
            Some(Quadric::of_plane(normal, distance))
        }
    }
}

/// A quadric, with another one more where it applies.
pub open spec fn quadric_plus_if(sum: Quadric, applies: bool, term: Quadric) -> Quadric {
    if applies {
        sum + term
    } else {
        sum
    }
}

/// The quadric of the first `count` faces around a vertex.
pub open spec fn quadric_at(
    vertices: Seq<MeshVertex>,
    triangles: Seq<[usize; 3]>,
    index: int,
    count: int,
) -> Quadric
    decreases count,
{
    if count <= 0 {
        Quadric::none()
    } else {
        let before = quadric_at(vertices, triangles, index, count - 1);
        let triangle = triangles[count - 1];
        match face_quadric(vertices, triangle) {
            None => before,
            Some(plane) => {
                let first = quadric_plus_if(before, triangle[0] == index, plane);
                let second = quadric_plus_if(first, triangle[1] == index, plane);
                quadric_plus_if(second, triangle[2] == index, plane)
            },
        }
    }
}

/// The quadric of all faces around a vertex.
pub open spec fn vertex_quadric(
    vertices: Seq<MeshVertex>,
    triangles: Seq<[usize; 3]>,
    index: int,
) -> Quadric {
    quadric_at(vertices, triangles, index, triangles.len() as int)
}

fn find_face_quadric(vertices: &[MeshVertex], triangle: [usize; 3]) -> (result: Option<Quadric>)
    ensures
        result == face_quadric(vertices@, triangle),
{
    if triangle[0] >= vertices.len() || triangle[1] >= vertices.len() || triangle[2]
        >= vertices.len() {
        return None;
    }
    let a: Vec3 = vertices[triangle[0]].position;
    let b: Vec3 = vertices[triangle[1]].position;
    let c: Vec3 = vertices[triangle[2]].position;
    let outer: Vec3 = (b - a).cross(c - a);
    let length: Float32 = outer.length();
    if !length.is_finite() || length.is_at_most(Float32 { bits: EPSILON }) {
        return None;
    }
    let normal: Vec3 = outer / length;
    Some(Quadric::from_plane(normal, normal.dot(a).negate()))
}

fn add_quadric(sums: &mut Vec<Quadric>, corner: usize, plane: Quadric)
    requires
        corner < old(sums)@.len(),
    ensures
        final(sums)@.len() == old(sums)@.len(),
        forall|i: int|
            0 <= i < old(sums)@.len() ==> #[trigger] final(sums)@[i] == quadric_plus_if(
                old(sums)@[i],
                corner == i,
                plane,
            ),
{
    let before: Quadric = sums[corner];
    sums.set(corner, before + plane);
}

/// The quadric of each vertex.
pub fn vertex_quadrics(vertices: &[MeshVertex], triangles: &[[usize; 3]]) -> (result: Vec<Quadric>)
    ensures
        result@ == Seq::new(
            vertices@.len(),
            |i: int| vertex_quadric(vertices@, triangles@, i),
        ),
{
    let mut sums: Vec<Quadric> = Vec::new();
    let mut i: usize = 0;
    while i < vertices.len()
        invariant
            i <= vertices@.len(),
            sums@.len() == i,
            forall|j: int| 0 <= j < i ==> #[trigger] sums@[j] == Quadric::none(),
        decreases vertices@.len() - i,
    {
        sums.push(Quadric::zero());
        i += 1;
    }
    let mut t: usize = 0;
    while t < triangles.len()
        invariant
            t <= triangles@.len(),
            sums@.len() == vertices@.len(),
            forall|j: int|
                0 <= j < vertices@.len() ==> #[trigger] sums@[j] == quadric_at(
                    vertices@,
                    triangles@,
                    j,
                    t as int,
                ),
        decreases triangles@.len() - t,
    {
        let triangle: [usize; 3] = triangles[t];
        match find_face_quadric(vertices, triangle) {
            None => {},
            Some(plane) => {
                add_quadric(&mut sums, triangle[0], plane);
                add_quadric(&mut sums, triangle[1], plane);
                add_quadric(&mut sums, triangle[2], plane);
            },
        }
        t += 1;
    }
    assert(sums@ =~= Seq::new(
        vertices@.len(),
        |i: int| vertex_quadric(vertices@, triangles@, i),
    ));
    sums
}

/// Whether two points have the same coordinates.
pub open spec fn same_point(left: Vec3, right: Vec3) -> bool {
    left.x.same_value(right.x) && left.y.same_value(right.y) && left.z.same_value(right.z)
}

pub fn are_same_point(left: Vec3, right: Vec3) -> (result: bool)
    ensures
        result == same_point(left, right),
{
    left.x.equals(right.x) && left.y.equals(right.y) && left.z.equals(right.z)
}

/// The point of a corner after an edge was collapsed.
pub open spec fn moved(
    vertices: Seq<MeshVertex>,
    corner: usize,
    a: usize,
    b: usize,
    position: Vec3,
) -> Vec3 {
    if corner == a || corner == b {
        position
    } else {
        vertices[corner as int].position
    }
}

/// The length of the longest position of the first `count` vertices.
pub open spec fn reach(vertices: Seq<MeshVertex>, count: int) -> Float32
    decreases count,
{
    if count <= 0 {
        Float32 { bits: 0 }
    } else {
        greatest(reach(vertices, count - 1), vertices[count - 1].position.norm())
    }
}

/// Whether a point lies on the side of the center that it should.
pub open spec fn faces_away(normal: Vec3, point: Vec3, center: Vec3, outward: bool) -> bool {
    !normal.dot_product(point - center).negative() == outward
}

/// Whether a new face keeps the mesh convex: it turns away from the center along each axis, and
/// no vertex lies noticeably above it.
pub open spec fn stays_convex(
    vertices: Seq<MeshVertex>,
    normal: Vec3,
    p: Vec3,
    q: Vec3,
    r: Vec3,
    center: Vec3,
) -> bool {
    let zero = Float32 { bits: 0 };
    let middle = (p + q + r) / (Float32 { bits: THREE });
    let tolerance = normal.norm() * reach(vertices, vertices.len() as int) * (Float32 {
        bits: CONVEX_TOLERANCE,
    });
    &&& !(normal.x * (middle.x - center.x)).less(zero)
    &&& !(normal.y * (middle.y - center.y)).less(zero)
    &&& !(normal.z * (middle.z - center.z)).less(zero)
    &&& forall|i: int|
        0 <= i < vertices.len() ==> !tolerance.less(
            normal.dot_product(#[trigger] vertices[i].position - p),
        )
}

/// Whether a face allows the collapse of an edge: it is not one of those that change, it vanishes,
/// or it neither turns over nor shrinks to almost nothing, faces away from the center of the mesh
/// and keeps the mesh convex where it should.
pub open spec fn face_allows(
    vertices: Seq<MeshVertex>,
    triangle: [usize; 3],
    a: usize,
    b: usize,
    position: Vec3,
    orientation: Option<(Vec3, bool)>,
    keep_convex: bool,
) -> bool {
    let touched = triangle[0] == a || triangle[0] == b || triangle[1] == a || triangle[1] == b
        || triangle[2] == a || triangle[2] == b;
    let p = moved(vertices, triangle[0], a, b, position);
    let q = moved(vertices, triangle[1], a, b, position);
    let r = moved(vertices, triangle[2], a, b, position);
    let before = face_normal(vertices, triangle);
    let after = (q - p).cross_product(r - p);
    !touched || same_point(p, q) || same_point(q, r) || same_point(r, p) || {
        &&& !before.dot_product(after).at_most(Float32 { bits: 0 })
        &&& !after.norm().at_most(before.norm() * (Float32 { bits: THOUSANDTH }))
        &&& orientation matches Some((center, outward)) ==> {
            &&& faces_away(after, p, center, outward)
            &&& faces_away(after, q, center, outward)
            &&& faces_away(after, r, center, outward)
            &&& keep_convex ==> stays_convex(vertices, after, p, q, r, center)
        }
    }
}

/// Whether every face allows the collapse of an edge.
pub open spec fn faces_allow(
    vertices: Seq<MeshVertex>,
    triangles: Seq<[usize; 3]>,
    a: usize,
    b: usize,
    position: Vec3,
    orientation: Option<(Vec3, bool)>,
    keep_convex: bool,
) -> bool {
    forall|t: int|
        0 <= t < triangles.len() ==> face_allows(
            vertices,
            #[trigger] triangles[t],
            a,
            b,
            position,
            orientation,
            keep_convex,
        )
}

/// The length of the longest position.
pub fn find_reach(vertices: &[MeshVertex]) -> (result: Float32)
    ensures
        result == reach(vertices@, vertices@.len() as int),
{
    let mut longest: Float32 = Float32 { bits: 0 };
    let mut i: usize = 0;
    while i < vertices.len()
        invariant
            i <= vertices@.len(),
            longest == reach(vertices@, i as int),
        decreases vertices@.len() - i,
    {
        longest = maximum(longest, vertices[i].position.length());
        i += 1;
    }
    longest
}

fn keeps_convex(
    vertices: &[MeshVertex],
    normal: Vec3,
    p: Vec3,
    q: Vec3,
    r: Vec3,
    center: Vec3,
    longest: Float32,
) -> (result: bool)
    requires
        longest == reach(vertices@, vertices@.len() as int),
    ensures
        result == stays_convex(vertices@, normal, p, q, r, center),
{
    let zero: Float32 = Float32 { bits: 0 };
    let middle: Vec3 = (p + q + r) / Float32 { bits: THREE };
    if (normal.x * (middle.x - center.x)).is_less(zero) || (normal.y * (middle.y
        - center.y)).is_less(zero) || (normal.z * (middle.z - center.z)).is_less(zero) {
        return false;
    }
    let tolerance: Float32 = normal.length() * longest * Float32 { bits: CONVEX_TOLERANCE };
    let mut i: usize = 0;
    while i < vertices.len()
        invariant
            i <= vertices@.len(),
            tolerance == normal.norm() * reach(vertices@, vertices@.len() as int) * (Float32 {
                bits: CONVEX_TOLERANCE,
            }),
            forall|j: int|
                0 <= j < i ==> !tolerance.less(
                    normal.dot_product(#[trigger] vertices@[j].position - p),
                ),
        decreases vertices@.len() - i,
    {
        let height: Float32 = normal.dot(vertices[i].position - p);
        if tolerance.is_less(height) {
            assert(tolerance.less(normal.dot_product(vertices@[i as int].position - p)));
            return false;
        }
        i += 1;
    }
    true
}

fn check_face(
    vertices: &[MeshVertex],
    triangle: [usize; 3],
    a: usize,
    b: usize,
    position: Vec3,
    orientation: Option<(Vec3, bool)>,
    keep_convex: bool,
    longest: Float32,
) -> (result: bool)
    requires
        corners_exist(triangle, vertices@.len()),
        longest == reach(vertices@, vertices@.len() as int),
    ensures
        result == face_allows(vertices@, triangle, a, b, position, orientation, keep_convex),
{
    let (x, y, z): (usize, usize, usize) = (triangle[0], triangle[1], triangle[2]);
    if x != a && x != b && y != a && y != b && z != a && z != b {
        return true;
    }
    let old_p: Vec3 = vertices[x].position;
    let old_q: Vec3 = vertices[y].position;
    let old_r: Vec3 = vertices[z].position;
    let before: Vec3 = (old_q - old_p).cross(old_r - old_p);
    let p: Vec3 = if x == a || x == b {
        position
    } else {
        old_p
    };
    let q: Vec3 = if y == a || y == b {
        position
    } else {
        old_q
    };
    let r: Vec3 = if z == a || z == b {
        position
    } else {
        old_r
    };
    if are_same_point(p, q) || are_same_point(q, r) || are_same_point(r, p) {
        return true;
    }
    let after: Vec3 = (q - p).cross(r - p);
    if before.dot(after).is_at_most(Float32 { bits: 0 }) || after.length().is_at_most(
        before.length() * Float32 { bits: THOUSANDTH },
    ) {
        return false;
    }
    match orientation {
        None => true,
        Some((center, outward)) => {
            let at_p: bool = !after.dot(p - center).parts().0;
            let at_q: bool = !after.dot(q - center).parts().0;
            let at_r: bool = !after.dot(r - center).parts().0;
            if at_p != outward || at_q != outward || at_r != outward {
                return false;
            }
            !keep_convex || keeps_convex(vertices, after, p, q, r, center, longest)
        },
    }
}

/// Says whether every face allows the collapse of an edge.
pub fn check_faces(
    vertices: &[MeshVertex],
    triangles: &[[usize; 3]],
    a: usize,
    b: usize,
    position: Vec3,
    orientation: Option<(Vec3, bool)>,
    keep_convex: bool,
    longest: Float32,
) -> (result: bool)
    requires
        forall|t: int|
            0 <= t < triangles@.len() ==> corners_exist(#[trigger] triangles@[t], vertices@.len()),
        longest == reach(vertices@, vertices@.len() as int),
    ensures
        result == faces_allow(
            vertices@,
            triangles@,
            a,
            b,
            position,
            orientation,
            keep_convex,
        ),
{
    let mut t: usize = 0;
    while t < triangles.len()
        invariant
            t <= triangles@.len(),
            forall|u: int|
                0 <= u < triangles@.len() ==> corners_exist(
                    #[trigger] triangles@[u],
                    vertices@.len(),
                ),
            longest == reach(vertices@, vertices@.len() as int),
            forall|u: int|
                0 <= u < t ==> face_allows(
                    vertices@,
                    #[trigger] triangles@[u],
                    a,
                    b,
                    position,
                    orientation,
                    keep_convex,
                ),
        decreases triangles@.len() - t,
    {
        assert(corners_exist(triangles@[t as int], vertices@.len()));
        if !check_face(vertices, triangles[t], a, b, position, orientation, keep_convex, longest) {
            return false;
        }
        t += 1;
    }
    true
}

/// The center of the box around a mesh.
pub open spec fn center_of(mesh: MeshModel) -> Vec3 {
    (mesh.bounds.min + mesh.bounds.max) * (Float32 { bits: HALF })
}

/// The least distance from the center that tells the side of a face.
pub open spec fn side_tolerance(mesh: MeshModel) -> Float32 {
    greatest(
        (mesh.bounds.max - mesh.bounds.min).norm() * (Float32 { bits: MILLIONTH }),
        Float32 { bits: SMALLEST_NORMAL },
    )
}

/// On which side of a face the center lies, and how far.
pub open spec fn side_of(mesh: MeshModel, triangle: [usize; 3]) -> Float32 {
    let p = mesh.vertices[triangle[0] as int].position;
    let q = mesh.vertices[triangle[1] as int].position;
    let r = mesh.vertices[triangle[2] as int].position;
    face_normal(mesh.vertices, triangle).dot_product(
        (p + q + r) / (Float32 { bits: THREE }) - center_of(mesh),
    )
}

/// Whether a face has the center on one side, farther away than a tolerance.
pub open spec fn is_oriented(
    mesh: MeshModel,
    triangle: [usize; 3],
    tolerance: Float32,
    outward: bool,
) -> bool {
    &&& corners_exist(triangle, mesh.vertices.len())
    &&& !side_of(mesh, triangle).absolute().at_most(tolerance)
    &&& !side_of(mesh, triangle).negative() == outward
}

/// Whether every face has the center on the same side.
pub open spec fn all_oriented(mesh: MeshModel, tolerance: Float32, outward: bool) -> bool {
    forall|t: int|
        0 <= t < mesh.triangles.len() ==> is_oriented(
            mesh,
            #[trigger] mesh.triangles[t],
            tolerance,
            outward,
        )
}

/// The center of a mesh and whether its faces turn away from it, where all of them turn the same
/// way by more than a tolerance.
pub open spec fn orientation_within(mesh: MeshModel, tolerance: Float32) -> Option<(Vec3, bool)> {
    if mesh.triangles.len() == 0 {
        None
    } else if all_oriented(mesh, tolerance, true) {
        Some((center_of(mesh), true))
    } else if all_oriented(mesh, tolerance, false) {
        Some((center_of(mesh), false))
    } else {
        None
    }
}

/// The center of a mesh and whether its faces turn away from it, where all of them clearly turn
/// the same way.
pub open spec fn orientation_of(mesh: MeshModel) -> Option<(Vec3, bool)> {
    orientation_within(mesh, side_tolerance(mesh))
}

/// The center of a mesh and whether its faces turn away from it.
pub fn consistent_orientation_center(mesh: &Mesh) -> (result: Option<(Vec3, bool)>)
    ensures
        result == orientation_of(mesh@),
{
    let tolerance: Float32 = maximum(
        (mesh.bounds.max - mesh.bounds.min).length() * Float32 { bits: MILLIONTH },
        Float32 { bits: SMALLEST_NORMAL },
    );
    orientation_center(mesh, tolerance)
}

/// The center of a mesh and whether its faces turn away from it by more than a tolerance.
pub fn orientation_center(mesh: &Mesh, tolerance: Float32) -> (result: Option<(Vec3, bool)>)
    ensures
        result == orientation_within(mesh@, tolerance),
{
    let center: Vec3 = (mesh.bounds.min + mesh.bounds.max) * Float32 { bits: HALF };
    if mesh.triangles.len() == 0 {
        return None;
    }
    let mut sign: Option<bool> = None;
    let mut t: usize = 0;
    while t < mesh.triangles.len()
        invariant
            t <= mesh.triangles@.len(),
            center == center_of(mesh@),
            (t == 0) == (sign is None),
            sign matches Some(outward) ==> forall|u: int|
                0 <= u < t ==> is_oriented(
                    mesh@,
                    #[trigger] mesh@.triangles[u],
                    tolerance,
                    outward,
                ),
        decreases mesh.triangles@.len() - t,
    {
        let corners: [usize; 3] = mesh.triangles[t];
        let (a, b, c): (usize, usize, usize) = (corners[0], corners[1], corners[2]);
        let ghost triangle = mesh@.triangles[t as int];
        let count: usize = mesh.vertices.len();
        if a >= count || b >= count || c >= count {
            assert(!is_oriented(mesh@, triangle, tolerance, true) && !is_oriented(mesh@, triangle, tolerance, false));
            return None;
        }
        let p: Vec3 = mesh.vertices[a].position;
        let q: Vec3 = mesh.vertices[b].position;
        let r: Vec3 = mesh.vertices[c].position;
        let normal: Vec3 = (q - p).cross(r - p);
        let side: Float32 = normal.dot((p + q + r) / Float32 { bits: THREE } - center);
        assert(side == side_of(mesh@, triangle));
        if side.abs().is_at_most(tolerance) {
            assert(!is_oriented(mesh@, triangle, tolerance, true) && !is_oriented(mesh@, triangle, tolerance, false));
            return None;
        }
        let current: bool = !side.parts().0;
        match sign {
            None => {
                sign = Some(current);
            },
            Some(expected) => {
                if expected != current {
                    assert(!is_oriented(mesh@, triangle, tolerance, expected));
                    assert(is_oriented(mesh@, mesh@.triangles[0], tolerance, expected));
                    assert(!is_oriented(mesh@, mesh@.triangles[0], tolerance, !expected));
                    return None;
                }
            },
        }
        t += 1;
    }
    match sign {
        None => None,
        Some(outward) => {
            assert(all_oriented(mesh@, tolerance, outward));
            assert(is_oriented(mesh@, mesh@.triangles[0], tolerance, outward));
            assert(!is_oriented(mesh@, mesh@.triangles[0], tolerance, !outward));
            Some((center, outward))
        },
    }
}

} // verus!
