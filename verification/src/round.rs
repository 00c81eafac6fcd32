//! The rule that keeps spheres round.
//!
//! It finds out by itself that a mesh is a sphere around the origin. Merged vertices are then moved
//! back to that sphere, and the vertices farthest along an axis stay where they are.

use crate::collapse::midpoint;
use crate::derived::{corners_exist, face_normal, EPSILON};
use crate::float::{Float32, HALF};
use crate::lod::{simplified_mesh, simplify_by};
use crate::math::Vec3;
use crate::mesh::{Mesh, MeshModel, MeshVertex};
use crate::qem::{
    are_same_point, moved, orientation_center, orientation_within, same_point,
    vertex_quadric, vertex_quadrics, Quadric, THREE,
};
use crate::rules::Method;
use crate::simplify::wanted_triangles;
use crate::topology::{
    all_edges, are_in_range, collapse_keeps_closed_manifold, collapsed, distinct, is_closed,
    is_closed_manifold, Edge,
};
use vstd::prelude::*;

verus! {

/// The bits of 1.0e-4: how far from a sphere its vertices may lie.
pub const SPHERE_TOLERANCE: u32 = 0x38d1_b717;

/// The bits of the largest finite value.
pub const GREATEST_ERROR: u32 = 0x7f7f_ffff;

/// The radius of the sphere around the origin that all vertices lie on, where they do.
pub open spec fn radius_of(vertices: Seq<MeshVertex>) -> Option<Float32> {
    let first = vertices[0].position.norm();
    if vertices.len() > 0 && first.finite() && !first.at_most(Float32 { bits: EPSILON })
        && forall|i: int|
        0 <= i < vertices.len() ==> is_near_sphere(#[trigger] vertices[i].position, first) {
        Some(first)
    } else {
        None
    }
}

/// Whether a position lies on a sphere around the origin, within the tolerance.
pub open spec fn is_near_sphere(position: Vec3, radius: Float32) -> bool {
    (position.norm() - radius).absolute().at_most(Float32 { bits: SPHERE_TOLERANCE })
}

/// Whether a position is as far along an axis as the sphere reaches, within the tolerance.
pub open spec fn is_extreme(position: Vec3, radius: Float32) -> bool {
    let limit = radius - (Float32 { bits: SPHERE_TOLERANCE });
    limit.at_most(position.x.absolute()) || limit.at_most(position.y.absolute()) || limit.at_most(
        position.z.absolute(),
    )
}

/// Finds the radius of the sphere that all vertices lie on.
pub fn sphere_radius(vertices: &Vec<MeshVertex>) -> (result: Option<Float32>)
    ensures
        result == radius_of(vertices@),
{
    if vertices.len() == 0 {
        return None;
    }
    let first: Float32 = vertices[0].position.length();
    if !first.is_finite() || first.is_at_most(Float32 { bits: EPSILON }) {
        return None;
    }
    let mut i: usize = 0;
    while i < vertices.len()
        invariant
            i <= vertices@.len(),
            first == vertices@[0].position.norm(),
            forall|j: int|
                0 <= j < i ==> is_near_sphere(#[trigger] vertices@[j].position, first),
        decreases vertices@.len() - i,
    {
        let length: Float32 = vertices[i].position.length();
        if !(length - first).abs().is_at_most(Float32 { bits: SPHERE_TOLERANCE }) {
            assert(!is_near_sphere(vertices@[i as int].position, first));
            return None;
        }
        i += 1;
    }
    Some(first)
}

fn check_extreme(position: Vec3, radius: Float32) -> (result: bool)
    ensures
        result == is_extreme(position, radius),
{
    let limit: Float32 = radius - Float32 { bits: SPHERE_TOLERANCE };
    limit.is_at_most(position.x.abs()) || limit.is_at_most(position.y.abs()) || limit.is_at_most(
        position.z.abs(),
    )
}

/// Whether each vertex stays where it is; none has to where there is no sphere.
pub open spec fn kept_vertices(vertices: Seq<MeshVertex>, radius: Option<Float32>) -> Seq<bool> {
    match radius {
        Some(reach) => Seq::new(
            vertices.len(),
            |i: int| is_extreme(vertices[i].position, reach),
        ),
        None => Seq::empty(),
    }
}

fn find_kept_vertices(vertices: &Vec<MeshVertex>, radius: Option<Float32>) -> (result: Vec<bool>)
    ensures
        result@ == kept_vertices(vertices@, radius),
{
    let mut kept: Vec<bool> = Vec::new();
    match radius {
        None => {},
        Some(reach) => {
            let mut i: usize = 0;
            while i < vertices.len()
                invariant
                    i <= vertices@.len(),
                    kept@ =~= Seq::new(
                        i as nat,
                        |j: int| is_extreme(vertices@[j].position, reach),
                    ),
                decreases vertices@.len() - i,
            {
                kept.push(check_extreme(vertices[i].position, reach));
                i += 1;
            }
        },
    }
    assert(kept@ =~= kept_vertices(vertices@, radius));
    kept
}

/// The rule that keeps spheres round.
#[derive(Debug, PartialEq)]
pub struct RoundRule {
    /// The radius of the sphere around the origin that the mesh is, where it is one.
    pub radius: Option<Float32>,
    /// The center of the mesh and whether its faces turn away from it.
    pub orientation: Option<(Vec3, bool)>,
    /// Whether the mesh is closed, and is to stay so.
    pub keep_closed: bool,
    /// Whether each vertex stays where it is; those beyond the list need not.
    pub kept: Vec<bool>,
}

/// The rule as mathematics.
#[verifier::ext_equal]
pub struct RoundModel {
    pub radius: Option<Float32>,
    pub orientation: Option<(Vec3, bool)>,
    pub keep_closed: bool,
    pub kept: Seq<bool>,
}

impl View for RoundRule {
    type V = RoundModel;

    open spec fn view(&self) -> RoundModel {
        RoundModel {
            radius: self.radius,
            orientation: self.orientation,
            keep_closed: self.keep_closed,
            kept: self.kept@,
        }
    }
}

/// The rule for simplifying a mesh. The faces of a sphere turn away from the origin.
pub open spec fn round_rule_for(mesh: MeshModel) -> RoundModel {
    let radius = radius_of(mesh.vertices);
    let zero = Float32 { bits: 0 };
    RoundModel {
        radius,
        orientation: if radius is Some {
            Some((Vec3 { x: zero, y: zero, z: zero }, true))
        } else {
            orientation_within(mesh, Float32 { bits: EPSILON })
        },
        keep_closed: is_closed(mesh.triangles),
        kept: kept_vertices(mesh.vertices, radius),
    }
}

/// The better of two candidates: the one whose error is finite and comes first, and the first one
/// where neither is better.
pub open spec fn better(first: (Float32, Vec3), second: (Float32, Vec3)) -> (Float32, Vec3) {
    if second.0.finite() && (!first.0.finite() || second.0.order() < first.0.order()) {
        second
    } else {
        first
    }
}

fn choose_better(first: (Float32, Vec3), second: (Float32, Vec3)) -> (result: (Float32, Vec3))
    ensures
        result == better(first, second),
{
    if second.0.is_finite() && (!first.0.is_finite() || second.0.comes_before(first.0)) {
        second
    } else {
        first
    }
}

/// Whether the middle of a face lies on the side of the center that it should, by the sign of its
/// distance. One in line with the center lies on neither side.
pub open spec fn middle_faces_away(
    normal: Vec3,
    middle: Vec3,
    center: Vec3,
    outward: bool,
) -> bool {
    let side = normal.dot_product(middle - center);
    side.magnitude() != 0 && !side.negative() == outward
}

/// Whether a face allows the collapse of an edge: it is not one of those that change, it vanishes,
/// or it does not turn over and its middle faces away from the center of the mesh.
pub open spec fn face_stays(
    vertices: Seq<MeshVertex>,
    triangle: [usize; 3],
    a: usize,
    b: usize,
    position: Vec3,
    orientation: Option<(Vec3, bool)>,
) -> bool {
    let touched = triangle[0] == a || triangle[0] == b || triangle[1] == a || triangle[1] == b
        || triangle[2] == a || triangle[2] == b;
    let p = moved(vertices, triangle[0], a, b, position);
    let q = moved(vertices, triangle[1], a, b, position);
    let r = moved(vertices, triangle[2], a, b, position);
    let after = (q - p).cross_product(r - p);
    !touched || same_point(p, q) || same_point(q, r) || same_point(r, p) || {
        &&& !face_normal(vertices, triangle).dot_product(after).at_most(Float32 { bits: 0 })
        &&& orientation matches Some((center, outward)) ==> middle_faces_away(
            after,
            (p + q + r) / (Float32 { bits: THREE }),
            center,
            outward,
        )
    }
}

fn check_face(
    vertices: &[MeshVertex],
    triangle: [usize; 3],
    a: usize,
    b: usize,
    position: Vec3,
    orientation: Option<(Vec3, bool)>,
) -> (result: bool)
    requires
        corners_exist(triangle, vertices@.len()),
    ensures
        result == face_stays(vertices@, triangle, a, b, position, orientation),
{
    let (x, y, z): (usize, usize, usize) = (triangle[0], triangle[1], triangle[2]);
    if x != a && x != b && y != a && y != b && z != a && z != b {
        return true;
    }
    let old_p: Vec3 = vertices[x].position;
    let old_q: Vec3 = vertices[y].position;
    let old_r: Vec3 = vertices[z].position;
    let before: Vec3 = (old_q - old_p).cross(old_r - old_p);
    let p: Vec3 = if x == a || x == b {
        position
    } else {
        old_p
    };
    let q: Vec3 = if y == a || y == b {
        position
    } else {
        old_q
    };
    let r: Vec3 = if z == a || z == b {
        position
    } else {
        old_r
    };
    if are_same_point(p, q) || are_same_point(q, r) || are_same_point(r, p) {
        return true;
    }
    let after: Vec3 = (q - p).cross(r - p);
    if before.dot(after).is_at_most(Float32 { bits: 0 }) {
        return false;
    }
    match orientation {
        None => true,
        Some((center, outward)) => {
            let middle: Vec3 = (p + q + r) / Float32 { bits: THREE };
            let side: Float32 = after.dot(middle - center);
            !side.is_zero() && (side.bits < 0x8000_0000) == outward
        },
    }
}

impl RoundModel {
    /// Whether a vertex stays where it is.
    pub open spec fn keeps(self, vertex: usize) -> bool {
        vertex < self.kept.len() && self.kept[vertex as int]
    }

    /// The middle of an edge, on the sphere where there is one and the middle is not its center.
    pub open spec fn middle(self, vertices: Seq<MeshVertex>, edge: Edge) -> Vec3 {
        let point = midpoint(vertices, edge);
        match self.radius {
            Some(radius) => if (Float32 { bits: EPSILON }).less(point.norm()) {
                point.unit() * radius
            } else {
                point
            },
            None => point,
        }
    }

    /// The error of collapsing an edge and the position of the merged vertex: that of one of the
    /// ends or the middle, whichever has the least error.
    pub open spec fn candidate(
        self,
        vertices: Seq<MeshVertex>,
        triangles: Seq<[usize; 3]>,
        edge: Edge,
    ) -> (Float32, Vec3) {
        let quadric = vertex_quadric(vertices, triangles, edge.0 as int) + vertex_quadric(
            vertices,
            triangles,
            edge.1 as int,
        );
        let first = vertices[edge.0 as int].position;
        let second = vertices[edge.1 as int].position;
        let middle = self.middle(vertices, edge);
        let best = better(
            better((quadric.error_by_rows(first), first), (quadric.error_by_rows(second), second)),
            (quadric.error_by_rows(middle), middle),
        );
        if best.0.finite() {
            best
        } else {
            (Float32 { bits: GREATEST_ERROR }, middle)
        }
    }

    /// Whether an edge may be collapsed to a position.
    pub open spec fn permits(
        self,
        vertices: Seq<MeshVertex>,
        triangles: Seq<[usize; 3]>,
        edge: Edge,
        position: Vec3,
    ) -> bool {
        &&& !self.keeps(edge.0) && !self.keeps(edge.1)
        &&& self.keep_closed ==> is_closed(collapsed(triangles, edge.0, edge.1))
        &&& forall|t: int|
            0 <= t < triangles.len() ==> face_stays(
                vertices,
                #[trigger] triangles[t],
                edge.0,
                edge.1,
                position,
                self.orientation,
            )
    }
}

impl RoundRule {
    /// The rule for simplifying a mesh.
    pub fn of(mesh: &Mesh) -> (result: RoundRule)
        ensures
            result@ == round_rule_for(mesh@),
    {
        let radius: Option<Float32> = sphere_radius(&mesh.vertices);
        let zero: Float32 = Float32 { bits: 0 };
        let orientation: Option<(Vec3, bool)> = if radius.is_some() {
            Some((Vec3 { x: zero, y: zero, z: zero }, true))
        } else {
            orientation_center(mesh, Float32 { bits: EPSILON })
        };
        RoundRule {
            radius,
            orientation,
            keep_closed: is_closed_manifold(mesh.triangles.as_slice()),
            kept: find_kept_vertices(&mesh.vertices, radius),
        }
    }

    fn is_kept(&self, vertex: usize) -> (result: bool)
        ensures
            result == self@.keeps(vertex),
    {
        vertex < self.kept.len() && self.kept[vertex]
    }

    fn find_middle(&self, vertices: &Vec<MeshVertex>, edge: Edge) -> (result: Vec3)
        requires
            edge.0 < vertices@.len(),
            edge.1 < vertices@.len(),
        ensures
            result == self@.middle(vertices@, edge),
    {
        let point: Vec3 = (vertices[edge.0].position + vertices[edge.1].position) * Float32 {
            bits: HALF,
        };
        match self.radius {
            Some(radius) => {
                if (Float32 { bits: EPSILON }).is_less(point.length()) {
                    point.normalize() * radius
                } else {
                    point
                }
            },
            None => point,
        }
    }

    /// Weighs every edge.
    pub fn weigh(
        &self,
        vertices: &Vec<MeshVertex>,
        triangles: &Vec<[usize; 3]>,
        edges: &Vec<Edge>,
    ) -> (result: Vec<(Float32, Vec3)>)
        requires
            are_in_range(triangles@, vertices@.len()),
            edges@ == distinct(all_edges(triangles@)),
        ensures
            result@ == Seq::new(
                edges@.len(),
                |i: int| self@.candidate(vertices@, triangles@, edges@[i]),
            ),
    {
        let quadrics: Vec<Quadric> = vertex_quadrics(vertices.as_slice(), triangles.as_slice());
        let mut result: Vec<(Float32, Vec3)> = Vec::new();
        let mut i: usize = 0;
        while i < edges.len()
            invariant
                i <= edges@.len(),
                are_in_range(triangles@, vertices@.len()),
                edges@ == distinct(all_edges(triangles@)),
                quadrics@ == Seq::new(
                    vertices@.len(),
                    |i: int| vertex_quadric(vertices@, triangles@, i),
                ),
                result@ =~= Seq::new(
                    i as nat,
                    |i: int| self@.candidate(vertices@, triangles@, edges@[i]),
                ),
            decreases edges@.len() - i,
        {
            let (a, b): (usize, usize) = edges[i];
            proof {
                crate::collapse::lemma_ends_exist(triangles@, vertices@.len(), i as int);
            }
            let quadric: Quadric = quadrics[a] + quadrics[b];
            let first: Vec3 = vertices[a].position;
            let second: Vec3 = vertices[b].position;
            let middle: Vec3 = self.find_middle(vertices, (a, b));
            let end: (Float32, Vec3) = choose_better(
                (quadric.evaluate_by_rows(first), first),
                (quadric.evaluate_by_rows(second), second),
            );
            let best: (Float32, Vec3) = choose_better(
                end,
                (quadric.evaluate_by_rows(middle), middle),
            );
            if best.0.is_finite() {
                result.push(best);
            } else {
                result.push((Float32 { bits: GREATEST_ERROR }, middle));
            }
            i += 1;
        }
        result
    }

    /// Says whether an edge may be collapsed to a position.
    pub fn judge(
        &self,
        vertices: &Vec<MeshVertex>,
        triangles: &Vec<[usize; 3]>,
        edge: Edge,
        position: Vec3,
    ) -> (result: bool)
        requires
            are_in_range(triangles@, vertices@.len()),
        ensures
            result == self@.permits(vertices@, triangles@, edge, position),
    {
        let (a, b): (usize, usize) = edge;
        if self.is_kept(a) || self.is_kept(b) {
            return false;
        }
        if self.keep_closed && !collapse_keeps_closed_manifold(triangles.as_slice(), a, b) {
            return false;
        }
        let mut t: usize = 0;
        while t < triangles.len()
            invariant
                t <= triangles@.len(),
                are_in_range(triangles@, vertices@.len()),
                (a, b) == edge,
                forall|u: int|
                    0 <= u < t ==> face_stays(
                        vertices@,
                        #[trigger] triangles@[u],
                        a,
                        b,
                        position,
                        self.orientation,
                    ),
            decreases triangles@.len() - t,
        {
            proof {
                assert(triangles@[t as int][0] < vertices@.len());
                assert(triangles@[t as int][1] < vertices@.len());
                assert(triangles@[t as int][2] < vertices@.len());
            }
            if !check_face(vertices.as_slice(), triangles[t], a, b, position, self.orientation) {
                assert(!face_stays(
                    vertices@,
                    triangles@[t as int],
                    a,
                    b,
                    position,
                    self.orientation,
                ));
                return false;
            }
            t += 1;
        }
        true
    }
}

/// Simplifies a mesh to at most `target_triangles`, as far as its faces allow, so that a sphere
/// around the origin stays round.
pub fn simplify_qem(mesh: &Mesh, target_triangles: usize) -> (result: Mesh)
    requires
        mesh@.triangles.len() > wanted_triangles(target_triangles) ==> are_in_range(
            mesh@.triangles,
            mesh@.vertices.len(),
        ),
    ensures
        result@ == simplified_mesh(mesh@, target_triangles, Method::Round),
        are_in_range(mesh@.triangles, mesh@.vertices.len()) ==> are_in_range(
            result@.triangles,
            result@.vertices.len(),
        ),
{
    simplify_by(mesh, target_triangles, Method::Round)
}

} // verus!
