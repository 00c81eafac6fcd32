//! The rule by which edges are collapsed.

use crate::derived::corners_exist;
use crate::float::{Float32, HALF};
use crate::math::Vec3;
use crate::mesh::{MeshModel, MeshVertex};
use crate::qem::{
    check_faces, faces_allow, orientation_of, reach, vertex_quadric, vertex_quadrics, Quadric,
};
use crate::topology::{
    all_edges, are_in_range, collapse_has_valid_link, collapse_keeps_closed_manifold, collapsed,
    distinct, has_valid_link, is_closed, law_distinct_keeps_the_values, law_edges_are_in_range,
    Edge,
};
use vstd::prelude::*;

verus! {

/// A sphere that collapsed vertices are moved to.
///
/// Simplification does not find out by itself that a mesh is a sphere. The tolerance is relative
/// to the radius.
#[derive(Clone, Copy, Debug, PartialEq)]
pub struct SphereProjection {
    pub center: Vec3,
    pub radius: Float32,
    pub relative_tolerance: Float32,
}

impl SphereProjection {
    pub fn new(center: Vec3, radius: Float32, relative_tolerance: Float32) -> (result:
        SphereProjection)
        ensures
            result == (SphereProjection { center, radius, relative_tolerance }),
    {
        SphereProjection { center, radius, relative_tolerance }
    }

    /// Whether the radius is finite and positive, and the tolerance finite and not negative.
    pub open spec fn usable(self) -> bool {
        &&& self.radius.finite()
        &&& self.radius.rank() > 0
        &&& self.relative_tolerance.finite()
        &&& self.relative_tolerance.rank() >= 0
    }

    pub fn is_usable(&self) -> (result: bool)
        ensures
            result == self.usable(),
    {
        let zero: Float32 = Float32 { bits: 0 };
        self.radius.is_finite() && zero.is_less(self.radius) && self.relative_tolerance.is_finite()
            && zero.is_at_most(self.relative_tolerance)
    }
}

/// How a mesh is simplified.
#[derive(Clone, Copy, Debug, PartialEq)]
pub struct SimplifyOptions {
    pub sphere_projection: Option<SphereProjection>,
}

impl Default for SimplifyOptions {
    fn default() -> (result: SimplifyOptions)
        ensures
            result.sphere_projection is None,
    {
        SimplifyOptions { sphere_projection: None }
    }
}

/// The middle between two vertices.
pub open spec fn midpoint(vertices: Seq<MeshVertex>, edge: Edge) -> Vec3 {
    (vertices[edge.0 as int].position + vertices[edge.1 as int].position) * (Float32 {
        bits: HALF,
    })
}

impl SimplifyOptions {
    /// Where a collapsed vertex goes: onto the sphere, where there is a usable one and the vertex
    /// is not too close to its center.
    pub open spec fn projected(self, position: Vec3) -> Vec3 {
        match self.sphere_projection {
            Some(sphere) => {
                let direction = position - sphere.center;
                if sphere.usable() && (sphere.radius * sphere.relative_tolerance).less(
                    direction.norm(),
                ) {
                    sphere.center + direction.unit() * sphere.radius
                } else {
                    position
                }
            },
            None => position,
        }
    }

    fn project(&self, position: Vec3) -> (result: Vec3)
        ensures
            result == self.projected(position),
    {
        match self.sphere_projection {
            Some(sphere) => {
                if !sphere.is_usable() {
                    return position;
                }
                let direction: Vec3 = position - sphere.center;
                let distance: Float32 = direction.length();
                if (sphere.radius * sphere.relative_tolerance).is_less(distance) {
                    sphere.center + direction.normalize() * sphere.radius
                } else {
                    position
                }
            },
            None => position,
        }
    }
}

/// Whether merging the ends of an edge keeps the triangles closed and needs no repair around it.
pub open spec fn topology_allows(triangles: Seq<[usize; 3]>, edge: Edge) -> bool {
    is_closed(collapsed(triangles, edge.0, edge.1)) && has_valid_link(triangles, edge.0, edge.1)
}

/// The rule that weighs a collapse by the quadrics of its ends.
#[derive(Clone, Copy, Debug, PartialEq)]
pub struct QuadricRule {
    pub options: SimplifyOptions,
    /// The center of the mesh and whether its faces turn away from it.
    pub orientation: Option<(Vec3, bool)>,
    /// Whether the mesh is closed, and is to stay so.
    pub keep_closed: bool,
}

/// The rule for simplifying a mesh.
pub open spec fn rule_for(mesh: MeshModel, options: SimplifyOptions) -> QuadricRule {
    QuadricRule {
        options,
        orientation: orientation_of(mesh),
        keep_closed: is_closed(mesh.triangles),
    }
}

impl QuadricRule {
    /// The error of collapsing an edge and the position of the merged vertex.
    pub open spec fn candidate(
        self,
        vertices: Seq<MeshVertex>,
        triangles: Seq<[usize; 3]>,
        edge: Edge,
    ) -> (Float32, Vec3) {
        let position = self.options.projected(midpoint(vertices, edge));
        let quadric = vertex_quadric(vertices, triangles, edge.0 as int) + vertex_quadric(
            vertices,
            triangles,
            edge.1 as int,
        );
        (quadric.error_at(position), position)
    }

    /// Whether an edge may be collapsed to a position.
    pub open spec fn permits(
        self,
        vertices: Seq<MeshVertex>,
        triangles: Seq<[usize; 3]>,
        edge: Edge,
        position: Vec3,
    ) -> bool {
        &&& self.keep_closed ==> topology_allows(triangles, edge)
        &&& faces_allow(
            vertices,
            triangles,
            edge.0,
            edge.1,
            position,
            self.orientation,
            self.options.sphere_projection is Some,
        )
    }

    /// Weighs every edge.
    pub fn weigh(
        &self,
        vertices: &Vec<MeshVertex>,
        triangles: &Vec<[usize; 3]>,
        edges: &Vec<Edge>,
    ) -> (result: Vec<(Float32, Vec3)>)
        requires
            are_in_range(triangles@, vertices@.len()),
            edges@ == distinct(all_edges(triangles@)),
        ensures
            result@ == Seq::new(
                edges@.len(),
                |i: int| self.candidate(vertices@, triangles@, edges@[i]),
            ),
    {
        let quadrics: Vec<Quadric> = vertex_quadrics(vertices.as_slice(), triangles.as_slice());
        let mut result: Vec<(Float32, Vec3)> = Vec::new();
        let mut i: usize = 0;
        while i < edges.len()
            invariant
                i <= edges@.len(),
                are_in_range(triangles@, vertices@.len()),
                edges@ == distinct(all_edges(triangles@)),
                quadrics@ == Seq::new(
                    vertices@.len(),
                    |i: int| vertex_quadric(vertices@, triangles@, i),
                ),
                result@ =~= Seq::new(
                    i as nat,
                    |i: int| self.candidate(vertices@, triangles@, edges@[i]),
                ),
            decreases edges@.len() - i,
        {
            let (a, b): (usize, usize) = edges[i];
            proof {
                lemma_ends_exist(triangles@, vertices@.len(), i as int);
            }
            let middle: Vec3 = (vertices[a].position + vertices[b].position) * Float32 {
                bits: HALF,
            };
            let position: Vec3 = self.options.project(middle);
            let quadric: Quadric = quadrics[a] + quadrics[b];
            let error: Float32 = quadric.evaluate(position);
            result.push((error, position));
            i += 1;
        }
        result
    }

    /// Says whether an edge may be collapsed to a position, `longest` being the length of the
    /// longest position.
    pub fn judge(
        &self,
        vertices: &Vec<MeshVertex>,
        triangles: &Vec<[usize; 3]>,
        edge: Edge,
        position: Vec3,
        longest: Float32,
    ) -> (result: bool)
        requires
            are_in_range(triangles@, vertices@.len()),
            longest == reach(vertices@, vertices@.len() as int),
        ensures
            result == self.permits(vertices@, triangles@, edge, position),
    {
        let (a, b): (usize, usize) = edge;
        if self.keep_closed && !(collapse_keeps_closed_manifold(
            triangles.as_slice(),
            a,
            b,
        ) && collapse_has_valid_link(triangles.as_slice(), a, b)) {
            return false;
        }
        proof {
            assert forall|t: int| 0 <= t < triangles@.len() implies corners_exist(
                #[trigger] triangles@[t],
                vertices@.len(),
            ) by {
                assert(triangles@[t][0] < vertices@.len());
                assert(triangles@[t][1] < vertices@.len());
                assert(triangles@[t][2] < vertices@.len());
            }
        }
        check_faces(
            vertices.as_slice(),
            triangles.as_slice(),
            a,
            b,
            position,
            self.orientation,
            self.options.sphere_projection.is_some(),
            longest,
        )
    }
}

/// The ends of an edge of a list of triangles exist.
pub proof fn lemma_ends_exist(triangles: Seq<[usize; 3]>, count: nat, index: int)
    requires
        are_in_range(triangles, count),
        0 <= index < distinct(all_edges(triangles)).len(),
    ensures
        distinct(all_edges(triangles))[index].0 < count,
        distinct(all_edges(triangles))[index].1 < count,
{
    let edges = distinct(all_edges(triangles));
    law_distinct_keeps_the_values(all_edges(triangles));
    law_edges_are_in_range(triangles, count);
    assert(edges.contains(edges[index]));
    let at = choose|at: int|
        0 <= at < all_edges(triangles).len() && all_edges(triangles)[at] == edges[index];
}

} // verus!
