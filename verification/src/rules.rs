//! The choice between the rules by which edges are collapsed.

use crate::collapse::{rule_for, QuadricRule, SimplifyOptions};
use crate::float::Float32;
use crate::math::Vec3;
use crate::mesh::{Mesh, MeshModel, MeshVertex};
use crate::qem::{consistent_orientation_center, reach};
use crate::round::{round_rule_for, RoundModel, RoundRule};
use crate::topology::{all_edges, are_in_range, distinct, is_closed_manifold, Edge};
use vstd::prelude::*;

verus! {

/// How the rule for a mesh is made.
#[derive(Clone, Copy, Debug, PartialEq)]
pub enum Method {
    /// By quadrics alone, and a sphere where one is given.
    Quadric(SimplifyOptions),
    /// So that a sphere around the origin stays round.
    Round,
}

/// A rule that weighs edges and judges whether they may be collapsed.
#[derive(Debug, PartialEq)]
pub enum CollapseRule {
    Quadric(QuadricRule),
    Round(RoundRule),
}

/// A rule as mathematics.
#[verifier::ext_equal]
pub enum RuleModel {
    Quadric(QuadricRule),
    Round(RoundModel),
}

impl View for CollapseRule {
    type V = RuleModel;

    open spec fn view(&self) -> RuleModel {
        match *self {
            CollapseRule::Quadric(rule) => RuleModel::Quadric(rule),
            CollapseRule::Round(rule) => RuleModel::Round(rule@),
        }
    }
}

impl Method {
    /// The rule for simplifying a mesh.
    pub open spec fn rule(self, mesh: MeshModel) -> RuleModel {
        match self {
            Method::Quadric(options) => RuleModel::Quadric(rule_for(mesh, options)),
            Method::Round => RuleModel::Round(round_rule_for(mesh)),
        }
    }

    /// Makes the rule for simplifying a mesh.
    pub fn make_rule(self, mesh: &Mesh) -> (result: CollapseRule)
        ensures
            result@ == self.rule(mesh@),
    {
        match self {
            Method::Quadric(options) => CollapseRule::Quadric(
                QuadricRule {
                    options,
                    orientation: consistent_orientation_center(mesh),
                    keep_closed: is_closed_manifold(mesh.triangles.as_slice()),
                },
            ),
            Method::Round => CollapseRule::Round(RoundRule::of(mesh)),
        }
    }
}

impl RuleModel {
    /// The error of collapsing an edge and the position of the merged vertex.
    pub open spec fn candidate(
        self,
        vertices: Seq<MeshVertex>,
        triangles: Seq<[usize; 3]>,
        edge: Edge,
    ) -> (Float32, Vec3) {
        match self {
            RuleModel::Quadric(rule) => rule.candidate(vertices, triangles, edge),
            RuleModel::Round(rule) => rule.candidate(vertices, triangles, edge),
        }
    }

    /// Whether an edge may be collapsed to a position.
    pub open spec fn permits(
        self,
        vertices: Seq<MeshVertex>,
        triangles: Seq<[usize; 3]>,
        edge: Edge,
        position: Vec3,
    ) -> bool {
        match self {
            RuleModel::Quadric(rule) => rule.permits(vertices, triangles, edge, position),
            RuleModel::Round(rule) => rule.permits(vertices, triangles, edge, position),
        }
    }
}

impl CollapseRule {
    /// Weighs every edge.
    pub fn weigh(
        &self,
        vertices: &Vec<MeshVertex>,
        triangles: &Vec<[usize; 3]>,
        edges: &Vec<Edge>,
    ) -> (result: Vec<(Float32, Vec3)>)
        requires
            are_in_range(triangles@, vertices@.len()),
            edges@ == distinct(all_edges(triangles@)),
        ensures
            result@ == Seq::new(
                edges@.len(),
                |i: int| self@.candidate(vertices@, triangles@, edges@[i]),
            ),
    {
        let result: Vec<(Float32, Vec3)> = match self {
            CollapseRule::Quadric(rule) => rule.weigh(vertices, triangles, edges),
            CollapseRule::Round(rule) => rule.weigh(vertices, triangles, edges),
        };
        assert(result@ =~= Seq::new(
            edges@.len(),
            |i: int| self@.candidate(vertices@, triangles@, edges@[i]),
        ));
        result
    }

    /// Says whether an edge may be collapsed to a position, `longest` being the length of the
    /// longest position.
    pub fn judge(
        &self,
        vertices: &Vec<MeshVertex>,
        triangles: &Vec<[usize; 3]>,
        edge: Edge,
        position: Vec3,
        longest: Float32,
    ) -> (result: bool)
        requires
            are_in_range(triangles@, vertices@.len()),
            longest == reach(vertices@, vertices@.len() as int),
        ensures
            result == self@.permits(vertices@, triangles@, edge, position),
    {
        match self {
            CollapseRule::Quadric(rule) => rule.judge(vertices, triangles, edge, position, longest),
            CollapseRule::Round(rule) => rule.judge(vertices, triangles, edge, position),
        }
    }
}

} // verus!
