//! Levels of detail and their selection by the size on screen.

use crate::collapse::SimplifyOptions;
use crate::culling::{greatest, maximum, Aabb};
use crate::derived::EPSILON;
use crate::float::{law_quotients_do_not_grow, Float32, HALF, INFINITY, ONE};
use crate::math::{Mat4, Vec3, Vec4};
use crate::mesh::{copy_mesh, Mesh, MeshModel};
use crate::rules::{CollapseRule, Method};
use crate::simplify::{
    compacted, law_closed_triangles_stay_closed, law_compaction_keeps_meshes_closed,
    law_simplification_stops_for_a_reason, lemma_few_vertices_are_used, simplified, simplify,
    wanted_triangles,
};
use crate::topology::{are_in_range, is_closed};
use vstd::prelude::*;

verus! {

/// The share of the triangles that each default level keeps: a half, a quarter, an eighth.
pub const DEFAULT_RATIOS: [u32; 3] = [0x3f00_0000, 0x3e80_0000, 0x3e00_0000];

/// The default thresholds: 256, 128 and 64 pixels.
pub const DEFAULT_THRESHOLDS: [u32; 3] = [0x4380_0000, 0x4300_0000, 0x4280_0000];

/// A chain of levels of detail. Level zero is the source mesh.
#[derive(Debug, PartialEq)]
pub struct LodMesh {
    levels: Vec<Mesh>,
    thresholds: Vec<Float32>,
}

/// A selected level and the extent on screen that it was selected for, so that several
/// submissions can share one decision.
#[derive(Clone, Copy, Debug, PartialEq)]
pub struct LodSelection {
    pub level: usize,
    pub screen_extent: Float32,
}

impl LodSelection {
    /// A level that was not selected by its extent.
    pub fn at_level(level: usize) -> (result: LodSelection)
        ensures
            result == (LodSelection { level, screen_extent: Float32 { bits: 0 } }),
    {
        LodSelection { level, screen_extent: Float32 { bits: 0 } }
    }

    pub fn level(self) -> (result: usize)
        ensures
            result == self.level,
    {
        self.level
    }

    pub fn screen_extent(self) -> (result: Float32)
        ensures
            result == self.screen_extent,
    {
        self.screen_extent
    }
}

/// A chain of levels as mathematics.
#[verifier::ext_equal]
pub struct LodModel {
    pub levels: Seq<MeshModel>,
    pub thresholds: Seq<Float32>,
}

/// The views of a list of meshes.
pub open spec fn mesh_models(meshes: Seq<Mesh>) -> Seq<MeshModel> {
    Seq::new(meshes.len(), |i: int| meshes[i]@)
}

impl View for LodMesh {
    type V = LodModel;

    closed spec fn view(&self) -> LodModel {
        LodModel { levels: mesh_models(self.levels@), thresholds: self.thresholds@ }
    }
}

impl LodModel {
    /// Whether there is a source mesh and one threshold for each further level.
    pub open spec fn sound(self) -> bool {
        &&& self.levels.len() > 0
        &&& self.thresholds.len() == self.levels.len() - 1
    }
}

/// Whether a threshold can be used: it is finite and not negative.
pub open spec fn is_usable(value: Float32) -> bool {
    value.finite() && value.rank() >= 0
}

/// The usable thresholds of a list, at most `count` of them.
pub open spec fn usable_thresholds(values: Seq<Float32>, index: int, count: int) -> Seq<Float32>
    decreases values.len() - index,
{
    if !(0 <= index < values.len()) || count <= 0 {
        Seq::empty()
    } else if is_usable(values[index]) {
        seq![values[index]] + usable_thresholds(values, index + 1, count - 1)
    } else {
        usable_thresholds(values, index + 1, count)
    }
}

/// The lesser of two values.
pub open spec fn lesser(left: Float32, right: Float32) -> Float32 {
    if right.rank() < left.rank() {
        right
    } else {
        left
    }
}

/// The threshold at an index: none is above the one before it, and each one beyond the usable
/// ones is half of the one before it.
pub open spec fn threshold_at(usable: Seq<Float32>, index: int) -> Float32
    decreases index + 1,
{
    if index < 0 {
        Float32 { bits: 0 }
    } else if index < usable.len() {
        if index == 0 {
            usable[0]
        } else {
            lesser(usable[index], threshold_at(usable, index - 1))
        }
    } else {
        threshold_at(usable, index - 1).quotient(2)
    }
}

/// The thresholds of `count` levels.
pub open spec fn sanitized(values: Seq<Float32>, count: int) -> Seq<Float32> {
    let usable = usable_thresholds(values, 0, count);
    Seq::new(count as nat, |i: int| threshold_at(usable, i))
}

/// The default threshold at an index: each one beyond the table is half of the one before it.
pub open spec fn default_threshold(index: int) -> Float32
    decreases index,
{
    if index <= 0 {
        Float32 { bits: DEFAULT_THRESHOLDS[0] }
    } else if index < 3 {
        Float32 { bits: DEFAULT_THRESHOLDS[index] }
    } else {
        default_threshold(index - 1).quotient(2)
    }
}

/// The extent that counts: a negative one counts as none, one that is not finite as infinite.
pub open spec fn usable_extent(extent: Float32) -> Float32 {
    if !extent.finite() {
        Float32 { bits: INFINITY }
    } else if extent.rank() > 0 {
        extent
    } else {
        Float32 { bits: 0 }
    }
}

/// How many thresholds, from `index` on, an extent lies below, up to the first that it does not.
pub open spec fn levels_below(thresholds: Seq<Float32>, extent: Float32, index: int) -> int
    decreases thresholds.len() - index,
{
    if 0 <= index < thresholds.len() && extent.less(thresholds[index]) {
        levels_below(thresholds, extent, index + 1)
    } else {
        index
    }
}

impl LodModel {
    /// The level for an extent.
    pub open spec fn level_for(self, extent: Float32) -> int {
        let count = levels_below(self.thresholds, usable_extent(extent), 0);
        if count < self.levels.len() - 1 {
            count
        } else {
            self.levels.len() - 1
        }
    }

    /// The mesh of a level; the source mesh where there is no such level.
    pub open spec fn mesh_at(self, level: int) -> MeshModel {
        if 0 <= level < self.levels.len() {
            self.levels[level]
        } else {
            self.levels[0]
        }
    }
}

/// The mesh with at most `target` triangles, as far as the rule permits.
pub open spec fn simplified_mesh(
    mesh: MeshModel,
    target: usize,
    method: Method,
) -> MeshModel {
    if mesh.triangles.len() <= wanted_triangles(target) {
        mesh
    } else {
        let left = simplified(
            method.rule(mesh),
            mesh.vertices,
            mesh.triangles,
            wanted_triangles(target),
        );
        compacted(left.0, left.1)
    }
}

/// Simplifies a mesh to at most `target_triangles`, as far as its faces allow.
pub fn simplify_qem(mesh: &Mesh, target_triangles: usize) -> (result: Mesh)
    requires
        mesh@.triangles.len() > wanted_triangles(target_triangles) ==> are_in_range(
            mesh@.triangles,
            mesh@.vertices.len(),
        ),
    ensures
        result@ == simplified_mesh(
            mesh@,
            target_triangles,
            Method::Quadric(SimplifyOptions { sphere_projection: None }),
        ),
{
    simplify_qem_with_options(mesh, target_triangles, SimplifyOptions { sphere_projection: None })
}

/// Simplifies a mesh to at most `target_triangles`, as far as its faces allow, with collapsed
/// vertices moved to a sphere where one is given.
pub fn simplify_qem_with_options(
    mesh: &Mesh,
    target_triangles: usize,
    options: SimplifyOptions,
) -> (result: Mesh)
    requires
        mesh@.triangles.len() > wanted_triangles(target_triangles) ==> are_in_range(
            mesh@.triangles,
            mesh@.vertices.len(),
        ),
    ensures
        result@ == simplified_mesh(mesh@, target_triangles, Method::Quadric(options)),
        are_in_range(mesh@.triangles, mesh@.vertices.len()) ==> are_in_range(
            result@.triangles,
            result@.vertices.len(),
        ),
{
    simplify_by(mesh, target_triangles, Method::Quadric(options))
}

/// Simplifies a mesh to at most `target_triangles` by a method.
pub(crate) fn simplify_by(mesh: &Mesh, target_triangles: usize, method: Method) -> (result: Mesh)
    requires
        mesh@.triangles.len() > wanted_triangles(target_triangles) ==> are_in_range(
            mesh@.triangles,
            mesh@.vertices.len(),
        ),
    ensures
        result@ == simplified_mesh(mesh@, target_triangles, method),
        are_in_range(mesh@.triangles, mesh@.vertices.len()) ==> are_in_range(
            result@.triangles,
            result@.vertices.len(),
        ),
{
    let limit: usize = if target_triangles < 1 {
        1
    } else {
        target_triangles
    };
    if mesh.triangles.len() <= limit {
        return copy_mesh(mesh);
    }
    let rule: CollapseRule = method.make_rule(mesh);
    simplify(&rule, mesh, limit)
}

/// The length of the first three elements of a row.
pub open spec fn row_norm(matrix: Mat4, row: int) -> Float32 {
    let x = matrix@[row];
    let y = matrix@[4 + row];
    let z = matrix@[8 + row];
    (x * x + y * y + z * z).root()
}

fn matrix_row_norm(matrix: Mat4, row: usize) -> (result: Float32)
    requires
        row < 4,
    ensures
        result == row_norm(matrix, row as int),
{
    let x: Float32 = matrix.get(row, 0);
    let y: Float32 = matrix.get(row, 1);
    let z: Float32 = matrix.get(row, 2);
    (x * x + y * y + z * z).sqrt()
}

/// The lengths of the rows of a projection that map across and up.
pub fn projection_row_norms(projection: Mat4) -> (result: (Float32, Float32))
    ensures
        result == (row_norm(projection, 0), row_norm(projection, 1)),
{
    (matrix_row_norm(projection, 0), matrix_row_norm(projection, 1))
}

/// The diameter in pixels that a box has on screen, estimated from above: infinite where the box
/// lies behind the viewer or something is not finite.
pub open spec fn screen_extent_of(
    bounds: Aabb,
    view: Mat4,
    projection: Mat4,
    model: Mat4,
    width: usize,
    height: usize,
) -> Float32 {
    let center = (bounds.min + bounds.max) * (Float32 { bits: HALF });
    let half = (bounds.max - bounds.min) * (Float32 { bits: HALF });
    let world_center = model.applied(
        Vec4 { x: center.x, y: center.y, z: center.z, w: Float32 { bits: ONE } },
    );
    let world_radius = model.linear().applied(half).norm();
    let depth = view.applied(world_center).z.opposite();
    let across = row_norm(projection, 0);
    let up = row_norm(projection, 1);
    if !depth.finite() || depth.at_most(Float32 { bits: EPSILON }) || !world_radius.finite()
        || !across.finite() || !up.finite() {
        Float32 { bits: INFINITY }
    } else {
        let radius = world_radius / depth;
        greatest(
            radius * across * Float32::of_integer(false, width as nat),
            radius * up * Float32::of_integer(false, height as nat),
        )
    }
}

/// The diameter in pixels that a box has on screen, estimated from above.
pub fn projected_screen_extent(
    bounds: Aabb,
    view: Mat4,
    projection: Mat4,
    model: Mat4,
    width: usize,
    height: usize,
) -> (result: Float32)
    ensures
        result == screen_extent_of(bounds, view, projection, model, width, height),
{
    let center: Vec3 = (bounds.min + bounds.max) * Float32 { bits: HALF };
    let half: Vec3 = (bounds.max - bounds.min) * Float32 { bits: HALF };
    let world_center: Vec4 = model * Vec4 {
        x: center.x,
        y: center.y,
        z: center.z,
        w: Float32 { bits: ONE },
    };
    let world_radius: Float32 = (model.upper_left3() * half).length();
    let view_center: Vec4 = view * world_center;
    let depth: Float32 = view_center.z.negate();
    let across: Float32 = matrix_row_norm(projection, 0);
    let up: Float32 = matrix_row_norm(projection, 1);
    if !depth.is_finite() || depth.is_at_most(Float32 { bits: EPSILON })
        || !world_radius.is_finite() || !across.is_finite() || !up.is_finite() {
        return Float32 { bits: INFINITY };
    }
    let viewport_x: Float32 = Float32::from_integer(false, width as u64);
    let viewport_y: Float32 = Float32::from_integer(false, height as u64);
    let radius: Float32 = world_radius / depth;
    maximum(radius * across * viewport_x, radius * up * viewport_y)
}

/// The share of the triangles that a level keeps: between none and all, and none for one that is
/// not finite.
pub open spec fn usable_ratio(ratio: Float32) -> Float32 {
    if ratio.finite() {
        ratio.clamped_to_unit()
    } else {
        Float32 { bits: 0 }
    }
}

/// The share of the triangles that a level keeps.
pub fn sanitize_ratio(ratio: Float32) -> (result: Float32)
    ensures
        result == usable_ratio(ratio),
{
    if ratio.is_finite() {
        ratio.clamp_to_unit()
    } else {
        Float32 { bits: 0 }
    }
}

/// How many triangles a level aims at, if `wanted` are and the level before it has `previous`:
/// fewer than that, but at least one.
pub open spec fn level_goal(wanted: nat, previous: nat) -> nat {
    let target = if wanted < 1 {
        1
    } else {
        wanted
    };
    let limit = if previous < 2 {
        1
    } else {
        (previous - 1) as nat
    };
    if target < limit {
        target
    } else {
        limit
    }
}

fn level_target(wanted: usize, previous: usize) -> (result: usize)
    ensures
        result == level_goal(wanted as nat, previous as nat),
{
    let target: usize = if wanted < 1 {
        1
    } else {
        wanted
    };
    let limit: usize = if previous < 2 {
        1
    } else {
        previous - 1
    };
    if target < limit {
        target
    } else {
        limit
    }
}

/// How many of `count` triangles a share amounts to.
pub open spec fn share_of(count: nat, ratio: Float32) -> nat {
    (Float32::of_integer(false, count) * usable_ratio(ratio)).rounded(usize::MAX as nat)
}

/// The levels of a chain: the source mesh, and for each share the level before it, simplified.
pub open spec fn chain(
    mesh: MeshModel,
    ratios: Seq<Float32>,
    method: Method,
) -> Seq<MeshModel>
    decreases ratios.len(),
{
    if ratios.len() == 0 {
        seq![mesh]
    } else {
        let before = chain(mesh, ratios.drop_last(), method);
        let target = level_goal(
            share_of(mesh.triangles.len(), ratios.last()),
            before.last().triangles.len(),
        );
        before.push(simplified_mesh(before.last(), target as usize, method))
    }
}

fn check_usable(value: Float32) -> (result: bool)
    ensures
        result == is_usable(value),
{
    value.is_finite() && Float32 { bits: 0 }.is_at_most(value)
}

proof fn lemma_usable_thresholds(values: Seq<Float32>, index: int, count: int)
    requires
        0 <= index,
    ensures
        usable_thresholds(values, index, count).len() <= if count < 0 {
            0
        } else {
            count
        },
        forall|i: int|
            0 <= i < usable_thresholds(values, index, count).len() ==> is_usable(
                #[trigger] usable_thresholds(values, index, count)[i],
            ),
    decreases values.len() - index,
{
    if index < values.len() && count > 0 {
        if is_usable(values[index]) {
            lemma_usable_thresholds(values, index + 1, count - 1);
            let rest = usable_thresholds(values, index + 1, count - 1);
            let all = usable_thresholds(values, index, count);
            assert forall|i: int| 0 <= i < all.len() implies is_usable(#[trigger] all[i]) by {
                if i > 0 {
                    assert(all[i] == rest[i - 1]);
                }
            }
        } else {
            lemma_usable_thresholds(values, index + 1, count);
        }
    }
}

fn keep_usable(values: &Vec<Float32>, count: usize) -> (result: Vec<Float32>)
    ensures
        result@ == usable_thresholds(values@, 0, count as int),
{
    let mut kept: Vec<Float32> = Vec::new();
    let mut i: usize = 0;
    while i < values.len() && kept.len() < count
        invariant
            i <= values@.len(),
            kept@.len() <= count,
            usable_thresholds(values@, 0, count as int) == kept@ + usable_thresholds(
                values@,
                i as int,
                count - kept@.len(),
            ),
        decreases values@.len() - i,
    {
        if check_usable(values[i]) {
            let ghost before = kept@;
            kept.push(values[i]);
            proof {
                let rest = usable_thresholds(values@, i + 1, count - kept@.len());
                assert(before + (seq![values@[i as int]] + rest) =~= kept@ + rest);
            }
        }
        i += 1;
    }
    assert(kept@ + Seq::empty() =~= kept@);
    kept
}

impl LodMesh {
    /// The chain of a mesh and three coarser levels, with about a half, a quarter and an eighth of
    /// its triangles.
    pub fn new(mesh: Mesh) -> (result: LodMesh)
        requires
            mesh@.triangles.len() > 1 ==> are_in_range(mesh@.triangles, mesh@.vertices.len()),
        ensures
            result@.sound(),
            result@.levels == chain(
                mesh@,
                Seq::new(3, |i: int| Float32 { bits: DEFAULT_RATIOS[i] }),
                Method::Quadric(SimplifyOptions { sphere_projection: None }),
            ),
            result@.thresholds == Seq::new(3, |i: int| default_threshold(i)),
    {
        let ratios: [Float32; 3] = [
            Float32 { bits: DEFAULT_RATIOS[0] },
            Float32 { bits: DEFAULT_RATIOS[1] },
            Float32 { bits: DEFAULT_RATIOS[2] },
        ];
        assert(ratios@ =~= Seq::new(3, |i: int| Float32 { bits: DEFAULT_RATIOS[i] }));
        LodMesh::with_ratios(mesh, &ratios)
    }

    /// The chain of a mesh and coarser levels, with about these shares of its triangles.
    pub fn with_ratios(mesh: Mesh, ratios: &[Float32]) -> (result: LodMesh)
        requires
            ratios@.len() > 0 && mesh@.triangles.len() > 1 ==> are_in_range(
                mesh@.triangles,
                mesh@.vertices.len(),
            ),
        ensures
            result@.sound(),
            result@.levels == chain(
                mesh@,
                ratios@,
                Method::Quadric(SimplifyOptions { sphere_projection: None }),
            ),
            result@.thresholds == Seq::new(ratios@.len(), |i: int| default_threshold(i)),
    {
        LodMesh::with_ratios_and_options(mesh, ratios, SimplifyOptions { sphere_projection: None })
    }

    /// The chain of a mesh and coarser levels, with about these shares of its triangles.
    pub fn with_ratios_and_options(
        mesh: Mesh,
        ratios: &[Float32],
        options: SimplifyOptions,
    ) -> (result: LodMesh)
        requires
            ratios@.len() > 0 && mesh@.triangles.len() > 1 ==> are_in_range(
                mesh@.triangles,
                mesh@.vertices.len(),
            ),
        ensures
            result@.sound(),
            result@.levels == chain(mesh@, ratios@, Method::Quadric(options)),
            result@.thresholds == Seq::new(ratios@.len(), |i: int| default_threshold(i)),
    {
        LodMesh::by_method(mesh, ratios, Method::Quadric(options))
    }

    /// The chain of a mesh and three coarser levels, in which a sphere around the origin stays
    /// round.
    pub fn round(mesh: Mesh) -> (result: LodMesh)
        requires
            mesh@.triangles.len() > 1 ==> are_in_range(mesh@.triangles, mesh@.vertices.len()),
        ensures
            result@.sound(),
            result@.levels == chain(
                mesh@,
                Seq::new(3, |i: int| Float32 { bits: DEFAULT_RATIOS[i] }),
                Method::Round,
            ),
            result@.thresholds == Seq::new(3, |i: int| default_threshold(i)),
    {
        let ratios: [Float32; 3] = [
            Float32 { bits: DEFAULT_RATIOS[0] },
            Float32 { bits: DEFAULT_RATIOS[1] },
            Float32 { bits: DEFAULT_RATIOS[2] },
        ];
        assert(ratios@ =~= Seq::new(3, |i: int| Float32 { bits: DEFAULT_RATIOS[i] }));
        LodMesh::round_with_ratios(mesh, &ratios)
    }

    /// The chain of a mesh and coarser levels, with about these shares of its triangles, in which a
    /// sphere around the origin stays round.
    pub fn round_with_ratios(mesh: Mesh, ratios: &[Float32]) -> (result: LodMesh)
        requires
            ratios@.len() > 0 && mesh@.triangles.len() > 1 ==> are_in_range(
                mesh@.triangles,
                mesh@.vertices.len(),
            ),
        ensures
            result@.sound(),
            result@.levels == chain(mesh@, ratios@, Method::Round),
            result@.thresholds == Seq::new(ratios@.len(), |i: int| default_threshold(i)),
    {
        LodMesh::by_method(mesh, ratios, Method::Round)
    }

    fn by_method(mesh: Mesh, ratios: &[Float32], method: Method) -> (result: LodMesh)
        requires
            ratios@.len() > 0 && mesh@.triangles.len() > 1 ==> are_in_range(
                mesh@.triangles,
                mesh@.vertices.len(),
            ),
        ensures
            result@.sound(),
            result@.levels == chain(mesh@, ratios@, method),
            result@.thresholds == Seq::new(ratios@.len(), |i: int| default_threshold(i)),
    {
        let ghost source = mesh@;
        let source_triangles: usize = mesh.triangles.len();
        let mut levels: Vec<Mesh> = Vec::new();
        levels.push(mesh);
        let mut i: usize = 0;
        assert(ratios@.take(0) =~= Seq::empty());
        assert(mesh_models(levels@) =~= seq![source]);
        while i < ratios.len()
            invariant
                i <= ratios@.len(),
                source_triangles == source.triangles.len(),
                levels@.len() == i + 1,
                mesh_models(levels@) == chain(source, ratios@.take(i as int), method),
                ratios@.len() > 0 && levels@[i as int]@.triangles.len() > 1 ==> are_in_range(
                    levels@[i as int]@.triangles,
                    levels@[i as int]@.vertices.len(),
                ),
            decreases ratios@.len() - i,
        {
            let ratio: Float32 = sanitize_ratio(ratios[i]);
            let share: Float32 = Float32::from_integer(false, source_triangles as u64) * ratio;
            let wanted: usize = share.round_to(usize::MAX as u64) as usize;
            let ghost before = mesh_models(levels@);
            assert(before.last() == levels@[i as int]@);
            let target: usize = level_target(wanted, levels[i].triangles.len());
            let next: Mesh = simplify_by(&levels[i], target, method);
            assert(ratios@.take(i + 1).drop_last() =~= ratios@.take(i as int));
            levels.push(next);
            assert(mesh_models(levels@) =~= before.push(next@));
            i += 1;
        }
        assert(ratios@.take(ratios@.len() as int) =~= ratios@);
        let count: usize = levels.len() - 1;
        LodMesh { levels, thresholds: default_thresholds(count) }
    }

    /// The chain of these levels, or none where there is no level.
    pub fn from_levels(levels: Vec<Mesh>, thresholds: Vec<Float32>) -> (result: Option<LodMesh>)
        ensures
            match result {
                None => levels@.len() == 0,
                Some(lod) => levels@.len() > 0 && lod@.sound() && lod@ == (LodModel {
                    levels: mesh_models(levels@),
                    thresholds: sanitized(thresholds@, levels@.len() - 1),
                }),
            },
    {
        if levels.len() == 0 {
            return None;
        }
        let mut lod: LodMesh = LodMesh { levels, thresholds: Vec::new() };
        lod.set_thresholds(thresholds);
        Some(lod)
    }

    pub fn level_count(&self) -> (result: usize)
        ensures
            result == self@.levels.len(),
    {
        self.levels.len()
    }

    pub fn level(&self, index: usize) -> (result: Option<&Mesh>)
        ensures
            match result {
                Some(mesh) => index < self@.levels.len() && mesh@ == self@.levels[index as int],
                None => index >= self@.levels.len(),
            },
    {
        if index < self.levels.len() {
            assert(self@.levels[index as int] == self.levels@[index as int]@);
            Some(&self.levels[index])
        } else {
            None
        }
    }

    pub fn original(&self) -> (result: &Mesh)
        requires
            self@.sound(),
        ensures
            result@ == self@.levels[0],
    {
        &self.levels[0]
    }

    pub fn levels(&self) -> (result: &[Mesh])
        ensures
            mesh_models(result@) == self@.levels,
    {
        self.levels.as_slice()
    }

    pub fn thresholds(&self) -> (result: &[Float32])
        ensures
            result@ == self@.thresholds,
    {
        self.thresholds.as_slice()
    }

    /// Sets the thresholds, from the largest extent to the smallest. Values that cannot be used
    /// are left out, and there is one threshold for each level after the source mesh.
    pub fn set_thresholds(&mut self, thresholds: Vec<Float32>)
        requires
            old(self)@.levels.len() > 0,
        ensures
            final(self)@.sound(),
            final(self)@ == (LodModel {
                levels: old(self)@.levels,
                thresholds: sanitized(thresholds@, old(self)@.levels.len() - 1),
            }),
    {
        let count: usize = self.levels.len() - 1;
        let usable: Vec<Float32> = keep_usable(&thresholds, count);
        let ghost all = usable@;
        proof {
            lemma_usable_thresholds(thresholds@, 0, count as int);
        }
        let mut made: Vec<Float32> = Vec::new();
        let mut i: usize = 0;
        while i < count
            invariant
                i <= count,
                usable@ == all,
                forall|j: int| 0 <= j < all.len() ==> is_usable(#[trigger] all[j]),
                made@ =~= Seq::new(i as nat, |j: int| threshold_at(all, j)),
                forall|j: int| 0 <= j < i ==> is_usable(#[trigger] threshold_at(all, j)),
            decreases count - i,
        {
            let last: Float32 = if i == 0 {
                Float32 { bits: 0 }
            } else {
                made[i - 1]
            };
            assert(last == threshold_at(all, i - 1));
            assert(is_usable(last));
            let next: Float32 = if i < usable.len() {
                assert(is_usable(all[i as int]));
                if i > 0 && last.is_less(usable[i]) {
                    last
                } else {
                    usable[i]
                }
            } else {
                last.divide_by(2)
            };
            proof {
                lemma_thresholds_are_usable(all, i as int);
            }
            made.push(next);
            i += 1;
        }
        self.thresholds = made;
        assert(made@ =~= sanitized(thresholds@, count as int));
    }

    pub fn set_selection_thresholds(&mut self, thresholds: Vec<Float32>)
        requires
            old(self)@.levels.len() > 0,
        ensures
            final(self)@.sound(),
            final(self)@ == (LodModel {
                levels: old(self)@.levels,
                thresholds: sanitized(thresholds@, old(self)@.levels.len() - 1),
            }),
    {
        self.set_thresholds(thresholds);
    }

    /// The level for an extent on screen.
    pub fn select_level_for_extent(&self, screen_extent: Float32) -> (result: usize)
        requires
            self@.levels.len() > 0,
        ensures
            result == self@.level_for(screen_extent),
            result < self@.levels.len(),
    {
        let zero: Float32 = Float32 { bits: 0 };
        let extent: Float32 = if !screen_extent.is_finite() {
            Float32 { bits: INFINITY }
        } else if zero.is_less(screen_extent) {
            screen_extent
        } else {
            zero
        };
        let mut count: usize = 0;
        while count < self.thresholds.len() && extent.is_less(self.thresholds[count])
            invariant
                count <= self.thresholds@.len(),
                levels_below(self.thresholds@, extent, 0) == levels_below(
                    self.thresholds@,
                    extent,
                    count as int,
                ),
            decreases self.thresholds@.len() - count,
        {
            count += 1;
        }
        let last: usize = self.levels.len() - 1;
        if count < last {
            count
        } else {
            last
        }
    }

    /// The level for the size that the source mesh has on screen, with that size.
    pub fn select(
        &self,
        view: Mat4,
        projection: Mat4,
        model: Mat4,
        width: usize,
        height: usize,
    ) -> (result: LodSelection)
        requires
            self@.sound(),
        ensures
            ({
                let extent = screen_extent_of(
                    self@.levels[0].bounds,
                    view,
                    projection,
                    model,
                    width,
                    height,
                );
                &&& result.level == self@.level_for(extent)
                &&& result.screen_extent == extent
            }),
            result.level < self@.levels.len(),
    {
        let extent: Float32 = projected_screen_extent(
            self.original().bounds(),
            view,
            projection,
            model,
            width,
            height,
        );
        LodSelection { level: self.select_level_for_extent(extent), screen_extent: extent }
    }

    /// The level for the size that the source mesh has on screen.
    pub fn select_level(
        &self,
        view: Mat4,
        projection: Mat4,
        model: Mat4,
        width: usize,
        height: usize,
    ) -> (result: usize)
        requires
            self@.sound(),
        ensures
            result == self@.level_for(
                screen_extent_of(
                    self@.levels[0].bounds,
                    view,
                    projection,
                    model,
                    width,
                    height,
                ),
            ),
            result < self@.levels.len(),
    {
        self.select(view, projection, model, width, height).level()
    }

    pub fn mesh_for(&self, selection: LodSelection) -> (result: &Mesh)
        requires
            self@.levels.len() > 0,
        ensures
            result@ == self@.mesh_at(selection.level as int),
    {
        self.mesh_at_level(selection.level)
    }

    pub fn mesh_at_level(&self, level: usize) -> (result: &Mesh)
        requires
            self@.levels.len() > 0,
        ensures
            result@ == self@.mesh_at(level as int),
    {
        if level < self.levels.len() {
            assert(self@.levels[level as int] == self.levels@[level as int]@);
            &self.levels[level]
        } else {
            assert(self@.levels[0] == self.levels@[0]@);
            &self.levels[0]
        }
    }
}

/// The default thresholds of `count` levels.
pub fn default_thresholds(count: usize) -> (result: Vec<Float32>)
    ensures
        result@ == Seq::new(count as nat, |i: int| default_threshold(i)),
{
    let mut made: Vec<Float32> = Vec::new();
    let mut value: Float32 = Float32 { bits: DEFAULT_THRESHOLDS[0] };
    let mut i: usize = 0;
    while i < count
        invariant
            i <= count,
            value == default_threshold(i - 1),
            value.finite(),
            made@ =~= Seq::new(i as nat, |j: int| default_threshold(j)),
        decreases count - i,
    {
        proof {
            lemma_default_is_usable(i as int);
        }
        value = if i < 3 {
            Float32 { bits: DEFAULT_THRESHOLDS[i] }
        } else {
            value.divide_by(2)
        };
        made.push(value);
        i += 1;
    }
    made
}

proof fn lemma_thresholds_are_usable(usable: Seq<Float32>, index: int)
    requires
        forall|j: int| 0 <= j < usable.len() ==> is_usable(#[trigger] usable[j]),
    ensures
        is_usable(threshold_at(usable, index)),
        index > 0 ==> threshold_at(usable, index).rank() <= threshold_at(usable, index - 1).rank(),
    decreases index + 1,
{
    if index >= 0 {
        lemma_thresholds_are_usable(usable, index - 1);
        if index < usable.len() {
            assert(is_usable(usable[index]));
        } else {
            law_quotients_do_not_grow(threshold_at(usable, index - 1), 2);
        }
    }
}

proof fn lemma_default_is_usable(index: int)
    ensures
        is_usable(default_threshold(index)),
    decreases index,
{
    if index >= 3 {
        lemma_default_is_usable(index - 1);
        law_quotients_do_not_grow(default_threshold(index - 1), 2);
    }
}

proof fn lemma_descending(usable: Seq<Float32>, left: int, right: int)
    requires
        0 <= left <= right,
        forall|j: int| 0 <= j < usable.len() ==> is_usable(#[trigger] usable[j]),
    ensures
        threshold_at(usable, right).rank() <= threshold_at(usable, left).rank(),
    decreases right - left,
{
    if left < right {
        lemma_descending(usable, left, right - 1);
        lemma_thresholds_are_usable(usable, right);
    }
}

/// Whatever thresholds are set, the ones that take effect are finite, not negative, and never
/// grow from one level to the next.
pub proof fn law_thresholds_descend(values: Seq<Float32>, count: int)
    requires
        count >= 0,
    ensures
        sanitized(values, count).len() == count,
        forall|i: int| 0 <= i < count ==> is_usable(#[trigger] sanitized(values, count)[i]),
        forall|i: int, j: int|
            0 <= i <= j < count ==> (#[trigger] sanitized(values, count)[j]).rank() <= (
            #[trigger] sanitized(values, count)[i]).rank(),
{
    let usable = usable_thresholds(values, 0, count);
    lemma_usable_thresholds(values, 0, count);
    assert forall|i: int| 0 <= i < count implies is_usable(
        #[trigger] sanitized(values, count)[i],
    ) by {
        lemma_thresholds_are_usable(usable, i);
    }
    assert forall|i: int, j: int| 0 <= i <= j < count implies (
    #[trigger] sanitized(values, count)[j]).rank() <= (#[trigger] sanitized(
        values,
        count,
    )[i]).rank() by {
        lemma_descending(usable, i, j);
    }
}

proof fn lemma_levels_below(thresholds: Seq<Float32>, extent: Float32, index: int)
    requires
        0 <= index <= thresholds.len(),
    ensures
        index <= levels_below(thresholds, extent, index) <= thresholds.len(),
        forall|i: int|
            index <= i < levels_below(thresholds, extent, index) ==> extent.less(
                #[trigger] thresholds[i],
            ),
        levels_below(thresholds, extent, index) < thresholds.len() ==> !extent.less(
            thresholds[levels_below(thresholds, extent, index)],
        ),
    decreases thresholds.len() - index,
{
    if index < thresholds.len() && extent.less(thresholds[index]) {
        lemma_levels_below(thresholds, extent, index + 1);
    }
}

/// A larger extent on screen never selects a coarser level.
pub proof fn law_larger_extents_select_finer_levels(lod: LodModel, small: Float32, large: Float32)
    requires
        lod.sound(),
        usable_extent(small).rank() <= usable_extent(large).rank(),
    ensures
        0 <= lod.level_for(large) <= lod.level_for(small) < lod.levels.len(),
{
    let low = usable_extent(small);
    let high = usable_extent(large);
    lemma_levels_below(lod.thresholds, low, 0);
    lemma_levels_below(lod.thresholds, high, 0);
    let fine = levels_below(lod.thresholds, high, 0);
    let coarse = levels_below(lod.thresholds, low, 0);
    if coarse < fine {
        assert(high.less(lod.thresholds[coarse]));
    }
}

/// A closed mesh stays closed however far it is simplified.
pub proof fn law_closed_meshes_stay_closed(mesh: MeshModel, target: usize, method: Method)
    requires
        is_closed(mesh.triangles),
        mesh.triangles.len() * 3 <= usize::MAX,
    ensures
        is_closed(simplified_mesh(mesh, target, method).triangles),
{
    if mesh.triangles.len() > wanted_triangles(target) {
        let rule = method.rule(mesh);
        let limit = wanted_triangles(target);
        let left = simplified(rule, mesh.vertices, mesh.triangles, limit);
        law_closed_triangles_stay_closed(rule, mesh.vertices, mesh.triangles, limit);
        law_simplification_stops_for_a_reason(rule, mesh.vertices, mesh.triangles, limit);
        lemma_few_vertices_are_used(left.1);
        law_compaction_keeps_meshes_closed(left.0, left.1);
    }
}

/// No level has more triangles than a finer one.
pub proof fn law_coarser_levels_have_no_more_triangles(
    mesh: MeshModel,
    ratios: Seq<Float32>,
    method: Method,
    fine: int,
    coarse: int,
)
    requires
        0 <= fine <= coarse <= ratios.len(),
    ensures
        chain(mesh, ratios, method).len() == ratios.len() + 1,
        chain(mesh, ratios, method)[coarse].triangles.len() <= chain(
            mesh,
            ratios,
            method,
        )[fine].triangles.len(),
    decreases ratios.len(),
{
    if ratios.len() > 0 {
        let before = chain(mesh, ratios.drop_last(), method);
        let last = ratios.len() as int;
        law_coarser_levels_have_no_more_triangles(
            mesh,
            ratios.drop_last(),
            method,
            if fine < last {
                fine
            } else {
                last - 1
            },
            if coarse < last {
                coarse
            } else {
                last - 1
            },
        );
        let previous = before.last();
        let target = level_goal(
            share_of(mesh.triangles.len(), ratios.last()),
            previous.triangles.len(),
        ) as usize;
        let limit = wanted_triangles(target);
        if previous.triangles.len() > limit {
            law_simplification_stops_for_a_reason(
                method.rule(previous),
                previous.vertices,
                previous.triangles,
                limit,
            );
        }
        assert(simplified_mesh(previous, target, method).triangles.len()
            <= previous.triangles.len());
    }
}

} // verus!
