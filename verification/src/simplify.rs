//! Mesh simplification by collapsing one edge after another.
//!
//! A [`CollapseRule`] weighs each edge, with an error that tells how far the surface would move,
//! and judges whether it may be collapsed. Of the edges that may be, the one with the least error
//! is collapsed, and of those with the same error the one that occurs first.

use crate::collapse::lemma_ends_exist;
use crate::float::{Float32, HALF};
use crate::math::{Vec2, Vec3};
use crate::mesh::{copy_vertices, mesh_of, plain_vertex, Mesh, MeshModel, MeshVertex};
use crate::qem::{find_reach, reach};
use crate::round::RoundModel;
use crate::rules::{CollapseRule, RuleModel};
use crate::topology::{
    all_edges, are_in_range, collapse_edge, collapsed, distinct, edge_between, is_closed, unique_edges,
    law_collapsed_triangles_are_proper, law_collapsing_an_edge_removes_triangles,
    law_distinct_keeps_the_values, law_edges_are_in_range, Edge,
};
use vstd::prelude::*;

verus! {

/// The largest finite value.
pub const LARGEST: u32 = 0x7f7f_ffff;

/// The error that counts: a negative one counts as none, one that is not finite as the largest.
pub open spec fn usable_error(error: Float32) -> Float32 {
    if !error.finite() {
        Float32 { bits: LARGEST }
    } else if error.rank() > 0 {
        error
    } else {
        Float32 { bits: 0 }
    }
}

fn make_usable_error(error: Float32) -> (result: Float32)
    ensures
        result == usable_error(error),
{
    let zero: Float32 = Float32 { bits: 0 };
    if !error.is_finite() {
        Float32 { bits: LARGEST }
    } else if zero.is_less(error) {
        error
    } else {
        zero
    }
}

/// Whether an edge is examined before another: the one with the smaller error, and of two with
/// the same error the one with the smaller index.
pub open spec fn comes_before(errors: Seq<Float32>, left: int, right: int) -> bool {
    errors[left].rank() < errors[right].rank() || (errors[left].rank() == errors[right].rank()
        && left < right)
}

/// Whether an edge is still to be examined once `last` was.
pub open spec fn is_left(errors: Seq<Float32>, last: Option<int>, index: int) -> bool {
    0 <= index < errors.len() && (last matches Some(before) ==> comes_before(
        errors,
        before,
        index,
    ))
}

/// The edges of a list of triangles, each where it first occurs.
pub open spec fn edges_of(triangles: Seq<[usize; 3]>) -> Seq<Edge> {
    distinct(all_edges(triangles))
}

/// The error of each edge, as far as it counts.
pub open spec fn errors_of(
    rule: RuleModel,
    vertices: Seq<MeshVertex>,
    triangles: Seq<[usize; 3]>,
) -> Seq<Float32> {
    Seq::new(
        edges_of(triangles).len(),
        |i: int| usable_error(rule.candidate(vertices, triangles, edges_of(triangles)[i]).0),
    )
}

/// The position that the ends of an edge are merged at.
pub open spec fn merge_position(
    rule: RuleModel,
    vertices: Seq<MeshVertex>,
    triangles: Seq<[usize; 3]>,
    index: int,
) -> Vec3 {
    rule.candidate(vertices, triangles, edges_of(triangles)[index]).1
}

/// Whether an edge may be collapsed.
pub open spec fn may_collapse(
    rule: RuleModel,
    vertices: Seq<MeshVertex>,
    triangles: Seq<[usize; 3]>,
    index: int,
) -> bool {
    rule.permits(
        vertices,
        triangles,
        edges_of(triangles)[index],
        merge_position(rule, vertices, triangles, index),
    )
}

/// Whether an edge is the one to collapse: of those that may be, it comes first.
pub open spec fn is_choice(
    rule: RuleModel,
    vertices: Seq<MeshVertex>,
    triangles: Seq<[usize; 3]>,
    index: int,
) -> bool {
    &&& 0 <= index < edges_of(triangles).len()
    &&& may_collapse(rule, vertices, triangles, index)
    &&& forall|other: int|
        0 <= other < edges_of(triangles).len() && #[trigger] may_collapse(
            rule,
            vertices,
            triangles,
            other,
        ) && other != index ==> comes_before(
            errors_of(rule, vertices, triangles),
            index,
            other,
        )
}

/// The edge to collapse, where there is one.
pub open spec fn choice(
    rule: RuleModel,
    vertices: Seq<MeshVertex>,
    triangles: Seq<[usize; 3]>,
) -> Option<int> {
    if exists|index: int| is_choice(rule, vertices, triangles, index) {
        Some(choose|index: int| is_choice(rule, vertices, triangles, index))
    } else {
        None
    }
}

/// The middle between two texture coordinates, where there are two.
pub open spec fn middle_texcoord(left: Option<Vec2>, right: Option<Vec2>) -> Option<Vec2> {
    match (left, right) {
        (Some(a), Some(b)) => Some((a + b) * (Float32 { bits: HALF })),
        _ => None,
    }
}

/// The vertices after the ends of an edge are merged.
pub open spec fn merged_vertices(vertices: Seq<MeshVertex>, edge: Edge, position: Vec3) -> Seq<
    MeshVertex,
> {
    let texcoord = middle_texcoord(
        vertices[edge.0 as int].texcoord,
        vertices[edge.1 as int].texcoord,
    );
    let vertex = plain_vertex(position, texcoord, None, false);
    vertices.update(edge.0 as int, vertex).update(edge.1 as int, vertex)
}

/// The vertices and triangles once edges have been collapsed until at most `limit` triangles are
/// left or no edge may be collapsed.
pub open spec fn simplified(
    rule: RuleModel,
    vertices: Seq<MeshVertex>,
    triangles: Seq<[usize; 3]>,
    limit: nat,
) -> (Seq<MeshVertex>, Seq<[usize; 3]>)
    decreases triangles.len(),
{
    if triangles.len() <= limit {
        (vertices, triangles)
    } else {
        match choice(rule, vertices, triangles) {
            None => (vertices, triangles),
            Some(index) => {
                proof {
                    lemma_choice(rule, vertices, triangles);
                    lemma_collapse_shrinks(triangles, index);
                }
                let edge = edges_of(triangles)[index];
                simplified(
                    rule,
                    merged_vertices(
                        vertices,
                        edge,
                        merge_position(rule, vertices, triangles, index),
                    ),
                    collapsed(triangles, edge.0, edge.1),
                    limit,
                )
            },
        }
    }
}

/// The edge to collapse is the one to collapse.
pub proof fn lemma_choice(
    rule: RuleModel,
    vertices: Seq<MeshVertex>,
    triangles: Seq<[usize; 3]>,
)
    ensures
        choice(rule, vertices, triangles) matches Some(index) ==> is_choice(
            rule,
            vertices,
            triangles,
            index,
        ),
{
}

/// Collapsing an edge leaves fewer triangles.
pub proof fn lemma_collapse_shrinks(triangles: Seq<[usize; 3]>, index: int)
    requires
        0 <= index < edges_of(triangles).len(),
    ensures
        collapsed(
            triangles,
            edges_of(triangles)[index].0,
            edges_of(triangles)[index].1,
        ).len() < triangles.len(),
{
    let edge = edges_of(triangles)[index];
    law_distinct_keeps_the_values(all_edges(triangles));
    assert(edges_of(triangles).contains(edge));
    let at = choose|at: int| 0 <= at < all_edges(triangles).len() && all_edges(triangles)[at] == edge;
    law_collapsing_an_edge_removes_triangles(triangles, at);
}

/// No edge but one is the one to collapse.
proof fn lemma_choice_is_unique(
    rule: RuleModel,
    vertices: Seq<MeshVertex>,
    triangles: Seq<[usize; 3]>,
    first: int,
    second: int,
)
    requires
        is_choice(rule, vertices, triangles, first),
        is_choice(rule, vertices, triangles, second),
    ensures
        first == second,
{
    if first != second {
        let errors = errors_of(rule, vertices, triangles);
        assert(comes_before(errors, first, second));
        assert(comes_before(errors, second, first));
    }
}

/// At most how many triangles are wanted; one is always allowed.
pub open spec fn wanted_triangles(target: usize) -> nat {
    if target < 1 {
        1
    } else {
        target as nat
    }
}

fn copy_triangles(triangles: &Vec<[usize; 3]>) -> (result: Vec<[usize; 3]>)
    ensures
        result@ == triangles@,
{
    let mut copy: Vec<[usize; 3]> = Vec::new();
    let mut i: usize = 0;
    while i < triangles.len()
        invariant
            i <= triangles@.len(),
            copy@ =~= triangles@.take(i as int),
        decreases triangles@.len() - i,
    {
        copy.push(triangles[i]);
        i += 1;
    }
    assert(triangles@.take(triangles@.len() as int) =~= triangles@);
    copy
}

fn check_before(errors: &Vec<Float32>, left: usize, right: usize) -> (result: bool)
    requires
        left < errors@.len(),
        right < errors@.len(),
        forall|i: int| 0 <= i < errors@.len() ==> (#[trigger] errors@[i]).finite(),
    ensures
        result == comes_before(errors@, left as int, right as int),
{
    assert(errors@[left as int].finite() && errors@[right as int].finite());
    let first: Float32 = errors[left];
    let second: Float32 = errors[right];
    first.is_less(second) || (!second.is_less(first) && left < right)
}

fn check_left(errors: &Vec<Float32>, last: Option<usize>, index: usize) -> (result: bool)
    requires
        index < errors@.len(),
        last matches Some(before) ==> before < errors@.len(),
        forall|i: int| 0 <= i < errors@.len() ==> (#[trigger] errors@[i]).finite(),
    ensures
        result == is_left(errors@, position_of(last), index as int),
{
    match last {
        None => true,
        Some(before) => check_before(errors, before, index),
    }
}

/// The edge that is examined first of those that are left.
fn next_edge(errors: &Vec<Float32>, last: Option<usize>) -> (result: Option<usize>)
    requires
        last matches Some(before) ==> before < errors@.len(),
        forall|i: int| 0 <= i < errors@.len() ==> (#[trigger] errors@[i]).finite(),
    ensures
        match result {
            Some(index) => is_left(errors@, position_of(last), index as int) && forall|other: int|
                is_left(errors@, position_of(last), other) ==> other == index
                    || #[trigger] comes_before(errors@, index as int, other),
            None => forall|other: int| !#[trigger] is_left(errors@, position_of(last), other),
        },
{
    let ghost from = position_of(last);
    let mut best: Option<usize> = None;
    let mut i: usize = 0;
    while i < errors.len()
        invariant
            i <= errors@.len(),
            from == position_of(last),
            last matches Some(before) ==> before < errors@.len(),
            forall|j: int| 0 <= j < errors@.len() ==> (#[trigger] errors@[j]).finite(),
            match best {
                Some(index) => index < i && is_left(errors@, from, index as int) && forall|
                    other: int,
                |
                    other < i && is_left(errors@, from, other) ==> other == index
                        || #[trigger] comes_before(errors@, index as int, other),
                None => forall|other: int| other < i ==> !#[trigger] is_left(errors@, from, other),
            },
        decreases errors@.len() - i,
    {
        if check_left(errors, last, i) {
            match best {
                None => {
                    assert forall|other: int|
                        other < i + 1 && is_left(errors@, from, other) implies other == i
                        || #[trigger] comes_before(errors@, i as int, other) by {
                        if other < i {
                            assert(!is_left(errors@, from, other));
                        }
                    }
                    best = Some(i);
                },
                Some(index) => {
                    if check_before(errors, i, index) {
                        assert forall|other: int|
                            other < i + 1 && is_left(errors@, from, other) implies other == i
                            || #[trigger] comes_before(errors@, i as int, other) by {
                            if other < i && other != index {
                                assert(comes_before(errors@, index as int, other));
                            }
                        }
                        best = Some(i);
                    }
                },
            }
        }
        i += 1;
    }
    best
}

/// Finds the edge to collapse.
fn find_choice(
    rule: &CollapseRule,
    vertices: &Vec<MeshVertex>,
    triangles: &Vec<[usize; 3]>,
    edges: &Vec<Edge>,
    candidates: &Vec<(Float32, Vec3)>,
) -> (result: Option<usize>)
    requires
        are_in_range(triangles@, vertices@.len()),
        edges@ == edges_of(triangles@),
        candidates@ == Seq::new(
            edges@.len(),
            |i: int| rule@.candidate(vertices@, triangles@, edges@[i]),
        ),
    ensures
        match result {
            Some(index) => is_choice(rule@, vertices@, triangles@, index as int),
            None => forall|index: int|
                0 <= index < edges@.len() ==> !#[trigger] may_collapse(
                    rule@,
                    vertices@,
                    triangles@,
                    index,
                ),
        },
{
    let longest: Float32 = find_reach(vertices.as_slice());
    let mut errors: Vec<Float32> = Vec::new();
    let mut i: usize = 0;
    while i < candidates.len()
        invariant
            i <= candidates@.len(),
            candidates@.len() == edges@.len(),
            candidates@ == Seq::new(
                edges@.len(),
                |i: int| rule@.candidate(vertices@, triangles@, edges@[i]),
            ),
            edges@ == edges_of(triangles@),
            errors@ =~= errors_of(rule@, vertices@, triangles@).take(i as int),
        decreases candidates@.len() - i,
    {
        errors.push(make_usable_error(candidates[i].0));
        i += 1;
    }
    assert(errors@ =~= errors_of(rule@, vertices@, triangles@));
    let ghost all = errors@;
    let mut last: Option<usize> = None;
    let ghost mut seen: Set<int> = Set::empty();
    loop
        invariant
            are_in_range(triangles@, vertices@.len()),
            edges@ == edges_of(triangles@),
            candidates@ == Seq::new(
                edges@.len(),
                |i: int| rule@.candidate(vertices@, triangles@, edges@[i]),
            ),
            longest == reach(vertices@, vertices@.len() as int),
            errors@ == all,
            all == errors_of(rule@, vertices@, triangles@),
            last matches Some(before) ==> before < all.len(),
            forall|other: int|
                0 <= other < all.len() && !is_left(all, position_of(last), other)
                    ==> !#[trigger] may_collapse(rule@, vertices@, triangles@, other),
            seen.finite(),
            seen.len() <= all.len(),
            forall|i: int| #[trigger]
                seen.contains(i) ==> 0 <= i < all.len() && !is_left(all, position_of(last), i),
        decreases all.len() - seen.len(),
    {
        assert forall|i: int| 0 <= i < errors@.len() implies (#[trigger] errors@[i]).finite() by {
            assert(errors@[i] == usable_error(
                rule@.candidate(vertices@, triangles@, edges@[i]).0,
            ));
        }
        match next_edge(&errors, last) {
            None => {
                assert forall|index: int| 0 <= index < edges@.len() implies !#[trigger] may_collapse(
                    rule@,
                    vertices@,
                    triangles@,
                    index,
                ) by {
                    assert(!is_left(all, position_of(last), index));
                }
                return None;
            },
            Some(index) => {
                let ghost before = position_of(last);
                assert(is_left(all, before, index as int));
                let position: Vec3 = candidates[index].1;
                assert(position == merge_position(rule@, vertices@, triangles@, index as int));
                if rule.judge(vertices, triangles, edges[index], position, longest) {
                    assert(is_choice(rule@, vertices@, triangles@, index as int)) by {
                        assert forall|other: int|
                            0 <= other < edges_of(triangles@).len() && #[trigger] may_collapse(
                                rule@,
                                vertices@,
                                triangles@,
                                other,
                            ) && other != index implies comes_before(all, index as int, other) by {
                            assert(is_left(all, before, other));
                        }
                    }
                    return Some(index);
                }
                proof {
                    let grown = seen.insert(index as int);
                    assert(!seen.contains(index as int));
                    assert forall|i: int| #[trigger] grown.contains(i) implies 0 <= i < all.len()
                        && !is_left(all, Some(index as int), i) by {
                        if i != index {
                            assert(seen.contains(i));
                            assert(!is_left(all, before, i));
                        }
                    }
                    lemma_within(grown, all.len());
                    seen = grown;
                    assert forall|other: int|
                        0 <= other < all.len() && !is_left(all, Some(index as int), other) implies
                        !#[trigger] may_collapse(rule@, vertices@, triangles@, other) by {
                        if is_left(all, before, other) && other != index {
                            assert(comes_before(all, index as int, other));
                        }
                    }
                }
                last = Some(index);
            },
        }
    }
}

/// Collapses edges until at most `limit` triangles are left or no edge may be collapsed.
pub fn simplify(rule: &CollapseRule, mesh: &Mesh, limit: usize) -> (result: Mesh)
    requires
        are_in_range(mesh@.triangles, mesh@.vertices.len()),
    ensures
        result@ == ({
            let left = simplified(rule@, mesh@.vertices, mesh@.triangles, limit as nat);
            compacted(left.0, left.1)
        }),
        are_in_range(result@.triangles, result@.vertices.len()),
{
    let mut vertices: Vec<MeshVertex> = copy_vertices(&mesh.vertices);
    let mut triangles: Vec<[usize; 3]> = copy_triangles(&mesh.triangles);
    let ghost goal = simplified(rule@, mesh@.vertices, mesh@.triangles, limit as nat);
    while triangles.len() > limit
        invariant
            are_in_range(triangles@, vertices@.len()),
            goal == simplified(rule@, vertices@, triangles@, limit as nat),
        ensures
            are_in_range(triangles@, vertices@.len()),
            goal == (vertices@, triangles@),
        decreases triangles@.len(),
    {
        let (edges, _): (Vec<Edge>, Vec<usize>) = unique_edges(triangles.as_slice());
        let candidates: Vec<(Float32, Vec3)> = rule.weigh(&vertices, &triangles, &edges);
        let found: Option<usize> = find_choice(rule, &vertices, &triangles, &edges, &candidates);
        let ghost old_vertices = vertices@;
        let ghost old_triangles = triangles@;
        match found {
            None => {
                assert(choice(rule@, vertices@, triangles@) is None) by {
                    if exists|index: int| is_choice(rule@, vertices@, triangles@, index) {
                        let index = choose|index: int|
                            is_choice(rule@, vertices@, triangles@, index);
                        assert(may_collapse(rule@, vertices@, triangles@, index));
                    }
                }
                break;
            },
            Some(index) => {
                proof {
                    lemma_choice(rule@, vertices@, triangles@);
                    let chosen = choice(rule@, vertices@, triangles@)->0;
                    lemma_choice_is_unique(
                        rule@,
                        vertices@,
                        triangles@,
                        chosen,
                        index as int,
                    );
                    lemma_collapse_shrinks(triangles@, index as int);
                    law_distinct_keeps_the_values(all_edges(triangles@));
                    law_edges_are_in_range(triangles@, vertices@.len());
                    assert(edges@.contains(edges@[index as int]));
                }
                let (a, b): (usize, usize) = edges[index];
                let position: Vec3 = candidates[index].1;
                proof {
                    let at = choose|at: int|
                        0 <= at < all_edges(triangles@).len() && all_edges(triangles@)[at]
                            == edges@[index as int];
                    law_collapsed_triangles_are_proper(triangles@, a, b, vertices@.len());
                }
                let texcoord: Option<Vec2> = match (vertices[a].texcoord, vertices[b].texcoord) {
                    (Some(left), Some(right)) => Some((left + right) * Float32 { bits: HALF }),
                    _ => None,
                };
                let vertex: MeshVertex = MeshVertex::new(position, texcoord, None);
                vertices.set(a, vertex);
                triangles = collapse_edge(triangles.as_slice(), a, b);
                vertices.set(b, vertex);
                assert(vertices@ =~= merged_vertices(old_vertices, (a, b), position));
            },
        }
    }
    compact_simplified_mesh(&vertices, &triangles)
}

/// An index as an integer.
pub open spec fn position_of(index: Option<usize>) -> Option<int> {
    match index {
        Some(found) => Some(found as int),
        None => None,
    }
}

proof fn lemma_within(seen: Set<int>, count: nat)
    requires
        seen.finite(),
        forall|i: int| #[trigger] seen.contains(i) ==> 0 <= i < count,
    ensures
        seen.len() <= count,
{
    let all = vstd::set_lib::set_int_range(0, count as int);
    vstd::set_lib::lemma_int_range(0, count as int);
    assert(seen.subset_of(all));
    vstd::set_lib::lemma_len_subset(seen, all);
}

/// Simplification adds no triangle, and it stops only when few enough are left or no edge may be
/// collapsed.
pub proof fn law_simplification_stops_for_a_reason(
    rule: RuleModel,
    vertices: Seq<MeshVertex>,
    triangles: Seq<[usize; 3]>,
    limit: nat,
)
    ensures
        ({
            let left = simplified(rule, vertices, triangles, limit);
            &&& left.1.len() <= triangles.len()
            &&& left.1.len() <= limit || choice(rule, left.0, left.1) is None
        }),
    decreases triangles.len(),
{
    if triangles.len() > limit {
        if let Some(index) = choice(rule, vertices, triangles) {
            lemma_choice(rule, vertices, triangles);
            lemma_collapse_shrinks(triangles, index);
            let edge = edges_of(triangles)[index];
            law_simplification_stops_for_a_reason(
                rule,
                merged_vertices(
                    vertices,
                    edge,
                    merge_position(rule, vertices, triangles, index),
                ),
                collapsed(triangles, edge.0, edge.1),
                limit,
            );
        }
    }
}

/// The corners of all triangles.
pub open spec fn corners(triangles: Seq<[usize; 3]>) -> Seq<usize>
    decreases triangles.len(),
{
    if triangles.len() == 0 {
        Seq::empty()
    } else {
        corners(triangles.drop_last()) + seq![
            triangles.last()[0],
            triangles.last()[1],
            triangles.last()[2],
        ]
    }
}

/// The first place from `index` on where a list has a value.
pub open spec fn place_from(list: Seq<usize>, value: usize, index: int) -> int
    decreases list.len() - index,
{
    if 0 <= index < list.len() && list[index] != value {
        place_from(list, value, index + 1)
    } else {
        index
    }
}

/// The vertices that the triangles use, each where it first occurs.
pub open spec fn used_vertices(triangles: Seq<[usize; 3]>) -> Seq<usize> {
    distinct(corners(triangles))
}

/// A triangle over the vertices of a list.
pub open spec fn renamed(triangle: [usize; 3], used: Seq<usize>) -> [usize; 3] {
    [
        place_from(used, triangle[0], 0) as usize,
        place_from(used, triangle[1], 0) as usize,
        place_from(used, triangle[2], 0) as usize,
    ]
}

/// The mesh of these triangles that has no vertex that none of them uses.
pub open spec fn compacted(vertices: Seq<MeshVertex>, triangles: Seq<[usize; 3]>) -> MeshModel {
    let used = used_vertices(triangles);
    mesh_of(
        Seq::new(used.len(), |i: int| vertices[used[i] as int]),
        Seq::new(triangles.len(), |t: int| renamed(triangles[t], used)),
    )
}

proof fn lemma_place(list: Seq<usize>, value: usize, index: int)
    requires
        0 <= index <= list.len(),
    ensures
        index <= place_from(list, value, index) <= list.len(),
        place_from(list, value, index) < list.len() ==> list[place_from(list, value, index)]
            == value,
        forall|j: int| index <= j < place_from(list, value, index) ==> #[trigger] list[j] != value,
    decreases list.len() - index,
{
    if index < list.len() && list[index] != value {
        lemma_place(list, value, index + 1);
    }
}

proof fn lemma_place_in_prefix(list: Seq<usize>, value: usize, at: int, index: int)
    requires
        0 <= index <= at < list.len(),
        list[at] == value,
        list.no_duplicates(),
    ensures
        place_from(list, value, index) == at,
    decreases at - index,
{
    if index < at {
        assert(list[index] != list[at]);
        lemma_place_in_prefix(list, value, at, index + 1);
    }
}

/// Whether a table tells the place of each vertex of a list, and of no other.
spec fn places_fit(table: Seq<Option<usize>>, used: Seq<usize>) -> bool {
    &&& forall|v: int| #![trigger table[v]]
        0 <= v < table.len() ==> match table[v] {
            Some(place) => place < used.len() && used[place as int] == v,
            None => !used.contains(v as usize),
        }
    &&& used.no_duplicates()
}

/// The place of a vertex, which gets one if it has none.
fn place_vertex(table: &mut Vec<Option<usize>>, used: &mut Vec<usize>, vertex: usize) -> (result:
    usize)
    requires
        vertex < old(table)@.len(),
        places_fit(old(table)@, old(used)@),
    ensures
        final(table)@.len() == old(table)@.len(),
        places_fit(final(table)@, final(used)@),
        final(used)@ == (if old(used)@.contains(vertex) {
            old(used)@
        } else {
            old(used)@.push(vertex)
        }),
        result < final(used)@.len(),
        final(used)@[result as int] == vertex,
{
    match table[vertex] {
        Some(place) => {
            assert(used@[place as int] == vertex);
            place
        },
        None => {
            let place: usize = used.len();
            let ghost before = used@;
            let ghost known = table@;
            assert(!used@.contains(vertex));
            used.push(vertex);
            table.set(vertex, Some(place));
            assert(table.len() == table@.len());
            proof {
                assert forall|v: int| #![trigger table@[v]] 0 <= v < table@.len() implies match table@[v] {
                    Some(at) => at < used@.len() && used@[at as int] == v,
                    None => !used@.contains(v as usize),
                } by {
                    if v != vertex {
                        assert(table@[v] == known[v]);
                        if known[v] is None && used@.contains(v as usize) {
                            let at = choose|at: int|
                                0 <= at < used@.len() && used@[at] == v as usize;
                            assert(before[at] == v as usize);
                        }
                    }
                }
                assert forall|i: int, j: int|
                    0 <= i < used@.len() && 0 <= j < used@.len() && i != j implies used@[i]
                    != used@[j] by {
                    if i < before.len() {
                        assert(before.contains(before[i]));
                    }
                    if j < before.len() {
                        assert(before.contains(before[j]));
                    }
                }
            }
            place
        },
    }
}

proof fn lemma_used_grows(list: Seq<usize>, value: usize)
    ensures
        distinct(list.push(value)) == (if distinct(list).contains(value) {
            distinct(list)
        } else {
            distinct(list).push(value)
        }),
{
    assert(list.push(value).drop_last() =~= list);
}

/// Drops the vertices that no triangle uses.
fn compact_simplified_mesh(vertices: &Vec<MeshVertex>, triangles: &Vec<[usize; 3]>) -> (result: Mesh)
    requires
        are_in_range(triangles@, vertices@.len()),
    ensures
        result@ == compacted(vertices@, triangles@),
        are_in_range(result@.triangles, result@.vertices.len()),
{
    let mut table: Vec<Option<usize>> = Vec::new();
    let mut i: usize = 0;
    while i < vertices.len()
        invariant
            i <= vertices@.len(),
            table@.len() == i,
            forall|v: int| 0 <= v < i ==> table@[v] is None,
        decreases vertices@.len() - i,
    {
        table.push(None);
        i += 1;
    }
    let mut used: Vec<usize> = Vec::new();
    let mut compact: Vec<[usize; 3]> = Vec::new();
    let mut t: usize = 0;
    assert(triangles@.take(0) =~= Seq::empty());
    while t < triangles.len()
        invariant
            t <= triangles@.len(),
            are_in_range(triangles@, vertices@.len()),
            table@.len() == vertices@.len(),
            places_fit(table@, used@),
            used@ == used_vertices(triangles@.take(t as int)),
            compact@.len() == t,
            forall|u: int, k: int|
                0 <= u < t && 0 <= k < 3 ==> (#[trigger] compact@[u][k]) < used@.len()
                    && used@[compact@[u][k] as int] == triangles@[u][k],
            forall|v: int| 0 <= v < used@.len() ==> (#[trigger] used@[v]) < vertices@.len(),
        decreases triangles@.len() - t,
    {
        let triangle: [usize; 3] = triangles[t];
        let ghost list = corners(triangles@.take(t as int));
        let ghost earlier = used@;
        let ghost done = compact@;
        proof {
            assert(triangles@[t as int][0] < vertices@.len());
            assert(triangles@[t as int][1] < vertices@.len());
            assert(triangles@[t as int][2] < vertices@.len());
            assert(triangles@.take(t + 1).drop_last() =~= triangles@.take(t as int));
            assert(corners(triangles@.take(t + 1)) =~= list.push(triangle[0]).push(
                triangle[1],
            ).push(triangle[2]));
            lemma_used_grows(list, triangle[0]);
            lemma_used_grows(list.push(triangle[0]), triangle[1]);
            lemma_used_grows(list.push(triangle[0]).push(triangle[1]), triangle[2]);
        }
        let x: usize = place_vertex(&mut table, &mut used, triangle[0]);
        let ghost first = used@;
        let y: usize = place_vertex(&mut table, &mut used, triangle[1]);
        let ghost second = used@;
        let z: usize = place_vertex(&mut table, &mut used, triangle[2]);
        let ghost third = used@;
        compact.push([x, y, z]);
        proof {
            assert(first.len() >= earlier.len() && forall|v: int|
                0 <= v < earlier.len() ==> first[v] == earlier[v]);
            assert(second.len() >= first.len() && forall|v: int|
                0 <= v < first.len() ==> second[v] == first[v]);
            assert(third.len() >= second.len() && forall|v: int|
                0 <= v < second.len() ==> third[v] == second[v]);
            assert forall|u: int, k: int| 0 <= u < t + 1 && 0 <= k < 3 implies (
            #[trigger] compact@[u][k]) < used@.len() && used@[compact@[u][k] as int]
                == triangles@[u][k] by {
                if u < t {
                    assert(compact@[u] == done[u]);
                    assert(done[u][k] < earlier.len());
                } else {
                    assert(compact@[u]@ =~= seq![x, y, z]);
                    assert(k == 0 || k == 1 || k == 2);
                }
            }
        }
        t += 1;
    }
    assert(triangles@.take(triangles@.len() as int) =~= triangles@);
    proof {
        assert forall|u: int| 0 <= u < triangles@.len() implies compact@[u] == #[trigger] renamed(
            triangles@[u],
            used@,
        ) by {
            assert(compact@[u][0] < used@.len() && compact@[u][1] < used@.len() && compact@[u][2]
                < used@.len());
            lemma_place_in_prefix(used@, triangles@[u][0], compact@[u][0] as int, 0);
            lemma_place_in_prefix(used@, triangles@[u][1], compact@[u][1] as int, 0);
            lemma_place_in_prefix(used@, triangles@[u][2], compact@[u][2] as int, 0);
            assert(compact@[u]@ =~= renamed(triangles@[u], used@)@);
            assert(compact@[u] =~= renamed(triangles@[u], used@));
        }
        assert(compact@ =~= Seq::new(
            triangles@.len(),
            |u: int| renamed(triangles@[u], used@),
        ));
    }
    let mut kept: Vec<MeshVertex> = Vec::new();
    let mut v: usize = 0;
    while v < used.len()
        invariant
            v <= used@.len(),
            forall|w: int| 0 <= w < used@.len() ==> (#[trigger] used@[w]) < vertices@.len(),
            kept@ =~= Seq::new(v as nat, |w: int| vertices@[used@[w] as int]),
        decreases used@.len() - v,
    {
        kept.push(vertices[used[v]]);
        v += 1;
    }
    Mesh::new(kept, compact)
}

/// A compacted mesh has the same triangles: each corner has the position and the texture coordinate
/// that it had. Every vertex is the corner of a triangle.
pub proof fn law_compaction_keeps_the_triangles(
    vertices: Seq<MeshVertex>,
    triangles: Seq<[usize; 3]>,
)
    requires
        are_in_range(triangles, vertices.len()),
        used_vertices(triangles).len() <= usize::MAX,
    ensures
        compacted(vertices, triangles).triangles.len() == triangles.len(),
        forall|t: int, k: int|
            0 <= t < triangles.len() && 0 <= k < 3 ==> (#[trigger] compacted(
                vertices,
                triangles,
            ).triangles[t][k]) < compacted(vertices, triangles).vertices.len() && compacted(
                vertices,
                triangles,
            ).vertices[compacted(vertices, triangles).triangles[t][k] as int].position
                == vertices[triangles[t][k] as int].position && compacted(
                vertices,
                triangles,
            ).vertices[compacted(vertices, triangles).triangles[t][k] as int].texcoord
                == vertices[triangles[t][k] as int].texcoord,
        forall|v: int|
            0 <= v < compacted(vertices, triangles).vertices.len() ==> corners(triangles).contains(
                #[trigger] used_vertices(triangles)[v],
            ),
{
    let used = used_vertices(triangles);
    let mesh = compacted(vertices, triangles);
    law_distinct_keeps_the_values(corners(triangles));
    assert forall|t: int, k: int| 0 <= t < triangles.len() && 0 <= k < 3 implies (
    #[trigger] mesh.triangles[t][k]) < mesh.vertices.len()
        && mesh.vertices[mesh.triangles[t][k] as int].position == vertices[triangles[t][k] as int].position
        && mesh.vertices[mesh.triangles[t][k] as int].texcoord == vertices[triangles[t][k] as int].texcoord by {
        lemma_corner_listed(triangles, t, k);
        let corner = triangles[t][k];
        assert(used.contains(corner));
        let at = choose|at: int| 0 <= at < used.len() && used[at] == corner;
        lemma_place_in_prefix(used, corner, at, 0);
        assert(k == 0 || k == 1 || k == 2);
        assert(mesh.triangles[t][k] == place_from(used, corner, 0) as usize);
    }
    assert forall|v: int| 0 <= v < mesh.vertices.len() implies corners(triangles).contains(
        #[trigger] used[v],
    ) by {
        assert(used.contains(used[v]));
    }
}

proof fn lemma_corner_listed(triangles: Seq<[usize; 3]>, t: int, k: int)
    requires
        0 <= t < triangles.len(),
        0 <= k < 3,
    ensures
        corners(triangles).contains(triangles[t][k]),
    decreases triangles.len(),
{
    let before = corners(triangles.drop_last());
    if t < triangles.len() - 1 {
        lemma_corner_listed(triangles.drop_last(), t, k);
        let at = choose|at: int| 0 <= at < before.len() && before[at] == triangles[t][k];
        assert(corners(triangles)[at] == triangles[t][k]);
    } else {
        assert(corners(triangles)[before.len() + k] == triangles[t][k]);
    }
}

/// Whether a rule keeps a mesh closed.
pub open spec fn keeps_closed(rule: RuleModel) -> bool {
    match rule {
        RuleModel::Quadric(quadric) => quadric.keep_closed,
        RuleModel::Round(round) => round.keep_closed,
    }
}

/// Closed triangles stay closed, whatever is collapsed.
pub proof fn law_closed_triangles_stay_closed(
    rule: RuleModel,
    vertices: Seq<MeshVertex>,
    triangles: Seq<[usize; 3]>,
    limit: nat,
)
    requires
        keeps_closed(rule),
        is_closed(triangles),
    ensures
        is_closed(simplified(rule, vertices, triangles, limit).1),
    decreases triangles.len(),
{
    if triangles.len() > limit {
        if let Some(index) = choice(rule, vertices, triangles) {
            lemma_choice(rule, vertices, triangles);
            lemma_collapse_shrinks(triangles, index);
            let edge = edges_of(triangles)[index];
            let position = merge_position(rule, vertices, triangles, index);
            assert(may_collapse(rule, vertices, triangles, index));
            assert(is_closed(collapsed(triangles, edge.0, edge.1)));
            law_closed_triangles_stay_closed(
                rule,
                merged_vertices(vertices, edge, position),
                collapsed(triangles, edge.0, edge.1),
                limit,
            );
        }
    }
}

/// A vertex that the round rule keeps is never moved.
pub proof fn law_kept_vertices_stay(
    rule: RoundModel,
    vertices: Seq<MeshVertex>,
    triangles: Seq<[usize; 3]>,
    limit: nat,
    vertex: usize,
)
    requires
        are_in_range(triangles, vertices.len()),
        vertex < vertices.len(),
        rule.keeps(vertex),
    ensures
        ({
            let left = simplified(RuleModel::Round(rule), vertices, triangles, limit).0;
            left.len() == vertices.len() && left[vertex as int] == vertices[vertex as int]
        }),
    decreases triangles.len(),
{
    let round = RuleModel::Round(rule);
    if triangles.len() > limit {
        if let Some(index) = choice(round, vertices, triangles) {
            lemma_choice(round, vertices, triangles);
            lemma_collapse_shrinks(triangles, index);
            let edge = edges_of(triangles)[index];
            lemma_ends_exist(triangles, vertices.len(), index);
            let position = merge_position(round, vertices, triangles, index);
            assert(may_collapse(round, vertices, triangles, index));
            law_collapsed_triangles_are_proper(triangles, edge.0, edge.1, vertices.len());
            law_kept_vertices_stay(
                rule,
                merged_vertices(vertices, edge, position),
                collapsed(triangles, edge.0, edge.1),
                limit,
                vertex,
            );
        }
    }
}

spec fn renamed_edge(edge: Edge, used: Seq<usize>) -> Edge {
    edge_between(place_from(used, edge.0, 0) as usize, place_from(used, edge.1, 0) as usize)
}

proof fn lemma_renamed_edges(
    triangles: Seq<[usize; 3]>,
    renamed_triangles: Seq<[usize; 3]>,
    used: Seq<usize>,
)
    requires
        renamed_triangles.len() == triangles.len(),
        forall|t: int|
            0 <= t < triangles.len() ==> #[trigger] renamed_triangles[t] == renamed(
                triangles[t],
                used,
            ),
    ensures
        all_edges(renamed_triangles).len() == all_edges(triangles).len(),
        forall|i: int|
            0 <= i < all_edges(triangles).len() ==> #[trigger] all_edges(renamed_triangles)[i]
                == renamed_edge(all_edges(triangles)[i], used),
        forall|i: int|
            0 <= i < all_edges(triangles).len() ==> (#[trigger] all_edges(triangles)[i]).0
                <= all_edges(triangles)[i].1 && corners(triangles).contains(
                all_edges(triangles)[i].0,
            ) && corners(triangles).contains(all_edges(triangles)[i].1),
    decreases triangles.len(),
{
    if triangles.len() > 0 {
        let before = triangles.drop_last();
        lemma_renamed_edges(before, renamed_triangles.drop_last(), used);
        let last = triangles.last();
        assert(renamed_triangles.last() == renamed(last, used));
        let edges = all_edges(triangles);
        let count = all_edges(before).len();
        let list = corners(triangles);
        let earlier = corners(before).len() as int;
        assert(list[earlier] == last[0] && list[earlier + 1] == last[1] && list[earlier + 2]
            == last[2]);
        assert forall|i: int| 0 <= i < edges.len() implies #[trigger] all_edges(
            renamed_triangles,
        )[i] == renamed_edge(edges[i], used) by {
            if i < count {
                assert(edges[i] == all_edges(before)[i]);
                assert(all_edges(renamed_triangles)[i] == all_edges(
                    renamed_triangles.drop_last(),
                )[i]);
            }
        }
        assert forall|i: int| 0 <= i < edges.len() implies (#[trigger] edges[i]).0 <= edges[i].1
            && list.contains(edges[i].0) && list.contains(edges[i].1) by {
            if i < count {
                let edge = all_edges(before)[i];
                assert(edges[i] == edge);
                let first = choose|at: int| 0 <= at < earlier && corners(before)[at] == edge.0;
                let second = choose|at: int| 0 <= at < earlier && corners(before)[at] == edge.1;
                assert(list[first] == edge.0 && list[second] == edge.1);
            }
        }
    }
}

proof fn lemma_same_count(left: Seq<Edge>, right: Seq<Edge>, x: Edge, y: Edge)
    requires
        left.len() == right.len(),
        forall|i: int| 0 <= i < left.len() ==> (#[trigger] left[i] == x) == (right[i] == y),
    ensures
        left.to_multiset().count(x) == right.to_multiset().count(y),
    decreases left.len(),
{
    broadcast use vstd::seq_lib::group_to_multiset_ensures;

    if left.len() > 0 {
        let first = left.drop_last();
        let second = right.drop_last();
        assert forall|i: int| 0 <= i < first.len() implies (#[trigger] first[i] == x) == (second[i]
            == y) by {
            assert(left[i] == first[i]);
        }
        lemma_same_count(first, second, x, y);
        assert(first.push(left.last()) =~= left);
        assert(second.push(right.last()) =~= right);
        assert((left[left.len() - 1] == x) == (right[left.len() - 1] == y));
    }
}

/// There are no more used vertices than corners.
pub proof fn lemma_few_vertices_are_used(triangles: Seq<[usize; 3]>)
    ensures
        used_vertices(triangles).len() <= corners(triangles).len(),
        corners(triangles).len() == triangles.len() * 3,
    decreases triangles.len(),
{
    lemma_distinct_is_shorter(corners(triangles));
    if triangles.len() > 0 {
        lemma_few_vertices_are_used(triangles.drop_last());
    }
}

proof fn lemma_distinct_is_shorter(list: Seq<usize>)
    ensures
        distinct(list).len() <= list.len(),
    decreases list.len(),
{
    if list.len() > 0 {
        lemma_distinct_is_shorter(list.drop_last());
    }
}

/// Dropping the vertices that are not used leaves closed triangles closed.
pub proof fn law_compaction_keeps_meshes_closed(
    vertices: Seq<MeshVertex>,
    triangles: Seq<[usize; 3]>,
)
    requires
        is_closed(triangles),
        used_vertices(triangles).len() <= usize::MAX,
    ensures
        is_closed(compacted(vertices, triangles).triangles),
{
    let used = used_vertices(triangles);
    let after = compacted(vertices, triangles).triangles;
    let edges = all_edges(triangles);
    let others = all_edges(after);
    lemma_renamed_edges(triangles, after, used);
    law_distinct_keeps_the_values(corners(triangles));
    assert forall|i: int| 0 <= i < others.len() implies others.to_multiset().count(
        #[trigger] others[i],
    ) == 2 by {
        assert forall|j: int| 0 <= j < edges.len() implies (#[trigger] edges[j] == edges[i]) == (
        others[j] == others[i]) by {
            let (a, b) = edges[i];
            let (c, d) = edges[j];
            assert(others[i] == renamed_edge(edges[i], used));
            assert(others[j] == renamed_edge(edges[j], used));
            assert(used.contains(a) && used.contains(b) && used.contains(c) && used.contains(d));
            let at_a = choose|at: int| 0 <= at < used.len() && used[at] == a;
            let at_b = choose|at: int| 0 <= at < used.len() && used[at] == b;
            let at_c = choose|at: int| 0 <= at < used.len() && used[at] == c;
            let at_d = choose|at: int| 0 <= at < used.len() && used[at] == d;
            lemma_place_in_prefix(used, a, at_a, 0);
            lemma_place_in_prefix(used, b, at_b, 0);
            lemma_place_in_prefix(used, c, at_c, 0);
            lemma_place_in_prefix(used, d, at_d, 0);
        }
        lemma_same_count(edges, others, edges[i], others[i]);
        assert(edges.to_multiset().count(edges[i]) == 2);
    }
}

} // verus!
