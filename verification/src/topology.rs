//! The edges of triangle lists, and what collapsing an edge does to them.

use std::collections::HashMap;
use vstd::prelude::*;
use vstd::std_specs::hash::*;

verus! {

broadcast use vstd::std_specs::hash::group_hash_axioms;

/// An edge as its two vertices, the lower first.
pub type Edge = (usize, usize);

/// The edge between two vertices.
pub open spec fn edge_between(left: usize, right: usize) -> Edge {
    if left < right {
        (left, right)
    } else {
        (right, left)
    }
}

/// The three edges of a triangle.
pub open spec fn triangle_edges(triangle: [usize; 3]) -> Seq<Edge> {
    seq![
        edge_between(triangle[0], triangle[1]),
        edge_between(triangle[1], triangle[2]),
        edge_between(triangle[2], triangle[0]),
    ]
}

/// The edges of all triangles, each as often as a triangle has it.
pub open spec fn all_edges(triangles: Seq<[usize; 3]>) -> Seq<Edge>
    decreases triangles.len(),
{
    if triangles.len() == 0 {
        Seq::empty()
    } else {
        all_edges(triangles.drop_last()) + triangle_edges(triangles.last())
    }
}

/// The values of a list, each where it first occurs.
pub open spec fn distinct<A>(list: Seq<A>) -> Seq<A>
    decreases list.len(),
{
    if list.len() == 0 {
        Seq::empty()
    } else {
        let before = distinct(list.drop_last());
        if before.contains(list.last()) {
            before
        } else {
            before.push(list.last())
        }
    }
}

/// Whether there is an edge, and every edge has exactly two triangles.
pub open spec fn is_closed(triangles: Seq<[usize; 3]>) -> bool {
    let edges = all_edges(triangles);
    &&& edges.len() > 0
    &&& forall|i: int|
        0 <= i < edges.len() ==> edges.to_multiset().count(#[trigger] edges[i]) == 2
}

/// The vertex that takes the place of a vertex once `b` is merged into `a`.
pub open spec fn redirected(vertex: usize, a: usize, b: usize) -> usize {
    if vertex == b {
        a
    } else {
        vertex
    }
}

/// The triangle once `b` is merged into `a`.
pub open spec fn redirected_triangle(triangle: [usize; 3], a: usize, b: usize) -> [usize; 3] {
    [redirected(triangle[0], a, b), redirected(triangle[1], a, b), redirected(triangle[2], a, b)]
}

/// Whether a triangle has three vertices.
pub open spec fn is_proper(triangle: [usize; 3]) -> bool {
    triangle[0] != triangle[1] && triangle[1] != triangle[2] && triangle[2] != triangle[0]
}

/// The triangles once `b` is merged into `a`, without those that have lost a side.
pub open spec fn collapsed(triangles: Seq<[usize; 3]>, a: usize, b: usize) -> Seq<[usize; 3]>
    decreases triangles.len(),
{
    if triangles.len() == 0 {
        Seq::empty()
    } else {
        let before = collapsed(triangles.drop_last(), a, b);
        let last = redirected_triangle(triangles.last(), a, b);
        if is_proper(last) {
            before.push(last)
        } else {
            before
        }
    }
}

/// Whether a triangle has a vertex.
pub open spec fn has_vertex(triangle: [usize; 3], vertex: usize) -> bool {
    triangle[0] == vertex || triangle[1] == vertex || triangle[2] == vertex
}

/// Whether two vertices are different and some triangle has both.
pub open spec fn are_neighbors(triangles: Seq<[usize; 3]>, vertex: usize, other: usize) -> bool {
    vertex != other && exists|t: int|
        0 <= t < triangles.len() && has_vertex(#[trigger] triangles[t], vertex) && has_vertex(
            triangles[t],
            other,
        )
}

/// Whether some triangle of the edge between `a` and `b` has a vertex off that edge.
pub open spec fn is_opposite(
    triangles: Seq<[usize; 3]>,
    a: usize,
    b: usize,
    vertex: usize,
) -> bool {
    vertex != a && vertex != b && exists|t: int|
        0 <= t < triangles.len() && has_vertex(#[trigger] triangles[t], a) && has_vertex(
            triangles[t],
            b,
        ) && has_vertex(triangles[t], vertex)
}

/// How many triangles have both vertices.
pub open spec fn incident_count(triangles: Seq<[usize; 3]>, a: usize, b: usize) -> nat
    decreases triangles.len(),
{
    if triangles.len() == 0 {
        0
    } else {
        incident_count(triangles.drop_last(), a, b) + if has_vertex(triangles.last(), a)
            && has_vertex(triangles.last(), b) {
            1nat
        } else {
            0nat
        }
    }
}

/// Whether two different vertices, and no others, are opposite to an edge.
pub open spec fn are_the_opposite(
    triangles: Seq<[usize; 3]>,
    a: usize,
    b: usize,
    left: usize,
    right: usize,
) -> bool {
    &&& left != right
    &&& is_opposite(triangles, a, b, left)
    &&& is_opposite(triangles, a, b, right)
    &&& forall|vertex: usize| #[trigger]
        is_opposite(triangles, a, b, vertex) ==> vertex == left || vertex == right
}

/// Whether the edge has two triangles, with two different vertices off the edge, and its ends
/// have no other neighbor in common.
pub open spec fn has_valid_link(triangles: Seq<[usize; 3]>, a: usize, b: usize) -> bool {
    &&& incident_count(triangles, a, b) == 2
    &&& exists|left: usize, right: usize| #[trigger]
        are_the_opposite(triangles, a, b, left, right)
    &&& forall|vertex: usize|
        are_neighbors(triangles, a, vertex) && are_neighbors(triangles, b, vertex)
            <==> #[trigger] is_opposite(triangles, a, b, vertex)
}

/// The number that stands for an edge in a table.
pub open spec fn edge_number(edge: Edge) -> int {
    edge.0 * 0x1_0000_0000_0000_0000 + edge.1
}

pub proof fn lemma_edge_numbers_differ(first: Edge, second: Edge)
    ensures
        edge_number(first) == edge_number(second) ==> first == second,
        0 <= edge_number(first) <= u128::MAX,
{
}

pub fn make_edge(left: usize, right: usize) -> (result: Edge)
    ensures
        result == edge_between(left, right),
{
    if left < right {
        (left, right)
    } else {
        (right, left)
    }
}

pub(crate) fn number_of(edge: Edge) -> (result: u128)
    ensures
        result == edge_number(edge),
{
    edge.0 as u128 * 0x1_0000_0000_0000_0000 + edge.1 as u128
}

/// A count up to three, which is as far as a table tells counts apart.
spec fn up_to_three(count: nat) -> usize {
    if count < 3 {
        count as usize
    } else {
        3
    }
}

/// Whether a table says how often each edge of a list occurs.
spec fn counts(table: Map<u128, usize>, edges: Seq<Edge>) -> bool {
    &&& forall|edge: Edge|
        #![trigger edges.to_multiset().count(edge)]
        edges.to_multiset().count(edge) > 0 ==> table.contains_key(edge_number(edge) as u128)
            && table[edge_number(edge) as u128] == up_to_three(edges.to_multiset().count(edge))
    &&& forall|edge: Edge|
        #![trigger edge_number(edge)]
        table.contains_key(edge_number(edge) as u128) ==> edges.to_multiset().count(edge) > 0
}

fn count_edge(table: &mut HashMap<u128, usize>, Ghost(edges): Ghost<Seq<Edge>>, edge: Edge)
    requires
        counts(old(table)@, edges),
    ensures
        counts(final(table)@, edges.push(edge)),
{
    broadcast use vstd::seq_lib::group_to_multiset_ensures;

    let key: u128 = number_of(edge);
    let ghost before = table@;
    let count: usize = match table.get(&key) {
        Some(count) => *count,
        None => 0,
    };
    proof {
        lemma_edge_numbers_differ(edge, edge);
        assert(count == up_to_three(edges.to_multiset().count(edge)));
    }
    if count < 3 {
        table.insert(key, count + 1);
    }
    proof {
        let after = table@;
        let next = edges.push(edge);
        assert(next.to_multiset() =~= edges.to_multiset().insert(edge));
        assert forall|other: Edge|
            #![trigger next.to_multiset().count(other)]
            next.to_multiset().count(other) > 0 implies after.contains_key(
            edge_number(other) as u128,
        ) && after[edge_number(other) as u128] == up_to_three(next.to_multiset().count(other)) by {
            lemma_edge_numbers_differ(other, edge);
            if other != edge {
                assert(edges.to_multiset().count(other) > 0);
            }
        }
        assert forall|other: Edge|
            #![trigger edge_number(other)]
            after.contains_key(edge_number(other) as u128) implies next.to_multiset().count(other)
            > 0 by {
            lemma_edge_numbers_differ(other, edge);
            if other != edge {
                assert(before.contains_key(edge_number(other) as u128));
            }
        }
    }
}

proof fn lemma_edge_total(triangles: Seq<[usize; 3]>)
    ensures
        all_edges(triangles).len() == 3 * triangles.len(),
    decreases triangles.len(),
{
    if triangles.len() > 0 {
        lemma_edge_total(triangles.drop_last());
    }
}

proof fn lemma_edges_of_prefix(triangles: Seq<[usize; 3]>, end: int)
    requires
        0 <= end < triangles.len(),
    ensures
        all_edges(triangles.take(end + 1)) == all_edges(triangles.take(end)) + triangle_edges(
            triangles[end],
        ),
{
    assert(triangles.take(end + 1).drop_last() =~= triangles.take(end));
}

proof fn lemma_edge_in_triangle(triangles: Seq<[usize; 3]>, at: int)
    requires
        0 <= at < all_edges(triangles).len(),
    ensures
        exists|t: int, k: int|
            0 <= t < triangles.len() && 0 <= k < 3 && all_edges(triangles)[at]
                == #[trigger] triangle_edges(triangles[t])[k],
    decreases triangles.len(),
{
    if triangles.len() > 0 {
        let before = all_edges(triangles.drop_last());
        if at < before.len() {
            lemma_edge_in_triangle(triangles.drop_last(), at);
            let (t, k) = choose|t: int, k: int|
                0 <= t < triangles.drop_last().len() && 0 <= k < 3 && before[at]
                    == #[trigger] triangle_edges(triangles.drop_last()[t])[k];
            assert(triangle_edges(triangles[t])[k] == all_edges(triangles)[at]);
        } else {
            let k = at - before.len();
            assert(all_edges(triangles)[at] == triangle_edges(
                triangles[triangles.len() - 1],
            )[k]);
        }
    }
}

pub proof fn lemma_triangle_edge_listed(triangles: Seq<[usize; 3]>, t: int, k: int)
    requires
        0 <= t < triangles.len(),
        0 <= k < 3,
    ensures
        all_edges(triangles).contains(triangle_edges(triangles[t])[k]),
    decreases triangles.len(),
{
    let before = all_edges(triangles.drop_last());
    let edge = triangle_edges(triangles[t])[k];
    if t < triangles.len() - 1 {
        lemma_triangle_edge_listed(triangles.drop_last(), t, k);
        let at = choose|at: int| 0 <= at < before.len() && before[at] == edge;
        assert(all_edges(triangles)[at] == edge);
    } else {
        assert(all_edges(triangles)[before.len() + k] == edge);
    }
}

fn has_two(table: &HashMap<u128, usize>, Ghost(edges): Ghost<Seq<Edge>>, edge: Edge) -> (result: bool)
    requires
        counts(table@, edges),
        edges.contains(edge),
    ensures
        result == (edges.to_multiset().count(edge) == 2),
{
    broadcast use vstd::seq_lib::group_to_multiset_ensures;

    let key: u128 = number_of(edge);
    assert(edges.to_multiset().count(edge) > 0);
    match table.get(&key) {
        Some(count) => *count == 2,
        None => false,
    }
}

/// Whether there is an edge, and every edge has exactly two triangles.
pub fn is_closed_manifold(triangles: &[[usize; 3]]) -> (result: bool)
    ensures
        result == is_closed(triangles@),
{
    let ghost edges = all_edges(triangles@);
    let mut table: HashMap<u128, usize> = HashMap::new();
    let mut t: usize = 0;
    proof {
        lemma_edge_total(triangles@);
        assert(triangles@.take(0) =~= Seq::empty());
        assert(counts(table@, all_edges(triangles@.take(0)))) by {
            broadcast use vstd::seq_lib::group_to_multiset_ensures;

        }
    }
    while t < triangles.len()
        invariant
            t <= triangles@.len(),
            counts(table@, all_edges(triangles@.take(t as int))),
        decreases triangles@.len() - t,
    {
        let triangle: [usize; 3] = triangles[t];
        let ghost before = all_edges(triangles@.take(t as int));
        let first: Edge = make_edge(triangle[0], triangle[1]);
        let second: Edge = make_edge(triangle[1], triangle[2]);
        let third: Edge = make_edge(triangle[2], triangle[0]);
        proof {
            lemma_edge_total(triangles@.take(t as int));
            lemma_edges_of_prefix(triangles@, t as int);
            assert(before.push(first).push(second).push(third) =~= before + triangle_edges(triangle));
        }
        count_edge(&mut table, Ghost(before), first);
        count_edge(&mut table, Ghost(before.push(first)), second);
        count_edge(&mut table, Ghost(before.push(first).push(second)), third);
        t += 1;
    }
    assert(triangles@.take(triangles@.len() as int) =~= triangles@);
    let mut i: usize = 0;
    while i < triangles.len()
        invariant
            i <= triangles@.len(),
            edges == all_edges(triangles@),
            counts(table@, edges),
            edges.len() == 3 * triangles@.len(),
            forall|j: int, k: int|
                0 <= j < i && 0 <= k < 3 ==> edges.to_multiset().count(
                    #[trigger] triangle_edges(triangles@[j])[k],
                ) == 2,
        decreases triangles@.len() - i,
    {
        let triangle: [usize; 3] = triangles[i];
        let first: Edge = make_edge(triangle[0], triangle[1]);
        let second: Edge = make_edge(triangle[1], triangle[2]);
        let third: Edge = make_edge(triangle[2], triangle[0]);
        proof {
            lemma_triangle_edge_listed(triangles@, i as int, 0);
            lemma_triangle_edge_listed(triangles@, i as int, 1);
            lemma_triangle_edge_listed(triangles@, i as int, 2);
            assert(triangle_edges(triangle)[0] == first);
            assert(triangle_edges(triangle)[1] == second);
            assert(triangle_edges(triangle)[2] == third);
        }
        if !has_two(&table, Ghost(edges), first) || !has_two(&table, Ghost(edges), second)
            || !has_two(&table, Ghost(edges), third) {
            return false;
        }
        assert forall|j: int, k: int| 0 <= j < i + 1 && 0 <= k < 3 implies edges.to_multiset().count(
            #[trigger] triangle_edges(triangles@[j])[k],
        ) == 2 by {
            if j == i {
                assert(k == 0 || k == 1 || k == 2);
            }
        }
        i += 1;
    }
    assert forall|at: int| 0 <= at < edges.len() implies edges.to_multiset().count(
        #[trigger] edges[at],
    ) == 2 by {
        lemma_edge_in_triangle(triangles@, at);
    }
    triangles.len() > 0
}

/// Whether a table holds exactly the edges of a list.
spec fn holds(table: Map<u128, usize>, edges: Seq<Edge>) -> bool {
    forall|edge: Edge|
        #![trigger edge_number(edge)]
        #![trigger edges.contains(edge)]
        table.contains_key(edge_number(edge) as u128) == edges.contains(edge)
}

proof fn lemma_distinct_push<A>(list: Seq<A>, value: A)
    ensures
        distinct(list.push(value)) == (if distinct(list).contains(value) {
            distinct(list)
        } else {
            distinct(list).push(value)
        }),
{
    assert(list.push(value).drop_last() =~= list);
}

fn note_edge(
    table: &mut HashMap<u128, usize>,
    edges: &mut Vec<Edge>,
    indices: &mut Vec<usize>,
    Ghost(list): Ghost<Seq<Edge>>,
    edge: Edge,
)
    requires
        holds(old(table)@, old(edges)@),
        old(edges)@ == distinct(list),
        old(indices)@ == Seq::new(old(edges)@.len(), |i: int| i as usize),
    ensures
        holds(final(table)@, final(edges)@),
        final(edges)@ == distinct(list.push(edge)),
        final(indices)@ == Seq::new(final(edges)@.len(), |i: int| i as usize),
{
    let key: u128 = number_of(edge);
    let ghost before = edges@;
    proof {
        lemma_distinct_push(list, edge);
        lemma_edge_numbers_differ(edge, edge);
        assert(table@.contains_key(edge_number(edge) as u128) == edges@.contains(edge));
    }
    if !table.contains_key(&key) {
        let index: usize = edges.len();
        table.insert(key, index);
        edges.push(edge);
        indices.push(index);
        proof {
            assert(indices@ =~= Seq::new(edges@.len(), |i: int| i as usize));
            assert forall|other: Edge|
                #![trigger edge_number(other)]
                #![trigger edges@.contains(other)]
                table@.contains_key(edge_number(other) as u128) == edges@.contains(other) by {
                lemma_edge_numbers_differ(other, edge);
                assert(old(table)@.contains_key(edge_number(other) as u128) == before.contains(
                    other,
                ));
                if before.contains(other) {
                    let at = choose|at: int| 0 <= at < before.len() && before[at] == other;
                    assert(edges@[at] == other);
                }
                if other == edge {
                    assert(edges@[before.len() as int] == edge);
                }
                if edges@.contains(other) && other != edge {
                    let at = choose|at: int| 0 <= at < edges@.len() && edges@[at] == other;
                    assert(before[at] == other);
                }
            }
        }
    }
}

/// The edges of the triangles, each once, in the order in which they first occur; and the index
/// of each.
pub fn unique_edges(triangles: &[[usize; 3]]) -> (result: (Vec<Edge>, Vec<usize>))
    ensures
        result.0@ == distinct(all_edges(triangles@)),
        result.1@ == Seq::new(result.0@.len(), |i: int| i as usize),
{
    let mut table: HashMap<u128, usize> = HashMap::new();
    let mut edges: Vec<Edge> = Vec::new();
    let mut indices: Vec<usize> = Vec::new();
    let mut t: usize = 0;
    proof {
        assert(triangles@.take(0) =~= Seq::empty());
        assert(indices@ =~= Seq::new(edges@.len(), |i: int| i as usize));
    }
    while t < triangles.len()
        invariant
            t <= triangles@.len(),
            holds(table@, edges@),
            edges@ == distinct(all_edges(triangles@.take(t as int))),
            indices@ == Seq::new(edges@.len(), |i: int| i as usize),
        decreases triangles@.len() - t,
    {
        let triangle: [usize; 3] = triangles[t];
        let ghost before = all_edges(triangles@.take(t as int));
        let first: Edge = make_edge(triangle[0], triangle[1]);
        let second: Edge = make_edge(triangle[1], triangle[2]);
        let third: Edge = make_edge(triangle[2], triangle[0]);
        proof {
            lemma_edges_of_prefix(triangles@, t as int);
            assert(before.push(first).push(second).push(third) =~= before + triangle_edges(triangle));
        }
        note_edge(&mut table, &mut edges, &mut indices, Ghost(before), first);
        note_edge(&mut table, &mut edges, &mut indices, Ghost(before.push(first)), second);
        note_edge(
            &mut table,
            &mut edges,
            &mut indices,
            Ghost(before.push(first).push(second)),
            third,
        );
        t += 1;
    }
    assert(triangles@.take(triangles@.len() as int) =~= triangles@);
    (edges, indices)
}

fn redirect(vertex: usize, a: usize, b: usize) -> (result: usize)
    ensures
        result == redirected(vertex, a, b),
{
    if vertex == b {
        a
    } else {
        vertex
    }
}

/// The triangles once `b` is merged into `a`, without those that have lost a side.
pub fn collapse_edge(triangles: &[[usize; 3]], a: usize, b: usize) -> (result: Vec<[usize; 3]>)
    ensures
        result@ == collapsed(triangles@, a, b),
{
    let mut kept: Vec<[usize; 3]> = Vec::new();
    let mut t: usize = 0;
    assert(triangles@.take(0) =~= Seq::empty());
    while t < triangles.len()
        invariant
            t <= triangles@.len(),
            kept@ == collapsed(triangles@.take(t as int), a, b),
        decreases triangles@.len() - t,
    {
        let triangle: [usize; 3] = triangles[t];
        let x: usize = redirect(triangle[0], a, b);
        let y: usize = redirect(triangle[1], a, b);
        let z: usize = redirect(triangle[2], a, b);
        let moved: [usize; 3] = [x, y, z];
        proof {
            assert(triangles@.take(t + 1).drop_last() =~= triangles@.take(t as int));
            assert(moved@ =~= redirected_triangle(triangle, a, b)@);
            assert(moved =~= redirected_triangle(triangle, a, b));
        }
        if x != y && y != z && z != x {
            kept.push(moved);
        }
        t += 1;
    }
    assert(triangles@.take(triangles@.len() as int) =~= triangles@);
    kept
}

/// Whether the triangles are closed once `b` is merged into `a`.
pub fn collapse_keeps_closed_manifold(triangles: &[[usize; 3]], a: usize, b: usize) -> (result: bool)
    ensures
        result == is_closed(collapsed(triangles@, a, b)),
{
    is_closed_manifold(collapse_edge(triangles, a, b).as_slice())
}

fn check_vertex(triangle: &[usize; 3], vertex: usize) -> (result: bool)
    ensures
        result == has_vertex(*triangle, vertex),
{
    triangle[0] == vertex || triangle[1] == vertex || triangle[2] == vertex
}

fn contains(list: &Vec<usize>, vertex: usize) -> (result: bool)
    ensures
        result == list@.contains(vertex),
{
    let mut i: usize = 0;
    while i < list.len()
        invariant
            i <= list@.len(),
            forall|j: int| 0 <= j < i ==> list@[j] != vertex,
        decreases list@.len() - i,
    {
        if list[i] == vertex {
            return true;
        }
        i += 1;
    }
    false
}

/// Whether no value occurs twice.
spec fn once_each(list: Seq<usize>) -> bool {
    forall|i: int, j: int| 0 <= i < j < list.len() ==> list[i] != list[j]
}

fn note_vertex(list: &mut Vec<usize>, vertex: usize, wanted: bool)
    requires
        once_each(old(list)@),
    ensures
        once_each(final(list)@),
        forall|other: usize| #[trigger]
            final(list)@.contains(other) <==> old(list)@.contains(other) || (wanted && other
                == vertex),
{
    if wanted && !contains(list, vertex) {
        let ghost before = list@;
        list.push(vertex);
        proof {
            assert forall|other: usize| #[trigger]
                list@.contains(other) <==> before.contains(other) || other == vertex by {
                if before.contains(other) {
                    let at = choose|at: int| 0 <= at < before.len() && before[at] == other;
                    assert(list@[at] == other);
                }
                if other == vertex {
                    assert(list@[before.len() as int] == vertex);
                }
                if list@.contains(other) && other != vertex {
                    let at = choose|at: int| 0 <= at < list@.len() && list@[at] == other;
                    assert(before[at] == other);
                }
            }
        }
    }
}

/// The neighbors of a vertex.
fn list_neighbors(triangles: &[[usize; 3]], vertex: usize) -> (result: Vec<usize>)
    ensures
        once_each(result@),
        forall|other: usize| #[trigger]
            result@.contains(other) <==> are_neighbors(triangles@, vertex, other),
{
    let mut found: Vec<usize> = Vec::new();
    let mut t: usize = 0;
    while t < triangles.len()
        invariant
            t <= triangles@.len(),
            once_each(found@),
            forall|other: usize| #[trigger]
                found@.contains(other) <==> are_neighbors(
                    triangles@.take(t as int),
                    vertex,
                    other,
                ),
        decreases triangles@.len() - t,
    {
        let triangle: [usize; 3] = triangles[t];
        let ghost before = found@;
        let here: bool = check_vertex(&triangle, vertex);
        note_vertex(&mut found, triangle[0], here && triangle[0] != vertex);
        note_vertex(&mut found, triangle[1], here && triangle[1] != vertex);
        note_vertex(&mut found, triangle[2], here && triangle[2] != vertex);
        proof {
            let past = triangles@.take(t as int);
            let now = triangles@.take(t + 1);
            assert forall|other: usize| #[trigger]
                found@.contains(other) <==> are_neighbors(now, vertex, other) by {
                assert(before.contains(other) <==> are_neighbors(past, vertex, other));
                if are_neighbors(past, vertex, other) {
                    let u = choose|u: int|
                        0 <= u < past.len() && has_vertex(#[trigger] past[u], vertex) && has_vertex(
                            past[u],
                            other,
                        );
                    assert(now[u] == past[u]);
                }
                if are_neighbors(now, vertex, other) {
                    let u = choose|u: int|
                        0 <= u < now.len() && has_vertex(#[trigger] now[u], vertex) && has_vertex(
                            now[u],
                            other,
                        );
                    if u < t {
                        assert(past[u] == now[u]);
                    }
                }
                assert(now[t as int] == triangle);
            }
        }
        t += 1;
    }
    assert(triangles@.take(triangles@.len() as int) =~= triangles@);
    found
}

/// The vertices off an edge that its triangles have, and how many triangles it has, up to three.
fn list_opposite(triangles: &[[usize; 3]], a: usize, b: usize) -> (result: (Vec<usize>, usize))
    ensures
        once_each(result.0@),
        forall|other: usize| #[trigger]
            result.0@.contains(other) <==> is_opposite(triangles@, a, b, other),
        result.1 == up_to_three(incident_count(triangles@, a, b)),
{
    let mut found: Vec<usize> = Vec::new();
    let mut incident: usize = 0;
    let mut t: usize = 0;
    assert(triangles@.take(0) =~= Seq::empty());
    while t < triangles.len()
        invariant
            t <= triangles@.len(),
            once_each(found@),
            incident == up_to_three(incident_count(triangles@.take(t as int), a, b)),
            forall|other: usize| #[trigger]
                found@.contains(other) <==> is_opposite(triangles@.take(t as int), a, b, other),
        decreases triangles@.len() - t,
    {
        let triangle: [usize; 3] = triangles[t];
        let ghost before = found@;
        let here: bool = check_vertex(&triangle, a) && check_vertex(&triangle, b);
        if here && incident < 3 {
            incident += 1;
        }
        note_vertex(&mut found, triangle[0], here && triangle[0] != a && triangle[0] != b);
        note_vertex(&mut found, triangle[1], here && triangle[1] != a && triangle[1] != b);
        note_vertex(&mut found, triangle[2], here && triangle[2] != a && triangle[2] != b);
        proof {
            let past = triangles@.take(t as int);
            let now = triangles@.take(t + 1);
            assert(now.drop_last() =~= past);
            assert(now[t as int] == triangle);
            assert forall|other: usize| #[trigger]
                found@.contains(other) <==> is_opposite(now, a, b, other) by {
                assert(before.contains(other) <==> is_opposite(past, a, b, other));
                if is_opposite(past, a, b, other) {
                    let u = choose|u: int|
                        0 <= u < past.len() && has_vertex(#[trigger] past[u], a) && has_vertex(
                            past[u],
                            b,
                        ) && has_vertex(past[u], other);
                    assert(now[u] == past[u]);
                }
                if is_opposite(now, a, b, other) {
                    let u = choose|u: int|
                        0 <= u < now.len() && has_vertex(#[trigger] now[u], a) && has_vertex(
                            now[u],
                            b,
                        ) && has_vertex(now[u], other);
                    if u < t {
                        assert(past[u] == now[u]);
                    }
                }
            }
        }
        t += 1;
    }
    assert(triangles@.take(triangles@.len() as int) =~= triangles@);
    (found, incident)
}

/// Whether every common value of two lists is in a third.
fn common_within(left: &Vec<usize>, right: &Vec<usize>, all: &Vec<usize>) -> (result: bool)
    ensures
        result == (forall|vertex: usize|
            left@.contains(vertex) && right@.contains(vertex) ==> #[trigger] all@.contains(vertex)),
{
    let mut i: usize = 0;
    while i < left.len()
        invariant
            i <= left@.len(),
            forall|j: int|
                0 <= j < i && right@.contains(#[trigger] left@[j]) ==> all@.contains(left@[j]),
        decreases left@.len() - i,
    {
        if contains(right, left[i]) && !contains(all, left[i]) {
            assert(left@.contains(left@[i as int]));
            return false;
        }
        i += 1;
    }
    true
}

/// Whether every value of a list is in both others.
fn all_common(all: &Vec<usize>, left: &Vec<usize>, right: &Vec<usize>) -> (result: bool)
    ensures
        result == (forall|vertex: usize| #[trigger]
            all@.contains(vertex) ==> left@.contains(vertex) && right@.contains(vertex)),
{
    let mut i: usize = 0;
    while i < all.len()
        invariant
            i <= all@.len(),
            forall|j: int|
                0 <= j < i ==> left@.contains(#[trigger] all@[j]) && right@.contains(all@[j]),
        decreases all@.len() - i,
    {
        if !contains(left, all[i]) || !contains(right, all[i]) {
            assert(all@.contains(all@[i as int]));
            return false;
        }
        i += 1;
    }
    true
}

/// Whether lists hold the neighbors of the ends of an edge and the vertices opposite to it.
spec fn lists_fit(
    all: Seq<[usize; 3]>,
    a: usize,
    b: usize,
    left: Seq<usize>,
    right: Seq<usize>,
    opposite: Seq<usize>,
) -> bool {
    &&& forall|vertex: usize| #[trigger]
        left.contains(vertex) <==> are_neighbors(all, a, vertex)
    &&& forall|vertex: usize| #[trigger]
        right.contains(vertex) <==> are_neighbors(all, b, vertex)
    &&& forall|vertex: usize| #[trigger]
        opposite.contains(vertex) <==> is_opposite(all, a, b, vertex)
    &&& once_each(opposite)
}

proof fn lemma_valid_link_shows(
    all: Seq<[usize; 3]>,
    a: usize,
    b: usize,
    left: Seq<usize>,
    right: Seq<usize>,
    opposite: Seq<usize>,
)
    requires
        lists_fit(all, a, b, left, right, opposite),
        has_valid_link(all, a, b),
    ensures
        opposite.len() == 2,
        forall|vertex: usize|
            left.contains(vertex) && right.contains(vertex) ==> #[trigger] opposite.contains(
                vertex,
            ),
        forall|vertex: usize| #[trigger]
            opposite.contains(vertex) ==> left.contains(vertex) && right.contains(vertex),
{
    let (first, second) = choose|first: usize, second: usize| #[trigger]
        are_the_opposite(all, a, b, first, second);
    assert(opposite.contains(first) && opposite.contains(second));
    if opposite.len() > 2 {
        assert(opposite.contains(opposite[0]));
        assert(opposite.contains(opposite[1]));
        assert(opposite.contains(opposite[2]));
    }
    assert forall|vertex: usize| left.contains(vertex) && right.contains(vertex) implies #[trigger]
    opposite.contains(vertex) by {
        assert(is_opposite(all, a, b, vertex) == (are_neighbors(all, a, vertex) && are_neighbors(
            all,
            b,
            vertex,
        )));
    }
    assert forall|vertex: usize| #[trigger] opposite.contains(vertex) implies left.contains(vertex)
        && right.contains(vertex) by {
        assert(is_opposite(all, a, b, vertex));
    }
}

proof fn lemma_valid_link_shown(
    all: Seq<[usize; 3]>,
    a: usize,
    b: usize,
    left: Seq<usize>,
    right: Seq<usize>,
    opposite: Seq<usize>,
)
    requires
        lists_fit(all, a, b, left, right, opposite),
        incident_count(all, a, b) == 2,
        opposite.len() == 2,
        forall|vertex: usize|
            left.contains(vertex) && right.contains(vertex) ==> #[trigger] opposite.contains(
                vertex,
            ),
        forall|vertex: usize| #[trigger]
            opposite.contains(vertex) ==> left.contains(vertex) && right.contains(vertex),
    ensures
        has_valid_link(all, a, b),
{
    let first = opposite[0];
    let second = opposite[1];
    assert(opposite.contains(first) && opposite.contains(second));
    assert(is_opposite(all, a, b, first) && is_opposite(all, a, b, second));
    assert forall|vertex: usize| #[trigger] is_opposite(all, a, b, vertex) implies vertex == first
        || vertex == second by {
        assert(opposite.contains(vertex));
    }
    assert(are_the_opposite(all, a, b, first, second));
    assert forall|vertex: usize|
        are_neighbors(all, a, vertex) && are_neighbors(all, b, vertex) <==> #[trigger] is_opposite(
            all,
            a,
            b,
            vertex,
        ) by {
        assert(left.contains(vertex) == are_neighbors(all, a, vertex));
        assert(right.contains(vertex) == are_neighbors(all, b, vertex));
        assert(opposite.contains(vertex) == is_opposite(all, a, b, vertex));
    }
}

/// Whether the edge has two triangles, with two different vertices off the edge, and its ends
/// have no other neighbor in common.
pub fn collapse_has_valid_link(triangles: &[[usize; 3]], a: usize, b: usize) -> (result: bool)
    ensures
        result == has_valid_link(triangles@, a, b),
{
    let left: Vec<usize> = list_neighbors(triangles, a);
    let right: Vec<usize> = list_neighbors(triangles, b);
    let (opposite, incident): (Vec<usize>, usize) = list_opposite(triangles, a, b);
    let two: bool = opposite.len() == 2;
    let within: bool = common_within(&left, &right, &opposite);
    let common: bool = all_common(&opposite, &left, &right);
    proof {
        if has_valid_link(triangles@, a, b) {
            lemma_valid_link_shows(triangles@, a, b, left@, right@, opposite@);
        }
        if incident == 2 && two && within && common {
            lemma_valid_link_shown(triangles@, a, b, left@, right@, opposite@);
        }
    }
    incident == 2 && two && within && common
}

/// Whether every triangle names one of the first `count` vertices.
pub open spec fn are_in_range(triangles: Seq<[usize; 3]>, count: nat) -> bool {
    forall|t: int, k: int|
        0 <= t < triangles.len() && 0 <= k < 3 ==> #[trigger] triangles[t][k] < count
}

/// Merging the ends of an edge removes its triangles, so fewer remain.
pub proof fn law_collapsing_an_edge_removes_triangles(triangles: Seq<[usize; 3]>, at: int)
    requires
        0 <= at < all_edges(triangles).len(),
    ensures
        collapsed(triangles, all_edges(triangles)[at].0, all_edges(triangles)[at].1).len()
            < triangles.len(),
    decreases triangles.len(),
{
    let edge = all_edges(triangles)[at];
    if triangles.len() > 0 {
        let before = triangles.drop_last();
        lemma_collapse_adds_none(before, edge.0, edge.1);
        if at < all_edges(before).len() {
            law_collapsing_an_edge_removes_triangles(before, at);
        } else {
            let k = at - all_edges(before).len();
            assert(edge == triangle_edges(triangles.last())[k]);
            assert(k == 0 || k == 1 || k == 2);
            assert(!is_proper(redirected_triangle(triangles.last(), edge.0, edge.1)));
        }
    }
}

proof fn lemma_collapse_adds_none(triangles: Seq<[usize; 3]>, a: usize, b: usize)
    ensures
        collapsed(triangles, a, b).len() <= triangles.len(),
    decreases triangles.len(),
{
    if triangles.len() > 0 {
        lemma_collapse_adds_none(triangles.drop_last(), a, b);
    }
}

/// What remains after a collapse has three vertices each, all of them in range, and the vertex
/// that was merged away is gone.
pub proof fn law_collapsed_triangles_are_proper(
    triangles: Seq<[usize; 3]>,
    a: usize,
    b: usize,
    count: nat,
)
    requires
        are_in_range(triangles, count),
        a < count,
    ensures
        are_in_range(collapsed(triangles, a, b), count),
        forall|t: int|
            0 <= t < collapsed(triangles, a, b).len() ==> is_proper(
                #[trigger] collapsed(triangles, a, b)[t],
            ) && (a != b ==> !has_vertex(collapsed(triangles, a, b)[t], b)),
    decreases triangles.len(),
{
    if triangles.len() > 0 {
        let before = triangles.drop_last();
        assert forall|t: int, k: int| 0 <= t < before.len() && 0 <= k < 3 implies #[trigger]
        before[t][k] < count by {
            assert(before[t] == triangles[t]);
            assert(triangles[t][k] < count);
        }
        law_collapsed_triangles_are_proper(before, a, b, count);
        let last = triangles[triangles.len() - 1];
        assert(last[0] < count && last[1] < count && last[2] < count);
        let rest = collapsed(before, a, b);
        let all = collapsed(triangles, a, b);
        assert forall|t: int, k: int| 0 <= t < all.len() && 0 <= k < 3 implies #[trigger]
        all[t][k] < count by {
            assert(k == 0 || k == 1 || k == 2);
            if t < rest.len() {
                assert(all[t] == rest[t]);
                assert(rest[t][k] < count);
            }
        }
        assert forall|t: int| 0 <= t < all.len() implies is_proper(#[trigger] all[t]) && (a != b
            ==> !has_vertex(all[t], b)) by {
            if t < rest.len() {
                assert(all[t] == rest[t]);
            }
        }
    }
}

/// The edges of triangles in range lie between vertices in range.
pub proof fn law_edges_are_in_range(triangles: Seq<[usize; 3]>, count: nat)
    requires
        are_in_range(triangles, count),
    ensures
        forall|i: int|
            0 <= i < all_edges(triangles).len() ==> (#[trigger] all_edges(triangles)[i]).0 < count
                && all_edges(triangles)[i].1 < count,
{
    assert forall|i: int| 0 <= i < all_edges(triangles).len() implies (
    #[trigger] all_edges(triangles)[i]).0 < count && all_edges(triangles)[i].1 < count by {
        lemma_edge_in_triangle(triangles, i);
        let (t, k) = choose|t: int, k: int|
            0 <= t < triangles.len() && 0 <= k < 3 && all_edges(triangles)[i]
                == #[trigger] triangle_edges(triangles[t])[k];
        assert(k == 0 || k == 1 || k == 2);
        assert(triangles[t][0] < count && triangles[t][1] < count && triangles[t][2] < count);
    }
}

/// A list without repetitions holds what the list holds, and holds it once.
pub proof fn law_distinct_keeps_the_values<A>(list: Seq<A>)
    ensures
        distinct(list).no_duplicates(),
        forall|value: A| #[trigger] distinct(list).contains(value) <==> list.contains(value),
    decreases list.len(),
{
    if list.len() > 0 {
        let before = list.drop_last();
        law_distinct_keeps_the_values(before);
        let all = distinct(list);
        assert forall|value: A| #[trigger] all.contains(value) <==> list.contains(value) by {
            assert(distinct(before).contains(value) <==> before.contains(value));
            if list.contains(value) && value != list.last() {
                let at = choose|at: int| 0 <= at < list.len() && list[at] == value;
                assert(before[at] == value);
            }
            if before.contains(value) {
                let at = choose|at: int| 0 <= at < before.len() && before[at] == value;
                assert(list[at] == value);
            }
            if distinct(before).contains(value) {
                let at = choose|at: int|
                    0 <= at < distinct(before).len() && distinct(before)[at] == value;
                assert(all[at] == value);
            }
            if value == list.last() {
                assert(list[list.len() - 1] == value);
                if !distinct(before).contains(value) {
                    assert(all[distinct(before).len() as int] == value);
                }
            }
            if all.contains(value) && !distinct(before).contains(value) {
                let at = choose|at: int| 0 <= at < all.len() && all[at] == value;
                if at < distinct(before).len() {
                    assert(distinct(before)[at] == value);
                }
            }
        }
    }
}

} // verus!
