//! Spheres of triangles, made by dividing the faces of an icosahedron.
//!
//! Only sums, products, quotients and roots are used, so that every machine makes the same sphere.

use crate::float::{Float32, HALF, ONE};
use crate::math::Vec3;
use crate::mesh::{mesh_of, plain_vertex, Mesh, MeshVertex};
use crate::topology::{
    all_edges, are_in_range, distinct, edge_between, edge_number, law_distinct_keeps_the_values,
    law_edges_are_in_range, lemma_edge_numbers_differ, lemma_triangle_edge_listed, make_edge,
    number_of, triangle_edges, unique_edges, Edge,
};
use std::collections::HashMap;
use vstd::prelude::*;
use vstd::std_specs::hash::*;

verus! {

broadcast use vstd::std_specs::hash::group_hash_axioms;

/// The bits of 0.525731, the shorter coordinate of the vertices of an icosahedron.
pub const SHORT: u32 = 0x3f06_964f;

/// The bits of 0.850651, the longer coordinate.
pub const LONG: u32 = 0x3f59_c444;

/// The vector scaled to the length one by the inverse of its length.
pub open spec fn scaled_to_one(vertex: Vec3) -> Vec3 {
    let inverse = (Float32 { bits: ONE }) / (vertex.x * vertex.x + vertex.y * vertex.y + vertex.z
        * vertex.z).root();
    Vec3 { x: vertex.x * inverse, y: vertex.y * inverse, z: vertex.z * inverse }
}

/// The point of the unit sphere in the middle between two of its points.
pub open spec fn middle(a: Vec3, b: Vec3) -> Vec3 {
    let half = Float32 { bits: HALF };
    scaled_to_one(Vec3 { x: (a.x + b.x) * half, y: (a.y + b.y) * half, z: (a.z + b.z) * half })
}

/// The point of the unit sphere in the middle between two of its points.
pub fn midpoint(a: Vec3, b: Vec3) -> (result: Vec3)
    ensures
        result == middle(a, b),
{
    let half: Float32 = Float32 { bits: HALF };
    let x: Float32 = (a.x + b.x) * half;
    let y: Float32 = (a.y + b.y) * half;
    let z: Float32 = (a.z + b.z) * half;
    let inverse: Float32 = Float32 { bits: ONE } / (x * x + y * y + z * z).sqrt();
    Vec3 { x: x * inverse, y: y * inverse, z: z * inverse }
}

/// The vertices after a division: the old ones, then the middle of each edge, in the order in which
/// the edges first occur.
pub open spec fn divided_vertices(vertices: Seq<Vec3>, triangles: Seq<[usize; 3]>) -> Seq<Vec3> {
    let edges = distinct(all_edges(triangles));
    vertices + Seq::new(
        edges.len(),
        |i: int| middle(vertices[edges[i].0 as int], vertices[edges[i].1 as int]),
    )
}

/// The vertex in the middle of an edge.
pub open spec fn middle_vertex(count: nat, edges: Seq<Edge>, left: usize, right: usize) -> usize {
    (count + edges.index_of(edge_between(left, right))) as usize
}

/// One of the four triangles that a triangle is divided into: those at its corners, and then the
/// one between them.
pub open spec fn part_of(
    triangle: [usize; 3],
    part: int,
    count: nat,
    edges: Seq<Edge>,
) -> [usize; 3] {
    let ab = middle_vertex(count, edges, triangle[0], triangle[1]);
    let bc = middle_vertex(count, edges, triangle[1], triangle[2]);
    let ca = middle_vertex(count, edges, triangle[2], triangle[0]);
    if part == 0 {
        [triangle[0], ab, ca]
    } else if part == 1 {
        [triangle[1], bc, ab]
    } else if part == 2 {
        [triangle[2], ca, bc]
    } else {
        [ab, bc, ca]
    }
}

/// The triangles after a division, four for each.
pub open spec fn divided_triangles(count: nat, triangles: Seq<[usize; 3]>) -> Seq<[usize; 3]> {
    let edges = distinct(all_edges(triangles));
    Seq::new(triangles.len() * 4, |i: int| part_of(triangles[i / 4], i % 4, count, edges))
}

/// Whether a table tells the place of each of the first `count` edges.
spec fn tells(table: Map<u128, usize>, edges: Seq<Edge>, count: int) -> bool {
    forall|i: int|
        0 <= i < count ==> table.contains_key(edge_number(#[trigger] edges[i]) as u128)
            && table[edge_number(edges[i]) as u128] == i
}

fn number_edges(edges: &Vec<Edge>) -> (result: HashMap<u128, usize>)
    requires
        edges@.no_duplicates(),
    ensures
        tells(result@, edges@, edges@.len() as int),
{
    let mut table: HashMap<u128, usize> = HashMap::new();
    let mut i: usize = 0;
    while i < edges.len()
        invariant
            i <= edges@.len(),
            edges@.no_duplicates(),
            tells(table@, edges@, i as int),
        decreases edges@.len() - i,
    {
        let ghost before = table@;
        table.insert(number_of(edges[i]), i);
        proof {
            assert forall|j: int| 0 <= j < i + 1 implies table@.contains_key(
                edge_number(#[trigger] edges@[j]) as u128,
            ) && table@[edge_number(edges@[j]) as u128] == j by {
                lemma_edge_numbers_differ(edges@[j], edges@[i as int]);
                lemma_edge_numbers_differ(edges@[i as int], edges@[j]);
                if j < i {
                    assert(before.contains_key(edge_number(edges@[j]) as u128));
                }
            }
        }
        i += 1;
    }
    table
}

fn get_midpoint(
    table: &HashMap<u128, usize>,
    edges: &Vec<Edge>,
    start: usize,
    left: usize,
    right: usize,
) -> (result: usize)
    requires
        tells(table@, edges@, edges@.len() as int),
        edges@.no_duplicates(),
        edges@.contains(edge_between(left, right)),
        start + edges@.len() <= usize::MAX,
    ensures
        result == middle_vertex(start as nat, edges@, left, right),
        start <= result < start + edges@.len(),
{
    let edge: Edge = make_edge(left, right);
    let ghost at = edges@.index_of(edge);
    assert(0 <= at < edges@.len() && edges@[at] == edge);
    proof {
        lemma_edge_numbers_differ(edge, edge);
    }
    match table.get(&number_of(edge)) {
        Some(place) => start + *place,
        None => start,
    }
}

/// Divides each triangle into four, with new vertices in the middle of the edges.
pub fn subdivide(vertices: &mut Vec<Vec3>, triangles: &Vec<[usize; 3]>) -> (result: Vec<
    [usize; 3],
>)
    requires
        are_in_range(triangles@, old(vertices)@.len()),
    ensures
        final(vertices)@ == divided_vertices(old(vertices)@, triangles@),
        result@ == divided_triangles(old(vertices)@.len(), triangles@),
        are_in_range(result@, final(vertices)@.len()),
{
    let start: usize = vertices.len();
    let ghost source = vertices@;
    let (edges, _): (Vec<Edge>, Vec<usize>) = unique_edges(triangles.as_slice());
    proof {
        law_distinct_keeps_the_values(all_edges(triangles@));
        law_edges_are_in_range(triangles@, source.len());
    }
    let mut i: usize = 0;
    assert(vertices@ =~= divided_vertices(source, triangles@).take(start as int));
    while i < edges.len()
        invariant
            i <= edges@.len(),
            start == source.len(),
            edges@ == distinct(all_edges(triangles@)),
            are_in_range(triangles@, source.len()),
            vertices@ =~= divided_vertices(source, triangles@).take(start + i),
            forall|k: int|
                0 <= k < all_edges(triangles@).len() ==> (#[trigger] all_edges(triangles@)[k]).0
                    < source.len() && all_edges(triangles@)[k].1 < source.len(),
            forall|edge: Edge| #[trigger]
                distinct(all_edges(triangles@)).contains(edge) <==> all_edges(
                    triangles@,
                ).contains(edge),
        decreases edges@.len() - i,
    {
        let (a, b): (usize, usize) = edges[i];
        proof {
            assert(edges@.contains(edges@[i as int]));
            let at = choose|at: int|
                0 <= at < all_edges(triangles@).len() && all_edges(triangles@)[at]
                    == edges@[i as int];
            assert(all_edges(triangles@)[at].0 < source.len());
        }
        let point: Vec3 = midpoint(vertices[a], vertices[b]);
        vertices.push(point);
        i += 1;
    }
    assert(vertices@ =~= divided_vertices(source, triangles@));
    assert(vertices.len() == vertices@.len());
    let table: HashMap<u128, usize> = number_edges(&edges);
    let mut next: Vec<[usize; 3]> = Vec::new();
    let mut t: usize = 0;
    while t < triangles.len()
        invariant
            t <= triangles@.len(),
            start == source.len(),
            are_in_range(triangles@, source.len()),
            edges@ == distinct(all_edges(triangles@)),
            edges@.no_duplicates(),
            tells(table@, edges@, edges@.len() as int),
            vertices@.len() == start + edges@.len(),
            start + edges@.len() <= usize::MAX,
            next@.len() == 4 * t,
            forall|k: int|
                0 <= k < 4 * t ==> #[trigger] next@[k] == divided_triangles(
                    source.len(),
                    triangles@,
                )[k],
            are_in_range(next@, vertices@.len()),
        decreases triangles@.len() - t,
    {
        let triangle: [usize; 3] = triangles[t];
        let (a, b, c): (usize, usize, usize) = (triangle[0], triangle[1], triangle[2]);
        proof {
            law_distinct_keeps_the_values(all_edges(triangles@));
            lemma_triangle_edge_listed(triangles@, t as int, 0);
            lemma_triangle_edge_listed(triangles@, t as int, 1);
            lemma_triangle_edge_listed(triangles@, t as int, 2);
            assert(triangle_edges(triangle)[0] == edge_between(a, b));
            assert(triangle_edges(triangle)[1] == edge_between(b, c));
            assert(triangle_edges(triangle)[2] == edge_between(c, a));
            assert(triangles@[t as int][0] < source.len());
            assert(triangles@[t as int][1] < source.len());
            assert(triangles@[t as int][2] < source.len());
        }
        let ab: usize = get_midpoint(&table, &edges, start, a, b);
        let bc: usize = get_midpoint(&table, &edges, start, b, c);
        let ca: usize = get_midpoint(&table, &edges, start, c, a);
        let ghost before = next@;
        next.push([a, ab, ca]);
        next.push([b, bc, ab]);
        next.push([c, ca, bc]);
        next.push([ab, bc, ca]);
        proof {
            let wanted = divided_triangles(source.len(), triangles@);
            assert forall|k: int| 0 <= k < 4 * (t + 1) implies #[trigger] next@[k] == wanted[k] by {
                if k < 4 * t {
                    assert(next@[k] == before[k]);
                } else {
                    assert(k / 4 == t && k % 4 == k - 4 * t);
                    assert(next@[k]@ =~= wanted[k]@);
                    assert(next@[k] =~= wanted[k]);
                }
            }
            assert forall|k: int, j: int| 0 <= k < next@.len() && 0 <= j < 3 implies
            #[trigger] next@[k][j] < vertices@.len() by {
                if k < 4 * t {
                    assert(next@[k] == before[k]);
                    assert(before[k][j] < vertices@.len());
                } else {
                    assert(j == 0 || j == 1 || j == 2);
                }
            }
        }
        t += 1;
    }
    assert(next@ =~= divided_triangles(source.len(), triangles@));
    next
}

/// The vertices of the icosahedron.
pub open spec fn base_vertices() -> Seq<Vec3> {
    let z = Float32 { bits: 0 };
    let s = Float32 { bits: SHORT };
    let l = Float32 { bits: LONG };
    let ns = Float32 { bits: 0x8000_0000 | SHORT };
    let nl = Float32 { bits: 0x8000_0000 | LONG };
    seq![
        Vec3 { x: ns, y: l, z: z },
        Vec3 { x: s, y: l, z: z },
        Vec3 { x: ns, y: nl, z: z },
        Vec3 { x: s, y: nl, z: z },
        Vec3 { x: z, y: ns, z: l },
        Vec3 { x: z, y: s, z: l },
        Vec3 { x: z, y: ns, z: nl },
        Vec3 { x: z, y: s, z: nl },
        Vec3 { x: l, y: z, z: ns },
        Vec3 { x: l, y: z, z: s },
        Vec3 { x: nl, y: z, z: ns },
        Vec3 { x: nl, y: z, z: s },
    ]
}

/// The faces of the icosahedron.
pub open spec fn base_triangles() -> Seq<[usize; 3]> {
    seq![
        [0, 11, 5],
        [0, 5, 1],
        [0, 1, 7],
        [0, 7, 10],
        [0, 10, 11],
        [1, 5, 9],
        [5, 11, 4],
        [11, 10, 2],
        [10, 7, 6],
        [7, 1, 8],
        [3, 9, 4],
        [3, 4, 2],
        [3, 2, 6],
        [3, 6, 8],
        [3, 8, 9],
        [4, 9, 5],
        [2, 4, 11],
        [6, 2, 10],
        [8, 6, 7],
        [9, 8, 1],
    ]
}

/// The vertices and triangles after a number of divisions.
pub open spec fn divided(levels: nat) -> (Seq<Vec3>, Seq<[usize; 3]>)
    decreases levels,
{
    if levels == 0 {
        (base_vertices(), base_triangles())
    } else {
        let (vertices, triangles) = divided((levels - 1) as nat);
        (divided_vertices(vertices, triangles), divided_triangles(vertices.len(), triangles))
    }
}

/// The points and triangles of a sphere, divided a number of times.
pub fn icosphere(levels: u32) -> (result: (Vec<Vec3>, Vec<[usize; 3]>))
    ensures
        (result.0@, result.1@) == divided(levels as nat),
        are_in_range(result.1@, result.0@.len()),
{
    let z: Float32 = Float32 { bits: 0 };
    let s: Float32 = Float32 { bits: SHORT };
    let l: Float32 = Float32 { bits: LONG };
    let ns: Float32 = Float32 { bits: 0x8000_0000 | SHORT };
    let nl: Float32 = Float32 { bits: 0x8000_0000 | LONG };
    let mut vertices: Vec<Vec3> = vec![
        Vec3 { x: ns, y: l, z: z },
        Vec3 { x: s, y: l, z: z },
        Vec3 { x: ns, y: nl, z: z },
        Vec3 { x: s, y: nl, z: z },
        Vec3 { x: z, y: ns, z: l },
        Vec3 { x: z, y: s, z: l },
        Vec3 { x: z, y: ns, z: nl },
        Vec3 { x: z, y: s, z: nl },
        Vec3 { x: l, y: z, z: ns },
        Vec3 { x: l, y: z, z: s },
        Vec3 { x: nl, y: z, z: ns },
        Vec3 { x: nl, y: z, z: s },
    ];
    let mut triangles: Vec<[usize; 3]> = vec![
        [0, 11, 5],
        [0, 5, 1],
        [0, 1, 7],
        [0, 7, 10],
        [0, 10, 11],
        [1, 5, 9],
        [5, 11, 4],
        [11, 10, 2],
        [10, 7, 6],
        [7, 1, 8],
        [3, 9, 4],
        [3, 4, 2],
        [3, 2, 6],
        [3, 6, 8],
        [3, 8, 9],
        [4, 9, 5],
        [2, 4, 11],
        [6, 2, 10],
        [8, 6, 7],
        [9, 8, 1],
    ];
    proof {
        assert(vertices@ =~= base_vertices());
        let base = base_triangles();
        assert forall|t: int| 0 <= t < 20 implies #[trigger] triangles@[t] == base[t] by {
            assert(triangles@[t]@ =~= base[t]@);
            assert(triangles@[t] =~= base[t]);
        }
        assert(triangles@ =~= base);
        assert forall|t: int, k: int| 0 <= t < 20 && 0 <= k < 3 implies #[trigger] base[t][k]
            < 12 by {
            assert(k == 0 || k == 1 || k == 2);
        }
    }
    let mut level: u32 = 0;
    while level < levels
        invariant
            level <= levels,
            (vertices@, triangles@) == divided(level as nat),
            are_in_range(triangles@, vertices@.len()),
        decreases levels - level,
    {
        let next: Vec<[usize; 3]> = subdivide(&mut vertices, &triangles);
        triangles = next;
        level += 1;
    }
    (vertices, triangles)
}

/// The mesh of a sphere, divided a number of times.
pub fn icosphere_mesh(levels: u32) -> (result: Mesh)
    ensures
        result@ == mesh_of(
            Seq::new(
                divided(levels as nat).0.len(),
                |i: int| plain_vertex(divided(levels as nat).0[i], None, None, false),
            ),
            divided(levels as nat).1,
        ),
{
    let (points, triangles): (Vec<Vec3>, Vec<[usize; 3]>) = icosphere(levels);
    let mut vertices: Vec<MeshVertex> = Vec::new();
    let mut i: usize = 0;
    while i < points.len()
        invariant
            i <= points@.len(),
            vertices@ =~= Seq::new(
                i as nat,
                |j: int| plain_vertex(points@[j], None, None, false),
            ),
        decreases points@.len() - i,
    {
        vertices.push(MeshVertex::new(points[i], None, None));
        i += 1;
    }
    let ghost wanted = Seq::new(
        divided(levels as nat).0.len(),
        |j: int| plain_vertex(divided(levels as nat).0[j], None, None, false),
    );
    assert(vertices@ =~= wanted);
    Mesh::new(vertices, triangles)
}

/// Every division makes four times as many triangles.
pub proof fn law_divisions_quadruple(levels: nat)
    ensures
        divided(levels).1.len() == 20 * vstd::arithmetic::power::pow(4, levels),
    decreases levels,
{
    vstd::arithmetic::power::lemma_pow0(4);
    if levels > 0 {
        law_divisions_quadruple((levels - 1) as nat);
        vstd::arithmetic::power::lemma_pow_adds(4, 1, (levels - 1) as nat);
        vstd::arithmetic::power::lemma_pow1(4);
    }
}

} // verus!
