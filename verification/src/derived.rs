//! Normals and tangents that are derived from the faces of a mesh.
//!
//! Each face adds its outer product to its corners. Its length is twice the area of the face, so
//! the normals are weighted by area. Corners that came from the same position share their sum.

use crate::float::{Float32, HALF, ONE};
use crate::math::{Vec2, Vec3, Vec4};
use crate::mesh::MeshVertex;
use std::collections::HashMap;
use vstd::prelude::*;
use vstd::std_specs::hash::*;

verus! {

/// The bits of the distance from one to the next larger value.
pub const EPSILON: u32 = 0x3400_0000;

/// The vector of zeros.
pub open spec fn nothing() -> Vec3 {
    Vec3 { x: Float32 { bits: 0 }, y: Float32 { bits: 0 }, z: Float32 { bits: 0 } }
}

fn make_nothing() -> (result: Vec3)
    ensures
        result == nothing(),
{
    Vec3 { x: Float32 { bits: 0 }, y: Float32 { bits: 0 }, z: Float32 { bits: 0 } }
}

/// Whether all corners of a triangle are vertices.
pub open spec fn corners_exist(triangle: [usize; 3], count: nat) -> bool {
    triangle[0] < count && triangle[1] < count && triangle[2] < count
}

/// The outer product of two edges of a face.
pub open spec fn face_normal(vertices: Seq<MeshVertex>, triangle: [usize; 3]) -> Vec3 {
    let a = vertices[triangle[0] as int].position;
    let b = vertices[triangle[1] as int].position;
    let c = vertices[triangle[2] as int].position;
    (b - a).cross_product(c - a)
}

/// Whether a vertex came from a position.
pub open spec fn comes_from(position_indices: Seq<usize>, vertex: usize, position: usize) -> bool {
    vertex < position_indices.len() && position_indices[vertex as int] == position
}

/// A sum, with a term more where it applies.
pub open spec fn plus_if(sum: Vec3, applies: bool, term: Vec3) -> Vec3 {
    if applies {
        sum + term
    } else {
        sum
    }
}

/// What the first `count` faces add up to at a position.
pub open spec fn normal_sum(
    vertices: Seq<MeshVertex>,
    triangles: Seq<[usize; 3]>,
    position_indices: Seq<usize>,
    position: usize,
    count: int,
) -> Vec3
    decreases count,
{
    if count <= 0 {
        nothing()
    } else {
        let before = normal_sum(vertices, triangles, position_indices, position, count - 1);
        let triangle = triangles[count - 1];
        if corners_exist(triangle, vertices.len()) {
            let face = face_normal(vertices, triangle);
            let first = plus_if(before, comes_from(position_indices, triangle[0], position), face);
            let second = plus_if(first, comes_from(position_indices, triangle[1], position), face);
            plus_if(second, comes_from(position_indices, triangle[2], position), face)
        } else {
            before
        }
    }
}

/// The direction of a sum, and straight along the third axis where it has none.
pub open spec fn direction_of(sum: Vec3) -> Vec3 {
    if (Float32 { bits: 0 }).less(sum.norm()) {
        sum.unit()
    } else {
        Vec3 { x: Float32 { bits: 0 }, y: Float32 { bits: 0 }, z: Float32 { bits: ONE } }
    }
}

/// The normal that is derived for a vertex.
pub open spec fn derived_normal(
    vertices: Seq<MeshVertex>,
    triangles: Seq<[usize; 3]>,
    position_indices: Seq<usize>,
    index: int,
) -> Vec3 {
    if index < position_indices.len() {
        direction_of(
            normal_sum(
                vertices,
                triangles,
                position_indices,
                position_indices[index],
                triangles.len() as int,
            ),
        )
    } else {
        direction_of(nothing())
    }
}

/// The vertices with the normals that are to be derived.
pub open spec fn with_normals(
    vertices: Seq<MeshVertex>,
    triangles: Seq<[usize; 3]>,
    position_indices: Seq<usize>,
) -> Seq<MeshVertex> {
    Seq::new(
        vertices.len(),
        |i: int|
            if vertices[i].normal_derived {
                MeshVertex {
                    normal: Some(derived_normal(vertices, triangles, position_indices, i)),
                    ..vertices[i]
                }
            } else {
                vertices[i]
            },
    )
}

/// Whether a table holds what the first `count` faces add up to.
spec fn holds_sums(
    table: Map<usize, Vec3>,
    vertices: Seq<MeshVertex>,
    triangles: Seq<[usize; 3]>,
    position_indices: Seq<usize>,
    count: int,
) -> bool {
    forall|p: usize| #[trigger]
        entry(table, p) == normal_sum(vertices, triangles, position_indices, p, count)
}

/// What a table holds for a position: nothing where it has no entry.
spec fn entry(table: Map<usize, Vec3>, position: usize) -> Vec3 {
    if table.contains_key(position) {
        table[position]
    } else {
        nothing()
    }
}

fn read_entry(table: &HashMap<usize, Vec3>, position: usize) -> (result: Vec3)
    ensures
        result == entry(table@, position),
{
    broadcast use vstd::std_specs::hash::group_hash_axioms;

    match table.get(&position) {
        Some(sum) => *sum,
        None => make_nothing(),
    }
}

/// Adds a face to the sum of the position that a corner came from.
fn add_at(
    table: &mut HashMap<usize, Vec3>,
    position_indices: &Vec<usize>,
    corner: usize,
    face: Vec3,
)
    ensures
        forall|p: usize| #[trigger]
            entry(final(table)@, p) == plus_if(
                entry(old(table)@, p),
                comes_from(position_indices@, corner, p),
                face,
            ),
{
    broadcast use vstd::std_specs::hash::group_hash_axioms;

    if corner < position_indices.len() {
        let position: usize = position_indices[corner];
        let sum: Vec3 = read_entry(table, position);
        table.insert(position, sum + face);
    }
}

/// Derives the normals that no source gave.
pub fn generate_missing_normals(
    vertices: &mut Vec<MeshVertex>,
    triangles: &Vec<[usize; 3]>,
    position_indices: &Vec<usize>,
)
    ensures
        final(vertices)@ == with_normals(old(vertices)@, triangles@, position_indices@),
{
    broadcast use vstd::std_specs::hash::group_hash_axioms;

    let ghost given = vertices@;
    let mut table: HashMap<usize, Vec3> = HashMap::new();
    let mut t: usize = 0;
    while t < triangles.len()
        invariant
            t <= triangles@.len(),
            vertices@ == given,
            holds_sums(table@, given, triangles@, position_indices@, t as int),
        decreases triangles@.len() - t,
    {
        let triangle: [usize; 3] = triangles[t];
        if triangle[0] < vertices.len() && triangle[1] < vertices.len() && triangle[2]
            < vertices.len() {
            let a: Vec3 = vertices[triangle[0]].position;
            let b: Vec3 = vertices[triangle[1]].position;
            let c: Vec3 = vertices[triangle[2]].position;
            let face: Vec3 = (b - a).cross(c - a);
            add_at(&mut table, position_indices, triangle[0], face);
            add_at(&mut table, position_indices, triangle[1], face);
            add_at(&mut table, position_indices, triangle[2], face);
        }
        t += 1;
    }
    let mut i: usize = 0;
    while i < vertices.len()
        invariant
            i <= vertices@.len(),
            vertices@.len() == given.len(),
            holds_sums(table@, given, triangles@, position_indices@, triangles@.len() as int),
            forall|j: int|
                0 <= j < i ==> vertices@[j] == with_normals(given, triangles@, position_indices@)[j],
            forall|j: int| i <= j < given.len() ==> vertices@[j] == given[j],
        decreases vertices@.len() - i,
    {
        let mut vertex: MeshVertex = vertices[i];
        if vertex.normal_derived {
            let sum: Vec3 = if i < position_indices.len() {
                read_entry(&table, position_indices[i])
            } else {
                make_nothing()
            };
            let zero: Float32 = Float32 { bits: 0 };
            let normal: Vec3 = if zero.is_less(sum.length()) {
                sum.normalize()
            } else {
                Vec3 { x: Float32 { bits: 0 }, y: Float32 { bits: 0 }, z: Float32 { bits: ONE } }
            };
            assert(normal == derived_normal(given, triangles@, position_indices@, i as int)) by {
                if i < position_indices@.len() {
                    assert(entry(table@, position_indices@[i as int]) == normal_sum(
                        given,
                        triangles@,
                        position_indices@,
                        position_indices@[i as int],
                        triangles@.len() as int,
                    ));
                }
            }
            vertex.normal = Some(normal);
            vertices.set(i, vertex);
        }
        i += 1;
    }
    assert(vertices@ =~= with_normals(given, triangles@, position_indices@));
}

/// The directions in which the texture coordinates of a face grow, each weighted by its area:
/// none where the face lacks a texture coordinate or they span nothing.
pub open spec fn face_frame(vertices: Seq<MeshVertex>, triangle: [usize; 3]) -> Option<
    (Vec3, Vec3),
> {
    if !corners_exist(triangle, vertices.len()) {
        None
    } else {
        let a = vertices[triangle[0] as int];
        let b = vertices[triangle[1] as int];
        let c = vertices[triangle[2] as int];
        match (a.texcoord, b.texcoord, c.texcoord) {
            (Some(uv_a), Some(uv_b), Some(uv_c)) => {
                let ab = b.position - a.position;
                let ac = c.position - a.position;
                let uv_ab = uv_b - uv_a;
                let uv_ac = uv_c - uv_a;
                let spanned = uv_ab.x * uv_ac.y - uv_ab.y * uv_ac.x;
                if spanned.absolute().at_most(Float32 { bits: EPSILON }) {
                    None
                } else {
                    let weight = ab.cross_product(ac).norm() * (Float32 { bits: HALF });
                    Some(
                        (
                            ((ab * uv_ac.y - ac * uv_ab.y) / spanned) * weight,
                            ((ac * uv_ab.x - ab * uv_ac.x) / spanned) * weight,
                        ),
                    )
                }
            },
            _ => None,
        }
    }
}

/// What the first `count` faces add up to at a vertex, in both directions.
pub open spec fn frame_sum(
    vertices: Seq<MeshVertex>,
    triangles: Seq<[usize; 3]>,
    index: int,
    count: int,
) -> (Vec3, Vec3)
    decreases count,
{
    if count <= 0 {
        (nothing(), nothing())
    } else {
        let before = frame_sum(vertices, triangles, index, count - 1);
        let triangle = triangles[count - 1];
        match face_frame(vertices, triangle) {
            None => before,
            Some(frame) => {
                let first = frame_plus_if(before, triangle[0] == index, frame);
                let second = frame_plus_if(first, triangle[1] == index, frame);
                frame_plus_if(second, triangle[2] == index, frame)
            },
        }
    }
}

/// Two sums, with a term more each where it applies.
pub open spec fn frame_plus_if(sums: (Vec3, Vec3), applies: bool, terms: (Vec3, Vec3)) -> (
    Vec3,
    Vec3,
) {
    (plus_if(sums.0, applies, terms.0), plus_if(sums.1, applies, terms.1))
}

/// The tangent of a vertex with this normal, and the sign that the bitangent is rebuilt with.
pub open spec fn tangent_of(normal: Option<Vec3>, sums: (Vec3, Vec3)) -> Option<Vec4> {
    match normal {
        None => None,
        Some(given) => {
            let along = given.unit();
            let tangent = (sums.0 - along * along.dot_product(sums.0)).unit();
            if tangent.norm().magnitude() == 0 {
                None
            } else {
                let turned = along.cross_product(tangent).dot_product(sums.1).less(
                    Float32 { bits: 0 },
                );
                Some(
                    Vec4 {
                        x: tangent.x,
                        y: tangent.y,
                        z: tangent.z,
                        w: if turned {
                            (Float32 { bits: ONE }).opposite()
                        } else {
                            Float32 { bits: ONE }
                        },
                    },
                )
            }
        },
    }
}

/// The vertices with their tangents.
pub open spec fn with_tangents(vertices: Seq<MeshVertex>, triangles: Seq<[usize; 3]>) -> Seq<
    MeshVertex,
> {
    Seq::new(
        vertices.len(),
        |i: int|
            MeshVertex {
                tangent: tangent_of(
                    vertices[i].normal,
                    frame_sum(vertices, triangles, i, triangles.len() as int),
                ),
                ..vertices[i]
            },
    )
}

fn find_face_frame(vertices: &Vec<MeshVertex>, triangle: [usize; 3]) -> (result: Option<
    (Vec3, Vec3),
>)
    ensures
        result == face_frame(vertices@, triangle),
{
    if triangle[0] >= vertices.len() || triangle[1] >= vertices.len() || triangle[2]
        >= vertices.len() {
        return None;
    }
    let a: MeshVertex = vertices[triangle[0]];
    let b: MeshVertex = vertices[triangle[1]];
    let c: MeshVertex = vertices[triangle[2]];
    match (a.texcoord, b.texcoord, c.texcoord) {
        (Some(uv_a), Some(uv_b), Some(uv_c)) => {
            let ab: Vec3 = b.position - a.position;
            let ac: Vec3 = c.position - a.position;
            let uv_ab: Vec2 = uv_b - uv_a;
            let uv_ac: Vec2 = uv_c - uv_a;
            let spanned: Float32 = uv_ab.x * uv_ac.y - uv_ab.y * uv_ac.x;
            let limit: Float32 = Float32 { bits: EPSILON };
            if spanned.abs().is_at_most(limit) {
                return None;
            }
            let tangent: Vec3 = (ab * uv_ac.y - ac * uv_ab.y) / spanned;
            let bitangent: Vec3 = (ac * uv_ab.x - ab * uv_ac.x) / spanned;
            let weight: Float32 = ab.cross(ac).length() * Float32 { bits: HALF };
            Some((tangent * weight, bitangent * weight))
        },
        _ => None,
    }
}

fn add_frame(sums: &mut Vec<(Vec3, Vec3)>, corner: usize, frame: (Vec3, Vec3))
    requires
        corner < old(sums)@.len(),
    ensures
        final(sums)@.len() == old(sums)@.len(),
        forall|i: int|
            0 <= i < old(sums)@.len() ==> #[trigger] final(sums)@[i] == frame_plus_if(
                old(sums)@[i],
                corner == i,
                frame,
            ),
{
    let before: (Vec3, Vec3) = sums[corner];
    sums.set(corner, (before.0 + frame.0, before.1 + frame.1));
}

fn find_tangent(normal: Option<Vec3>, sums: (Vec3, Vec3)) -> (result: Option<Vec4>)
    ensures
        result == tangent_of(normal, sums),
{
    match normal {
        None => None,
        Some(given) => {
            let along: Vec3 = given.normalize();
            let tangent: Vec3 = (sums.0 - along * along.dot(sums.0)).normalize();
            if tangent.length().is_zero() {
                return None;
            }
            let one: Float32 = Float32 { bits: ONE };
            let zero: Float32 = Float32 { bits: 0 };
            let sign: Float32 = if along.cross(tangent).dot(sums.1).is_less(zero) {
                one.negate()
            } else {
                one
            };
            Some(Vec4 { x: tangent.x, y: tangent.y, z: tangent.z, w: sign })
        },
    }
}

/// Derives the tangents. A vertex that lacks something they are derived from has none.
pub fn generate_tangents(vertices: &mut Vec<MeshVertex>, triangles: &Vec<[usize; 3]>)
    ensures
        final(vertices)@ == with_tangents(old(vertices)@, triangles@),
{
    let ghost given = vertices@;
    let mut sums: Vec<(Vec3, Vec3)> = Vec::new();
    let mut i: usize = 0;
    while i < vertices.len()
        invariant
            i <= vertices@.len(),
            vertices@ == given,
            sums@.len() == i,
            forall|j: int| 0 <= j < i ==> #[trigger] sums@[j] == (nothing(), nothing()),
        decreases vertices@.len() - i,
    {
        sums.push((make_nothing(), make_nothing()));
        i += 1;
    }
    let mut t: usize = 0;
    while t < triangles.len()
        invariant
            t <= triangles@.len(),
            vertices@ == given,
            sums@.len() == given.len(),
            forall|j: int|
                0 <= j < given.len() ==> #[trigger] sums@[j] == frame_sum(
                    given,
                    triangles@,
                    j,
                    t as int,
                ),
        decreases triangles@.len() - t,
    {
        let triangle: [usize; 3] = triangles[t];
        match find_face_frame(vertices, triangle) {
            None => {},
            Some(frame) => {
                add_frame(&mut sums, triangle[0], frame);
                add_frame(&mut sums, triangle[1], frame);
                add_frame(&mut sums, triangle[2], frame);
            },
        }
        t += 1;
    }
    let mut v: usize = 0;
    while v < vertices.len()
        invariant
            v <= vertices@.len(),
            vertices@.len() == given.len(),
            sums@.len() == given.len(),
            forall|j: int|
                0 <= j < given.len() ==> #[trigger] sums@[j] == frame_sum(
                    given,
                    triangles@,
                    j,
                    triangles@.len() as int,
                ),
            forall|j: int| 0 <= j < v ==> vertices@[j] == with_tangents(given, triangles@)[j],
            forall|j: int| v <= j < given.len() ==> vertices@[j] == given[j],
        decreases vertices@.len() - v,
    {
        let mut vertex: MeshVertex = vertices[v];
        vertex.tangent = find_tangent(vertex.normal, sums[v]);
        vertices.set(v, vertex);
        v += 1;
    }
    assert(vertices@ =~= with_tangents(given, triangles@));
}

} // verus!
