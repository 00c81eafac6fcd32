//! What the errors of collapsing edges measure: the distances of the merged vertex from the planes
//! of the faces around either end.

use crate::arith::law_sums_commute;
use crate::collapse::{midpoint, QuadricRule};
use crate::derived::{corners_exist, face_normal, EPSILON};
use crate::float::{Float32, HALF, TWO};
use crate::math::Vec3;
use crate::mesh::MeshVertex;
use crate::qem::{face_quadric, quadric_at, quadric_plus_if, vertex_quadric, Quadric};
use crate::reals::{
    close, law_directions_are_short, law_small_constants, law_values_keep_order,
    lemma_close_opposite,
    lemma_close_product, lemma_close_start, lemma_close_sum, lemma_close_wider,
    lemma_product_grows, lemma_product_of_sum, lemma_product_regroups, size,
};
use crate::round::{better, RoundModel};
use crate::topology::Edge;
use vstd::prelude::*;

verus! {

/// A vertex index after two indices were exchanged.
pub open spec fn renumbered(index: usize, first: usize, second: usize) -> usize {
    if index == first {
        second
    } else if index == second {
        first
    } else {
        index
    }
}

/// Whether a mesh is another one with the numbers of two vertices exchanged.
pub open spec fn is_renumbered(
    vertices: Seq<MeshVertex>,
    triangles: Seq<[usize; 3]>,
    other_vertices: Seq<MeshVertex>,
    other_triangles: Seq<[usize; 3]>,
    first: usize,
    second: usize,
) -> bool {
    &&& first < vertices.len() && second < vertices.len()
    &&& other_vertices.len() == vertices.len()
    &&& other_triangles.len() == triangles.len()
    &&& forall|i: usize|
        i < vertices.len() ==> #[trigger] other_vertices[renumbered(i, first, second) as int]
            == vertices[i as int]
    &&& forall|t: int, k: int|
        0 <= t < triangles.len() && 0 <= k < 3 ==> #[trigger] other_triangles[t][k] == renumbered(
            triangles[t][k],
            first,
            second,
        )
}

/// Sums of quadrics do not depend on the order.
proof fn lemma_quadrics_commute(first: Quadric, second: Quadric)
    ensures
        first + second == second + first,
{
    law_sums_commute(first.xx, second.xx);
    law_sums_commute(first.xy, second.xy);
    law_sums_commute(first.xz, second.xz);
    law_sums_commute(first.xw, second.xw);
    law_sums_commute(first.yy, second.yy);
    law_sums_commute(first.yz, second.yz);
    law_sums_commute(first.yw, second.yw);
    law_sums_commute(first.zz, second.zz);
    law_sums_commute(first.zw, second.zw);
    law_sums_commute(first.ww, second.ww);
}

/// The middle of an edge does not depend on the direction of the edge.
proof fn lemma_middles_commute(vertices: Seq<MeshVertex>, edge: Edge)
    ensures
        midpoint(vertices, edge) == midpoint(vertices, (edge.1, edge.0)),
{
    let (p, q) = (vertices[edge.0 as int].position, vertices[edge.1 as int].position);
    law_sums_commute(p.x, q.x);
    law_sums_commute(p.y, q.y);
    law_sums_commute(p.z, q.z);
}

/// The quadric of a vertex is that of the same vertex under its other number.
proof fn lemma_quadrics_are_renumbered(
    vertices: Seq<MeshVertex>,
    triangles: Seq<[usize; 3]>,
    other_vertices: Seq<MeshVertex>,
    other_triangles: Seq<[usize; 3]>,
    first: usize,
    second: usize,
    index: usize,
    count: int,
)
    requires
        is_renumbered(vertices, triangles, other_vertices, other_triangles, first, second),
        index < vertices.len(),
        count <= triangles.len(),
    ensures
        quadric_at(
            other_vertices,
            other_triangles,
            renumbered(index, first, second) as int,
            count,
        ) == quadric_at(vertices, triangles, index as int, count),
    decreases count,
{
    if count > 0 {
        lemma_quadrics_are_renumbered(
            vertices,
            triangles,
            other_vertices,
            other_triangles,
            first,
            second,
            index,
            count - 1,
        );
        let triangle = triangles[count - 1];
        let other = other_triangles[count - 1];
        assert(other[0] == renumbered(triangle[0], first, second));
        assert(other[1] == renumbered(triangle[1], first, second));
        assert(other[2] == renumbered(triangle[2], first, second));
        assert(face_quadric(other_vertices, other) == face_quadric(vertices, triangle)) by {
            if corners_exist(triangle, vertices.len()) {
                assert(other_vertices[other[0] as int] == vertices[triangle[0] as int]);
                assert(other_vertices[other[1] as int] == vertices[triangle[1] as int]);
                assert(other_vertices[other[2] as int] == vertices[triangle[2] as int]);
                assert(face_normal(other_vertices, other) == face_normal(vertices, triangle));
            }
        }
    }
}

/// An edge weighs the same in either direction: the error and the merged position are those of the
/// edge taken from its other end.
pub proof fn law_edges_weigh_the_same_from_either_end(
    rule: QuadricRule,
    vertices: Seq<MeshVertex>,
    triangles: Seq<[usize; 3]>,
    edge: Edge,
)
    ensures
        rule.candidate(vertices, triangles, (edge.1, edge.0)) == rule.candidate(
            vertices,
            triangles,
            edge,
        ),
{
    lemma_middles_commute(vertices, edge);
    lemma_quadrics_commute(
        vertex_quadric(vertices, triangles, edge.0 as int),
        vertex_quadric(vertices, triangles, edge.1 as int),
    );
}

/// The numbers of the two ends of an edge do not matter: the edge has the same error and the same
/// merged position in the mesh with the two numbers exchanged.
pub proof fn law_renumbered_edges_weigh_the_same(
    rule: QuadricRule,
    vertices: Seq<MeshVertex>,
    triangles: Seq<[usize; 3]>,
    other_vertices: Seq<MeshVertex>,
    other_triangles: Seq<[usize; 3]>,
    edge: Edge,
)
    requires
        is_renumbered(vertices, triangles, other_vertices, other_triangles, edge.0, edge.1),
    ensures
        rule.candidate(other_vertices, other_triangles, edge) == rule.candidate(
            vertices,
            triangles,
            edge,
        ),
{
    let (a, b) = edge;
    let count = triangles.len() as int;
    lemma_quadrics_are_renumbered(
        vertices,
        triangles,
        other_vertices,
        other_triangles,
        a,
        b,
        a,
        count,
    );
    lemma_quadrics_are_renumbered(
        vertices,
        triangles,
        other_vertices,
        other_triangles,
        a,
        b,
        b,
        count,
    );
    law_edges_weigh_the_same_from_either_end(rule, vertices, triangles, edge);
    assert(other_vertices[renumbered(a, a, b) as int] == vertices[a as int]);
    assert(other_vertices[renumbered(b, a, b) as int] == vertices[b as int]);
}

/// The squared distances from a set of planes without rounding.
pub struct ExactQuadric {
    pub xx: real,
    pub xy: real,
    pub xz: real,
    pub xw: real,
    pub yy: real,
    pub yz: real,
    pub yw: real,
    pub zz: real,
    pub zw: real,
    pub ww: real,
}

impl ExactQuadric {
    spec fn none() -> ExactQuadric {
        let n = 0real;
        ExactQuadric { xx: n, xy: n, xz: n, xw: n, yy: n, yz: n, yw: n, zz: n, zw: n, ww: n }
    }

    spec fn of_plane(x: real, y: real, z: real, w: real) -> ExactQuadric {
        ExactQuadric {
            xx: x * x,
            xy: x * y,
            xz: x * z,
            xw: x * w,
            yy: y * y,
            yz: y * z,
            yw: y * w,
            zz: z * z,
            zw: z * w,
            ww: w * w,
        }
    }

    spec fn with(self, other: ExactQuadric) -> ExactQuadric {
        ExactQuadric {
            xx: self.xx + other.xx,
            xy: self.xy + other.xy,
            xz: self.xz + other.xz,
            xw: self.xw + other.xw,
            yy: self.yy + other.yy,
            yz: self.yz + other.yz,
            yw: self.yw + other.yw,
            zz: self.zz + other.zz,
            zw: self.zw + other.zw,
            ww: self.ww + other.ww,
        }
    }

    spec fn error(self, x: real, y: real, z: real) -> real {
        self.xx * x * x + 2real * self.xy * x * y + 2real * self.xz * x * z + 2real * self.xw * x
            + self.yy * y * y + 2real * self.yz * y * z + 2real * self.yw * y + self.zz * z * z
            + 2real * self.zw * z + self.ww
    }
}

/// Whether the coordinates of a vector are at most this far from zero.
pub open spec fn reaches(vector: Vec3, r: real) -> bool {
    &&& vector.x.finite() && size(vector.x.value()) <= r
    &&& vector.y.finite() && size(vector.y.value()) <= r
    &&& vector.z.finite() && size(vector.z.value()) <= r
}

/// Whether a rounded quadric is close to an exact one.
spec fn close_quadric(q: Quadric, e: ExactQuadric, b: real, r: real, steps: int) -> bool {
    let wr = b * r;
    &&& close(q.xx, e.xx, 2real * b, steps)
    &&& close(q.xy, e.xy, 2real * b, steps)
    &&& close(q.xz, e.xz, 2real * b, steps)
    &&& close(q.yy, e.yy, 2real * b, steps)
    &&& close(q.yz, e.yz, 2real * b, steps)
    &&& close(q.zz, e.zz, 2real * b, steps)
    &&& close(q.xw, e.xw, 5real * wr, steps)
    &&& close(q.yw, e.yw, 5real * wr, steps)
    &&& close(q.zw, e.zw, 5real * wr, steps)
    &&& close(q.ww, e.ww, 16real * (wr * r), steps)
}

/// Whether a factor and a reach are small enough for every step to stay finite.
spec fn is_moderate(b: real, r: real) -> bool {
    1real <= b <= 1024real && 1real <= r <= 33554432real
}

proof fn lemma_moderate(b: real, r: real)
    requires
        is_moderate(b, r),
    ensures
        b <= b * r <= 34359738368real,
        r <= b * r,
        b * r <= (b * r) * r <= 1152921504606846976real,
{
    assert(b * r >= b && b * r >= r && b * r <= 34359738368real) by (nonlinear_arith)
        requires
            1real <= b <= 1024real,
            1real <= r <= 33554432real,
    ;
    let wr = b * r;
    assert(wr * r >= wr && wr * r <= 1152921504606846976real) by (nonlinear_arith)
        requires
            1real <= wr <= 34359738368real,
            1real <= r <= 33554432real,
    ;
}

/// The product of a coordinate of a direction and one of a point.
proof fn lemma_close_coordinate(n: Float32, a: Float32, r: real)
    requires
        n.finite(),
        a.finite(),
        size(n.value()) <= 5real / 4real,
        size(a.value()) <= r,
        1real <= r <= 33554432real,
    ensures
        close(n * a, n.value() * a.value(), 5real / 4real * r, 2),
{
    lemma_close_start(n, 5real / 4real);
    lemma_close_start(a, r);
    lemma_close_product(n, n.value(), 5real / 4real, 0, a, a.value(), r, 0);
}

/// The quadric of a plane is close to the exact one.
proof fn lemma_close_plane(normal: Vec3, point: Vec3, r: real)
    requires
        reaches(normal, 5real / 4real),
        reaches(point, r),
        1real <= r <= 33554432real,
    ensures
        ({
            let (x, y, z) = (normal.x.value(), normal.y.value(), normal.z.value());
            let w = -(x * point.x.value() + y * point.y.value() + z * point.z.value());
            close_quadric(
                Quadric::of_plane(normal, normal.dot_product(point).opposite()),
                ExactQuadric::of_plane(x, y, z, w),
                1real,
                r,
                14,
            )
        }),
{
    let (x, y, z) = (normal.x.value(), normal.y.value(), normal.z.value());
    let (a, b, c) = (point.x.value(), point.y.value(), point.z.value());
    let q = 5real / 4real;
    lemma_close_coordinate(normal.x, point.x, r);
    lemma_close_coordinate(normal.y, point.y, r);
    lemma_close_coordinate(normal.z, point.z, r);
    let (f, g, h) = (normal.x * point.x, normal.y * point.y, normal.z * point.z);
    lemma_close_sum(f, x * a, q * r, 2, g, y * b, q * r, 2, 2);
    lemma_close_sum(f + g, x * a + y * b, 2real * (q * r), 4, h, z * c, q * r, 2, 4);
    let sum = f + g + h;
    let exact = x * a + y * b + z * c;
    lemma_close_wider(sum, exact, 3real * (q * r), 6, 4real * r, 6);
    lemma_close_opposite(sum, exact, 4real * r, 6);
    let d = sum.opposite();
    let w = -exact;
    lemma_close_normals(normal.x, normal.x);
    lemma_close_normals(normal.x, normal.y);
    lemma_close_normals(normal.x, normal.z);
    lemma_close_normals(normal.y, normal.y);
    lemma_close_normals(normal.y, normal.z);
    lemma_close_normals(normal.z, normal.z);
    lemma_close_with_distance(normal.x, d, w, r);
    lemma_close_with_distance(normal.y, d, w, r);
    lemma_close_with_distance(normal.z, d, w, r);
    lemma_moderate(1real, r);
    let rr = (4real * r) * (4real * r);
    assert(rr == 16real * (r * r)) by (nonlinear_arith)
        requires
            rr == (4real * r) * (4real * r),
    ;
    lemma_close_product(d, w, 4real * r, 6, d, w, 4real * r, 6);
}

proof fn lemma_close_normals(first: Float32, second: Float32)
    requires
        first.finite(),
        second.finite(),
        size(first.value()) <= 5real / 4real,
        size(second.value()) <= 5real / 4real,
    ensures
        close(first * second, first.value() * second.value(), 2real, 14),
{
    let q = 5real / 4real;
    lemma_close_start(first, q);
    lemma_close_start(second, q);
    lemma_close_product(first, first.value(), q, 0, second, second.value(), q, 0);
    lemma_close_wider(first * second, first.value() * second.value(), q * q, 2, 2real, 14);
}

proof fn lemma_close_with_distance(n: Float32, d: Float32, w: real, r: real)
    requires
        n.finite(),
        size(n.value()) <= 5real / 4real,
        close(d, w, 4real * r, 6),
        1real <= r <= 33554432real,
    ensures
        close(n * d, n.value() * w, 5real * r, 14),
{
    let q = 5real / 4real;
    lemma_close_start(n, q);
    lemma_close_product(n, n.value(), q, 0, d, w, 4real * r, 6);
    lemma_close_wider(n * d, n.value() * w, q * (4real * r), 8, 5real * r, 14);
}

/// The sum of close quadrics is close to the exact sum.
proof fn lemma_close_quadrics(
    q: Quadric,
    e: ExactQuadric,
    b: real,
    s: int,
    g: Quadric,
    f: ExactQuadric,
    c: real,
    t: int,
    r: real,
    most: int,
)
    requires
        close_quadric(q, e, b, r, s),
        close_quadric(g, f, c, r, t),
        is_moderate(b, r),
        is_moderate(c, r),
        0 <= s <= most,
        0 <= t <= most,
        most <= 1000,
    ensures
        close_quadric(q + g, e.with(f), b + c, r, most + 2),
{
    lemma_moderate(b, r);
    lemma_moderate(c, r);
    lemma_product_of_sum(b, c, r);
    lemma_product_of_sum(b * r, c * r, r);
    let (u, v) = (2real * b, 2real * c);
    lemma_close_sum(q.xx, e.xx, u, s, g.xx, f.xx, v, t, most);
    lemma_close_sum(q.xy, e.xy, u, s, g.xy, f.xy, v, t, most);
    lemma_close_sum(q.xz, e.xz, u, s, g.xz, f.xz, v, t, most);
    lemma_close_sum(q.yy, e.yy, u, s, g.yy, f.yy, v, t, most);
    lemma_close_sum(q.yz, e.yz, u, s, g.yz, f.yz, v, t, most);
    lemma_close_sum(q.zz, e.zz, u, s, g.zz, f.zz, v, t, most);
    let (m, n) = (5real * (b * r), 5real * (c * r));
    lemma_close_sum(q.xw, e.xw, m, s, g.xw, f.xw, n, t, most);
    lemma_close_sum(q.yw, e.yw, m, s, g.yw, f.yw, n, t, most);
    lemma_close_sum(q.zw, e.zw, m, s, g.zw, f.zw, n, t, most);
    lemma_close_sum(
        q.ww,
        e.ww,
        16real * ((b * r) * r),
        s,
        g.ww,
        f.ww,
        16real * ((c * r) * r),
        t,
        most,
    );
}

/// A product with two coordinates is close to the exact one.
proof fn lemma_close_twice(f: Float32, e: real, m: real, s: int, p: Float32, q: Float32, r: real)
    requires
        close(f, e, m, s),
        0 <= s <= 990,
        p.finite() && q.finite(),
        size(p.value()) <= r,
        size(q.value()) <= r,
        r >= 1real,
        m * r <= 1267650600228229401496703205376real,
        (m * r) * r <= 1267650600228229401496703205376real,
    ensures
        close(f * p * q, e * p.value() * q.value(), (m * r) * r, s + 4),
{
    lemma_close_start(p, r);
    lemma_close_start(q, r);
    lemma_close_product(f, e, m, s, p, p.value(), r, 0);
    lemma_close_product(f * p, e * p.value(), m * r, s + 2, q, q.value(), r, 0);
}

/// The error of a quadric is close to that of the exact one.
proof fn lemma_close_error(q: Quadric, e: ExactQuadric, b: real, s: int, p: Vec3, r: real)
    requires
        close_quadric(q, e, b, r, s),
        is_moderate(b, r),
        reaches(p, r),
        0 <= s <= 900,
    ensures
        close(
            q.error_at(p),
            e.error(p.x.value(), p.y.value(), p.z.value()),
            64real * ((b * r) * r),
            s + 24,
        ),
{
    let (x, y, z) = (p.x.value(), p.y.value(), p.z.value());
    let two = Float32 { bits: TWO };
    lemma_moderate(b, r);
    let wr = b * r;
    let u = wr * r;
    lemma_product_regroups(2real, b, r);
    lemma_product_regroups(2real, wr, r);
    lemma_product_regroups(4real, b, r);
    lemma_product_regroups(4real, wr, r);
    lemma_product_regroups(10real, wr, r);
    lemma_close_twice(q.xx, e.xx, 2real * b, s, p.x, p.x, r);
    lemma_close_twice(q.yy, e.yy, 2real * b, s, p.y, p.y, r);
    lemma_close_twice(q.zz, e.zz, 2real * b, s, p.z, p.z, r);
    law_small_constants();
    lemma_close_start(two, 2real);
    lemma_close_product(two, 2real, 2real, 0, q.xy, e.xy, 2real * b, s);
    lemma_close_product(two, 2real, 2real, 0, q.xz, e.xz, 2real * b, s);
    lemma_close_product(two, 2real, 2real, 0, q.yz, e.yz, 2real * b, s);
    lemma_close_twice(two * q.xy, 2real * e.xy, 4real * b, s + 2, p.x, p.y, r);
    lemma_close_twice(two * q.xz, 2real * e.xz, 4real * b, s + 2, p.x, p.z, r);
    lemma_close_twice(two * q.yz, 2real * e.yz, 4real * b, s + 2, p.y, p.z, r);
    lemma_close_product(two, 2real, 2real, 0, q.xw, e.xw, 5real * wr, s);
    lemma_close_product(two, 2real, 2real, 0, q.yw, e.yw, 5real * wr, s);
    lemma_close_product(two, 2real, 2real, 0, q.zw, e.zw, 5real * wr, s);
    lemma_close_start(p.x, r);
    lemma_close_start(p.y, r);
    lemma_close_start(p.z, r);
    lemma_close_product(two * q.xw, 2real * e.xw, 10real * wr, s + 2, p.x, x, r, 0);
    lemma_close_product(two * q.yw, 2real * e.yw, 10real * wr, s + 2, p.y, y, r, 0);
    lemma_close_product(two * q.zw, 2real * e.zw, 10real * wr, s + 2, p.z, z, r, 0);
    lemma_close_total(
        (q.xx * p.x * p.x, e.xx * x * x),
        (two * q.xy * p.x * p.y, 2real * e.xy * x * y),
        (two * q.xz * p.x * p.z, 2real * e.xz * x * z),
        (two * q.xw * p.x, 2real * e.xw * x),
        (q.yy * p.y * p.y, e.yy * y * y),
        (two * q.yz * p.y * p.z, 2real * e.yz * y * z),
        (two * q.yw * p.y, 2real * e.yw * y),
        (q.zz * p.z * p.z, e.zz * z * z),
        (two * q.zw * p.z, 2real * e.zw * z),
        (q.ww, e.ww),
        u,
        s,
    );
}

/// The sum of the ten terms of an error is close to the exact sum.
proof fn lemma_close_total(
    t1: (Float32, real),
    t2: (Float32, real),
    t3: (Float32, real),
    t4: (Float32, real),
    t5: (Float32, real),
    t6: (Float32, real),
    t7: (Float32, real),
    t8: (Float32, real),
    t9: (Float32, real),
    t10: (Float32, real),
    u: real,
    s: int,
)
    requires
        close(t1.0, t1.1, 2real * u, s + 4),
        close(t2.0, t2.1, 4real * u, s + 6),
        close(t3.0, t3.1, 4real * u, s + 6),
        close(t4.0, t4.1, 10real * u, s + 4),
        close(t5.0, t5.1, 2real * u, s + 4),
        close(t6.0, t6.1, 4real * u, s + 6),
        close(t7.0, t7.1, 10real * u, s + 4),
        close(t8.0, t8.1, 2real * u, s + 4),
        close(t9.0, t9.1, 10real * u, s + 4),
        close(t10.0, t10.1, 16real * u, s),
        1real <= u <= 1152921504606846976real,
        0 <= s <= 900,
    ensures
        close(
            t1.0 + t2.0 + t3.0 + t4.0 + t5.0 + t6.0 + t7.0 + t8.0 + t9.0 + t10.0,
            t1.1 + t2.1 + t3.1 + t4.1 + t5.1 + t6.1 + t7.1 + t8.1 + t9.1 + t10.1,
            64real * u,
            s + 24,
        ),
{
    let (f, x) = (t1.0 + t2.0, t1.1 + t2.1);
    lemma_close_sum(t1.0, t1.1, 2real * u, s + 4, t2.0, t2.1, 4real * u, s + 6, s + 6);
    lemma_close_sum(f, x, 6real * u, s + 8, t3.0, t3.1, 4real * u, s + 6, s + 8);
    let (f, x) = (f + t3.0, x + t3.1);
    lemma_close_sum(f, x, 10real * u, s + 10, t4.0, t4.1, 10real * u, s + 4, s + 10);
    let (f, x) = (f + t4.0, x + t4.1);
    lemma_close_sum(f, x, 20real * u, s + 12, t5.0, t5.1, 2real * u, s + 4, s + 12);
    let (f, x) = (f + t5.0, x + t5.1);
    lemma_close_sum(f, x, 22real * u, s + 14, t6.0, t6.1, 4real * u, s + 6, s + 14);
    let (f, x) = (f + t6.0, x + t6.1);
    lemma_close_sum(f, x, 26real * u, s + 16, t7.0, t7.1, 10real * u, s + 4, s + 16);
    let (f, x) = (f + t7.0, x + t7.1);
    lemma_close_sum(f, x, 36real * u, s + 18, t8.0, t8.1, 2real * u, s + 4, s + 18);
    let (f, x) = (f + t8.0, x + t8.1);
    lemma_close_sum(f, x, 38real * u, s + 20, t9.0, t9.1, 10real * u, s + 4, s + 20);
    let (f, x) = (f + t9.0, x + t9.1);
    lemma_close_sum(f, x, 48real * u, s + 22, t10.0, t10.1, 16real * u, s, s + 22);
}

/// Whether a face has an area that counts.
pub open spec fn has_area(vertices: Seq<MeshVertex>, triangle: [usize; 3]) -> bool {
    &&& corners_exist(triangle, vertices.len())
    &&& face_normal(vertices, triangle).norm().finite()
    &&& !face_normal(vertices, triangle).norm().at_most(Float32 { bits: EPSILON })
}

/// The direction that a face is turned to.
pub open spec fn direction_of(vertices: Seq<MeshVertex>, triangle: [usize; 3]) -> Vec3 {
    face_normal(vertices, triangle) / face_normal(vertices, triangle).norm()
}

/// How far a point lies above the plane of a face.
pub open spec fn height_above(
    vertices: Seq<MeshVertex>,
    triangle: [usize; 3],
    point: Vec3,
) -> real {
    let normal = direction_of(vertices, triangle);
    let corner = vertices[triangle[0] as int].position;
    normal.x.value() * (point.x.value() - corner.x.value()) + normal.y.value() * (point.y.value()
        - corner.y.value()) + normal.z.value() * (point.z.value() - corner.z.value())
}

/// The square of the distance of a point from the plane of a face.
pub open spec fn square_above(
    vertices: Seq<MeshVertex>,
    triangle: [usize; 3],
    point: Vec3,
) -> real {
    height_above(vertices, triangle, point) * height_above(vertices, triangle, point)
}

/// How many corners of a face are at a vertex.
pub open spec fn corners_of(triangle: [usize; 3], index: int) -> int {
    (if triangle[0] == index {
        1int
    } else {
        0
    }) + (if triangle[1] == index {
        1int
    } else {
        0
    }) + (if triangle[2] == index {
        1int
    } else {
        0
    })
}

/// How many corners of the first `count` faces are at a vertex.
pub open spec fn corners_at(triangles: Seq<[usize; 3]>, index: int, count: int) -> int
    decreases count,
{
    if count <= 0 {
        0
    } else {
        corners_at(triangles, index, count - 1) + corners_of(triangles[count - 1], index)
    }
}

/// The squared distances of a point from the planes of the first `count` faces with an area, as
/// often as each has a corner at a vertex.
pub open spec fn squares_at(
    vertices: Seq<MeshVertex>,
    triangles: Seq<[usize; 3]>,
    index: int,
    point: Vec3,
    count: int,
) -> real
    decreases count,
{
    if count <= 0 {
        0real
    } else {
        squares_at(vertices, triangles, index, point, count - 1) + (if has_area(
            vertices,
            triangles[count - 1],
        ) {
            corners_of(triangles[count - 1], index) as real * square_above(
                vertices,
                triangles[count - 1],
                point,
            )
        } else {
            0real
        })
    }
}

/// The difference of two close coordinates.
proof fn lemma_close_difference(b: Float32, a: Float32, r: real)
    requires
        a.finite() && b.finite(),
        size(a.value()) <= r,
        size(b.value()) <= r,
        1real <= r <= 33554432real,
    ensures
        close(b - a, b.value() - a.value(), 2real * r, 2),
{
    lemma_close_start(a, r);
    lemma_close_start(b, r);
    lemma_close_opposite(a, a.value(), r, 0);
    assert(b - a == b + a.opposite()) by {
        reveal(Float32::minus);
    }
    lemma_close_sum(b, b.value(), r, 0, a.opposite(), -a.value(), r, 0, 0);
}

/// A coordinate of an outer product is not too large.
proof fn lemma_outer_coordinate(
    f: Float32,
    x: real,
    g: Float32,
    y: real,
    h: Float32,
    z: real,
    k: Float32,
    w: real,
    r: real,
)
    requires
        close(f, x, 2real * r, 2),
        close(g, y, 2real * r, 2),
        close(h, z, 2real * r, 2),
        close(k, w, 2real * r, 2),
        1real <= r <= 33554432real,
    ensures
        (f * g - h * k).finite(),
        size((f * g - h * k).value()) <= 36028797018963968real,
{
    let m = 2real * r;
    let u = m * m;
    assert(1real <= u <= 4503599627370496real) by (nonlinear_arith)
        requires
            2real <= m <= 67108864real,
            u == m * m,
    ;
    lemma_close_product(f, x, m, 2, g, y, m, 2);
    lemma_close_product(h, z, m, 2, k, w, m, 2);
    lemma_close_opposite(h * k, z * w, u, 6);
    assert(f * g - h * k == f * g + (h * k).opposite()) by {
        reveal(Float32::minus);
    }
    lemma_close_sum(f * g, x * y, u, 6, (h * k).opposite(), -(z * w), u, 6, 6);
    let steps: int = 8;
    let t = steps as real;
    let v = u + u;
    assert(t * v <= 72057594037927936real) by (nonlinear_arith)
        requires
            t == 8real,
            v <= 9007199254740992real,
    ;
}

/// The direction of a face with an area has coordinates that are hardly above one.
proof fn lemma_direction_is_short(vertices: Seq<MeshVertex>, triangle: [usize; 3], r: real)
    requires
        has_area(vertices, triangle),
        1real <= r <= 33554432real,
        forall|i: int| 0 <= i < vertices.len() ==> reaches((#[trigger] vertices[i]).position, r),
    ensures
        reaches(direction_of(vertices, triangle), 5real / 4real),
{
    let a = vertices[triangle[0] as int].position;
    let b = vertices[triangle[1] as int].position;
    let c = vertices[triangle[2] as int].position;
    lemma_close_difference(b.x, a.x, r);
    lemma_close_difference(b.y, a.y, r);
    lemma_close_difference(b.z, a.z, r);
    lemma_close_difference(c.x, a.x, r);
    lemma_close_difference(c.y, a.y, r);
    lemma_close_difference(c.z, a.z, r);
    let (u, v) = (b - a, c - a);
    let (p, q, s) = (
        b.x.value() - a.x.value(),
        b.y.value() - a.y.value(),
        b.z.value() - a.z.value(),
    );
    let (l, m, n) = (
        c.x.value() - a.x.value(),
        c.y.value() - a.y.value(),
        c.z.value() - a.z.value(),
    );
    lemma_outer_coordinate(u.y, q, v.z, n, u.z, s, v.y, m, r);
    lemma_outer_coordinate(u.z, s, v.x, l, u.x, p, v.z, n, r);
    lemma_outer_coordinate(u.x, p, v.y, m, u.y, q, v.x, l, r);
    law_directions_are_short(face_normal(vertices, triangle));
}

/// The exact quadric of the plane of a face.
spec fn exact_plane(vertices: Seq<MeshVertex>, triangle: [usize; 3]) -> ExactQuadric {
    let n = direction_of(vertices, triangle);
    let a = vertices[triangle[0] as int].position;
    let (x, y, z) = (n.x.value(), n.y.value(), n.z.value());
    ExactQuadric::of_plane(
        x,
        y,
        z,
        -(x * a.x.value() + y * a.y.value() + z * a.z.value()),
    )
}

spec fn exact_plus_if(sum: ExactQuadric, applies: bool, term: ExactQuadric) -> ExactQuadric {
    if applies {
        sum.with(term)
    } else {
        sum
    }
}

/// The exact quadric of the first `count` faces around a vertex.
spec fn exact_at(
    vertices: Seq<MeshVertex>,
    triangles: Seq<[usize; 3]>,
    index: int,
    count: int,
) -> ExactQuadric
    decreases count,
{
    if count <= 0 {
        ExactQuadric::none()
    } else {
        let before = exact_at(vertices, triangles, index, count - 1);
        let triangle = triangles[count - 1];
        if has_area(vertices, triangle) {
            let plane = exact_plane(vertices, triangle);
            let first = exact_plus_if(before, triangle[0] == index, plane);
            let second = exact_plus_if(first, triangle[1] == index, plane);
            exact_plus_if(second, triangle[2] == index, plane)
        } else {
            before
        }
    }
}

/// Exact errors add up.
proof fn lemma_errors_add(e: ExactQuadric, f: ExactQuadric, x: real, y: real, z: real)
    ensures
        e.with(f).error(x, y, z) == e.error(x, y, z) + f.error(x, y, z),
{
    lemma_terms_add(e.xx, f.xx, x, x);
    lemma_terms_add(e.yy, f.yy, y, y);
    lemma_terms_add(e.zz, f.zz, z, z);
    lemma_terms_add(2real * e.xy, 2real * f.xy, x, y);
    lemma_terms_add(2real * e.xz, 2real * f.xz, x, z);
    lemma_terms_add(2real * e.yz, 2real * f.yz, y, z);
    lemma_product_of_sum(2real * e.xw, 2real * f.xw, x);
    lemma_product_of_sum(2real * e.yw, 2real * f.yw, y);
    lemma_product_of_sum(2real * e.zw, 2real * f.zw, z);
}

proof fn lemma_terms_add(a: real, b: real, x: real, y: real)
    ensures
        (a + b) * x * y == a * x * y + b * x * y,
{
    lemma_product_of_sum(a, b, x);
    lemma_product_of_sum(a * x, b * x, y);
}

proof fn lemma_monomial(n: real, m: real, x: real, y: real)
    by (nonlinear_arith)
    ensures
        (n * m) * x * y == (n * x) * (m * y),
        2real * (n * m) * x * y == 2real * ((n * x) * (m * y)),
        2real * (n * m) * x == 2real * ((n * x) * m),
{
}

proof fn lemma_square_of_four(a: real, b: real, c: real, d: real)
    by (nonlinear_arith)
    ensures
        (a + b + c + d) * (a + b + c + d) == a * a + 2real * (a * b) + 2real * (a * c) + 2real * (a
            * d) + b * b + 2real * (b * c) + 2real * (b * d) + c * c + 2real * (c * d) + d * d,
{
}

/// Products of differences are differences of products.
pub proof fn lemma_product_of_difference(a: real, b: real, c: real)
    by (nonlinear_arith)
    ensures
        a * (b - c) == a * b - a * c,
{
}

/// The exact error of a plane is the square of the distance from it.
proof fn lemma_plane_error(vertices: Seq<MeshVertex>, triangle: [usize; 3], point: Vec3)
    ensures
        exact_plane(vertices, triangle).error(point.x.value(), point.y.value(), point.z.value())
            == square_above(vertices, triangle, point),
{
    let n = direction_of(vertices, triangle);
    let a = vertices[triangle[0] as int].position;
    let (x, y, z) = (n.x.value(), n.y.value(), n.z.value());
    let (p, q, r) = (point.x.value(), point.y.value(), point.z.value());
    let w = -(x * a.x.value() + y * a.y.value() + z * a.z.value());
    lemma_monomial(x, x, p, p);
    lemma_monomial(x, y, p, q);
    lemma_monomial(x, z, p, r);
    lemma_monomial(x, w, p, p);
    lemma_monomial(y, y, q, q);
    lemma_monomial(y, z, q, r);
    lemma_monomial(y, w, q, q);
    lemma_monomial(z, z, r, r);
    lemma_monomial(z, w, r, r);
    lemma_square_of_four(x * p, y * q, z * r, w);
    lemma_product_of_difference(x, p, a.x.value());
    lemma_product_of_difference(y, q, a.y.value());
    lemma_product_of_difference(z, r, a.z.value());
    assert(height_above(vertices, triangle, point) == x * p + y * q + z * r + w);
}

proof fn lemma_multiples(factor: real, value: real)
    by (nonlinear_arith)
    ensures
        factor == 0real ==> factor * value == 0real,
        factor == 1real ==> factor * value == value,
        factor == 2real ==> factor * value == value + value,
        factor == 3real ==> factor * value == value + value + value,
{
}

/// The exact error of the quadric of a vertex is the sum of the squared distances.
proof fn lemma_exact_error(
    vertices: Seq<MeshVertex>,
    triangles: Seq<[usize; 3]>,
    index: int,
    point: Vec3,
    count: int,
)
    ensures
        exact_at(vertices, triangles, index, count).error(
            point.x.value(),
            point.y.value(),
            point.z.value(),
        ) == squares_at(vertices, triangles, index, point, count),
    decreases count,
{
    let (x, y, z) = (point.x.value(), point.y.value(), point.z.value());
    if count <= 0 {
        lemma_terms_add(0real, 0real, x, x);
        lemma_terms_add(0real, 0real, x, y);
        lemma_terms_add(0real, 0real, x, z);
        lemma_terms_add(0real, 0real, y, y);
        lemma_terms_add(0real, 0real, y, z);
        lemma_terms_add(0real, 0real, z, z);
        lemma_product_of_sum(0real, 0real, x);
        lemma_product_of_sum(0real, 0real, y);
        lemma_product_of_sum(0real, 0real, z);
    } else {
        lemma_exact_error(vertices, triangles, index, point, count - 1);
        let triangle = triangles[count - 1];
        if has_area(vertices, triangle) {
            let before = exact_at(vertices, triangles, index, count - 1);
            let plane = exact_plane(vertices, triangle);
            let first = exact_plus_if(before, triangle[0] == index, plane);
            let second = exact_plus_if(first, triangle[1] == index, plane);
            lemma_plane_error(vertices, triangle, point);
            lemma_errors_add(before, plane, x, y, z);
            lemma_errors_add(first, plane, x, y, z);
            lemma_errors_add(second, plane, x, y, z);
            lemma_multiples(
                corners_of(triangle, index) as real,
                square_above(vertices, triangle, point),
            );
        }
    }
}

/// Whether a rounded quadric is close to the exact one as the sum of this many planes.
spec fn close_by(q: Quadric, e: ExactQuadric, r: real, planes: int) -> bool {
    close_quadric(q, e, (planes + 1) as real, r, 14 + 2 * planes)
}

proof fn lemma_plus_if(
    q: Quadric,
    e: ExactQuadric,
    c: int,
    applies: bool,
    g: Quadric,
    f: ExactQuadric,
    r: real,
)
    requires
        close_by(q, e, r, c),
        close_quadric(g, f, 1real, r, 14),
        0 <= c <= 400,
        1real <= r <= 33554432real,
    ensures
        ({
            let d: int = if applies {
                c + 1
            } else {
                c
            };
            close_by(quadric_plus_if(q, applies, g), exact_plus_if(e, applies, f), r, d)
        }),
{
    if applies {
        lemma_close_quadrics(
            q,
            e,
            (c + 1) as real,
            14 + 2 * c,
            g,
            f,
            1real,
            14,
            r,
            14 + 2 * c,
        );
    }
}

proof fn lemma_corners_are_counted(triangles: Seq<[usize; 3]>, index: int, count: int)
    ensures
        corners_at(triangles, index, count) >= 0,
    decreases count,
{
    if count > 0 {
        lemma_corners_are_counted(triangles, index, count - 1);
    }
}

/// The quadric of a vertex is close to the exact one.
proof fn lemma_close_vertex(
    vertices: Seq<MeshVertex>,
    triangles: Seq<[usize; 3]>,
    index: int,
    count: int,
    r: real,
)
    requires
        1real <= r <= 33554432real,
        corners_at(triangles, index, count) <= 400,
        forall|i: int| 0 <= i < vertices.len() ==> reaches((#[trigger] vertices[i]).position, r),
    ensures
        ({
            let c = corners_at(triangles, index, count);
            exists|d: int|
                0 <= d <= c && #[trigger] close_by(
                    quadric_at(vertices, triangles, index, count),
                    exact_at(vertices, triangles, index, count),
                    r,
                    d,
                )
        }),
    decreases count,
{
    if count <= 0 {
        let zero = Float32 { bits: 0 };
        law_small_constants();
        lemma_moderate(1real, r);
        lemma_close_start(zero, 2real);
        lemma_close_start(zero, 5real * r);
        lemma_close_start(zero, 16real * (r * r));
        lemma_close_wider(zero, 0real, 2real, 0, 2real, 14);
        lemma_close_wider(zero, 0real, 5real * r, 0, 5real * r, 14);
        lemma_close_wider(zero, 0real, 16real * (r * r), 0, 16real * (r * r), 14);
        let d: int = 0;
        assert(close_by(
            quadric_at(vertices, triangles, index, count),
            exact_at(vertices, triangles, index, count),
            r,
            d,
        ));
        assert(0 <= d <= corners_at(triangles, index, count));
    } else {
        lemma_corners_are_counted(triangles, index, count - 1);
        let triangle = triangles[count - 1];
        lemma_close_vertex(vertices, triangles, index, count - 1, r);
        let q = quadric_at(vertices, triangles, index, count - 1);
        let e = exact_at(vertices, triangles, index, count - 1);
        let c = choose|d: int|
            0 <= d <= corners_at(triangles, index, count - 1) && #[trigger] close_by(q, e, r, d);
        if has_area(vertices, triangle) {
            let n = direction_of(vertices, triangle);
            let a = vertices[triangle[0] as int].position;
            lemma_direction_is_short(vertices, triangle, r);
            lemma_close_plane(n, a, r);
            let g = Quadric::of_plane(n, n.dot_product(a).opposite());
            let f = exact_plane(vertices, triangle);
            lemma_plus_if(q, e, c, triangle[0] == index, g, f, r);
            let q1 = quadric_plus_if(q, triangle[0] == index, g);
            let e1 = exact_plus_if(e, triangle[0] == index, f);
            let c1: int = if triangle[0] == index {
                c + 1
            } else {
                c
            };
            lemma_plus_if(q1, e1, c1, triangle[1] == index, g, f, r);
            let q2 = quadric_plus_if(q1, triangle[1] == index, g);
            let e2 = exact_plus_if(e1, triangle[1] == index, f);
            let c2: int = if triangle[1] == index {
                c1 + 1
            } else {
                c1
            };
            lemma_plus_if(q2, e2, c2, triangle[2] == index, g, f, r);
            let c3: int = if triangle[2] == index {
                c2 + 1
            } else {
                c2
            };
            assert(face_quadric(vertices, triangle) == Some(g));
            assert(close_by(
                quadric_at(vertices, triangles, index, count),
                exact_at(vertices, triangles, index, count),
                r,
                c3,
            ));
            assert(0 <= c3 <= corners_at(triangles, index, count));
        } else {
            assert(close_by(
                quadric_at(vertices, triangles, index, count),
                exact_at(vertices, triangles, index, count),
                r,
                c,
            ));
            assert(0 <= c <= corners_at(triangles, index, count));
        }
    }
}

/// How far rounding can move the error of a position with coordinates up to `r` from the sum of the
/// squared distances, where so many corners are at the ends of the edge.
pub open spec fn allowance(corners: int, r: real) -> real {
    ((2 * corners + 40) as real) * (64real * (((corners + 2) as real) * r * r)) / 8388608real
}

/// How many corners of faces are at a vertex.
pub open spec fn degree(triangles: Seq<[usize; 3]>, index: usize) -> int {
    corners_at(triangles, index as int, triangles.len() as int)
}

/// The squared distances of a point from the planes of the faces with an area around a vertex.
pub open spec fn squares_around(
    vertices: Seq<MeshVertex>,
    triangles: Seq<[usize; 3]>,
    index: usize,
    point: Vec3,
) -> real {
    squares_at(vertices, triangles, index as int, point, triangles.len() as int)
}

/// The error of the sum of the quadrics of two vertices, from the squared distances.
proof fn lemma_close_squares(
    vertices: Seq<MeshVertex>,
    triangles: Seq<[usize; 3]>,
    edge: Edge,
    point: Vec3,
    r: real,
) -> (result: (ExactQuadric, real, int))
    requires
        1real <= r <= 33554432real,
        degree(triangles, edge.0) <= 400,
        degree(triangles, edge.1) <= 400,
        forall|i: int| 0 <= i < vertices.len() ==> reaches((#[trigger] vertices[i]).position, r),
    ensures
        close_quadric(
            vertex_quadric(vertices, triangles, edge.0 as int) + vertex_quadric(
                vertices,
                triangles,
                edge.1 as int,
            ),
            result.0,
            result.1,
            r,
            result.2,
        ),
        result.0.error(point.x.value(), point.y.value(), point.z.value()) == squares_around(
            vertices,
            triangles,
            edge.0,
            point,
        ) + squares_around(vertices, triangles, edge.1, point),
        result.0.rows(point.x.value(), point.y.value(), point.z.value()) == measures_around(
            vertices,
            triangles,
            edge.0,
            point,
        ) + measures_around(vertices, triangles, edge.1, point),
        1real <= result.1 <= (degree(triangles, edge.0) + degree(triangles, edge.1) + 2) as real,
        0 <= result.2 <= 2 * (degree(triangles, edge.0) + degree(triangles, edge.1)) + 16,
        result.2 <= 816,
        degree(triangles, edge.0) >= 0,
        degree(triangles, edge.1) >= 0,
{
    let count = triangles.len() as int;
    let (a, b) = (edge.0 as int, edge.1 as int);
    lemma_corners_are_counted(triangles, a, count);
    lemma_corners_are_counted(triangles, b, count);
    lemma_close_vertex(vertices, triangles, a, count, r);
    lemma_close_vertex(vertices, triangles, b, count, r);
    let (q, g) = (
        quadric_at(vertices, triangles, a, count),
        quadric_at(vertices, triangles, b, count),
    );
    let (e, f) = (
        exact_at(vertices, triangles, a, count),
        exact_at(vertices, triangles, b, count),
    );
    let c = choose|d: int|
        0 <= d <= corners_at(triangles, a, count) && #[trigger] close_by(q, e, r, d);
    let d = choose|d: int|
        0 <= d <= corners_at(triangles, b, count) && #[trigger] close_by(g, f, r, d);
    let most: int = if c < d {
        14 + 2 * d
    } else {
        14 + 2 * c
    };
    lemma_close_quadrics(
        q,
        e,
        (c + 1) as real,
        14 + 2 * c,
        g,
        f,
        (d + 1) as real,
        14 + 2 * d,
        r,
        most,
    );
    lemma_exact_error(vertices, triangles, a, point, count);
    lemma_exact_error(vertices, triangles, b, point, count);
    lemma_errors_add(e, f, point.x.value(), point.y.value(), point.z.value());
    lemma_exact_rows(vertices, triangles, a, point, count);
    lemma_exact_rows(vertices, triangles, b, point, count);
    lemma_rows_add(e, f, point.x.value(), point.y.value(), point.z.value());
    (e.with(f), (c + 1) as real + (d + 1) as real, most + 2)
}

proof fn lemma_allowance(value: Float32, exact: real, b: real, s: int, corners: int, r: real)
    requires
        close(value, exact, 64real * ((b * r) * r), s),
        is_moderate(b, r),
        b <= (corners + 2) as real,
        0 <= s <= 2 * corners + 40,
    ensures
        size(value.value() - exact) <= allowance(corners, r),
{
    let w = (corners + 2) as real;
    lemma_moderate(b, r);
    lemma_product_grows(b, w, r);
    lemma_product_grows(b * r, w * r, r);
    lemma_close_wider(
        value,
        exact,
        64real * ((b * r) * r),
        s,
        64real * ((w * r) * r),
        2 * corners + 40,
    );
}

/// The error of collapsing an edge is the sum of the squared distances of the merged vertex from
/// the planes of the faces with an area around either end, up to rounding.
pub proof fn law_errors_are_squared_distances(
    rule: QuadricRule,
    vertices: Seq<MeshVertex>,
    triangles: Seq<[usize; 3]>,
    edge: Edge,
    r: real,
)
    requires
        1real <= r <= 33554432real,
        degree(triangles, edge.0) <= 400,
        degree(triangles, edge.1) <= 400,
        forall|i: int| 0 <= i < vertices.len() ==> reaches((#[trigger] vertices[i]).position, r),
        reaches(rule.candidate(vertices, triangles, edge).1, r),
    ensures
        ({
            let (error, position) = rule.candidate(vertices, triangles, edge);
            let sum = squares_around(vertices, triangles, edge.0, position) + squares_around(
                vertices,
                triangles,
                edge.1,
                position,
            );
            &&& error.finite()
            &&& size(error.value() - sum) <= allowance(
                degree(triangles, edge.0) + degree(triangles, edge.1),
                r,
            )
        }),
{
    let (error, position) = rule.candidate(vertices, triangles, edge);
    let (e, b, s) = lemma_close_squares(vertices, triangles, edge, position, r);
    let q = vertex_quadric(vertices, triangles, edge.0 as int) + vertex_quadric(
        vertices,
        triangles,
        edge.1 as int,
    );
    lemma_close_error(q, e, b, s, position, r);
    lemma_allowance(
        error,
        e.error(position.x.value(), position.y.value(), position.z.value()),
        b,
        s + 24,
        degree(triangles, edge.0) + degree(triangles, edge.1),
        r,
    );
}

proof fn lemma_not_negative(factor: real, value: real)
    by (nonlinear_arith)
    requires
        factor >= 0real,
    ensures
        factor * (value * value) >= 0real,
        factor >= 1real ==> factor * (value * value) >= value * value,
{
}

/// The squared distance from each face with a corner at a vertex is part of the sum.
proof fn lemma_squares_hold_each(
    vertices: Seq<MeshVertex>,
    triangles: Seq<[usize; 3]>,
    index: int,
    point: Vec3,
    count: int,
    face: int,
)
    ensures
        squares_at(vertices, triangles, index, point, count) >= 0real,
        0 <= face < count && has_area(vertices, triangles[face]) && corners_of(
            triangles[face],
            index,
        ) > 0 ==> squares_at(vertices, triangles, index, point, count) >= square_above(
            vertices,
            triangles[face],
            point,
        ),
    decreases count,
{
    if count > 0 {
        lemma_squares_hold_each(vertices, triangles, index, point, count - 1, face);
        lemma_not_negative(
            corners_of(triangles[count - 1], index) as real,
            height_above(vertices, triangles[count - 1], point),
        );
    }
}

/// The error of collapsing an edge is no less, up to rounding, than the squared distance of the
/// merged vertex from the plane of any face with an area that touches either end.
pub proof fn law_errors_bound_each_distance(
    rule: QuadricRule,
    vertices: Seq<MeshVertex>,
    triangles: Seq<[usize; 3]>,
    edge: Edge,
    r: real,
    face: int,
)
    requires
        1real <= r <= 33554432real,
        degree(triangles, edge.0) <= 400,
        degree(triangles, edge.1) <= 400,
        forall|i: int| 0 <= i < vertices.len() ==> reaches((#[trigger] vertices[i]).position, r),
        reaches(rule.candidate(vertices, triangles, edge).1, r),
        0 <= face < triangles.len(),
        has_area(vertices, triangles[face]),
        exists|k: int|
            0 <= k < 3 && (#[trigger] triangles[face][k] == edge.0 || triangles[face][k] == edge.1),
    ensures
        ({
            let (error, position) = rule.candidate(vertices, triangles, edge);
            square_above(vertices, triangles[face], position) <= error.value() + allowance(
                degree(triangles, edge.0) + degree(triangles, edge.1),
                r,
            )
        }),
{
    let position = rule.candidate(vertices, triangles, edge).1;
    let count = triangles.len() as int;
    law_errors_are_squared_distances(rule, vertices, triangles, edge, r);
    lemma_squares_hold_each(vertices, triangles, edge.0 as int, position, count, face);
    lemma_squares_hold_each(vertices, triangles, edge.1 as int, position, count, face);
    let k = choose|k: int|
        0 <= k < 3 && (#[trigger] triangles[face][k] == edge.0 || triangles[face][k] == edge.1);
    assert(k == 0 || k == 1 || k == 2);
}

/// A row of a close quadric, at a close position.
proof fn lemma_close_row(
    a: (Float32, real),
    b: (Float32, real),
    c: (Float32, real),
    d: (Float32, real),
    front: Float32,
    p: Vec3,
    w: real,
    r: real,
    s: int,
)
    requires
        close(a.0, a.1, 2real * w, s),
        close(b.0, b.1, 2real * w, s),
        close(c.0, c.1, 2real * w, s),
        close(d.0, d.1, 5real * (w * r), s),
        is_moderate(w, r),
        reaches(p, r),
        front.finite(),
        size(front.value()) <= r,
        0 <= s <= 900,
    ensures
        close(
            front * (a.0 * p.x + b.0 * p.y + c.0 * p.z + d.0),
            front.value() * (a.1 * p.x.value() + b.1 * p.y.value() + c.1 * p.z.value() + d.1),
            11real * ((w * r) * r),
            s + 10,
        ),
{
    let (x, y, z) = (p.x.value(), p.y.value(), p.z.value());
    lemma_moderate(w, r);
    let wr = w * r;
    lemma_product_regroups(2real, w, r);
    lemma_close_start(p.x, r);
    lemma_close_start(p.y, r);
    lemma_close_start(p.z, r);
    lemma_close_start(front, r);
    lemma_close_product(a.0, a.1, 2real * w, s, p.x, x, r, 0);
    lemma_close_product(b.0, b.1, 2real * w, s, p.y, y, r, 0);
    lemma_close_product(c.0, c.1, 2real * w, s, p.z, z, r, 0);
    let (f, g, h) = (a.0 * p.x, b.0 * p.y, c.0 * p.z);
    let m = 2real * wr;
    lemma_close_sum(f, a.1 * x, m, s + 2, g, b.1 * y, m, s + 2, s + 2);
    lemma_close_sum(f + g, a.1 * x + b.1 * y, 4real * wr, s + 4, h, c.1 * z, m, s + 2, s + 4);
    let inner = a.1 * x + b.1 * y + c.1 * z;
    lemma_close_sum(f + g + h, inner, 6real * wr, s + 6, d.0, d.1, 5real * wr, s, s + 6);
    lemma_product_regroups(r, 11real * wr, 1real);
    lemma_product_regroups(11real, wr, r);
    lemma_close_product(
        front,
        front.value(),
        r,
        0,
        f + g + h + d.0,
        inner + d.1,
        11real * wr,
        s + 8,
    );
}

/// How far a point lies above the plane through the origin along the plane of a face.
pub open spec fn height_of_point(
    vertices: Seq<MeshVertex>,
    triangle: [usize; 3],
    point: Vec3,
) -> real {
    let normal = direction_of(vertices, triangle);
    normal.x.value() * point.x.value() + normal.y.value() * point.y.value() + normal.z.value()
        * point.z.value()
}

/// The measure of a point against the plane of a face that round meshes are merged by: the squares
/// of the heights of the point and of the plane above the origin, less the product of the two.
pub open spec fn round_measure(
    vertices: Seq<MeshVertex>,
    triangle: [usize; 3],
    point: Vec3,
) -> real {
    let s = height_of_point(vertices, triangle, point);
    let t = height_of_point(vertices, triangle, vertices[triangle[0] as int].position);
    s * s - s * t + t * t
}

/// The measures of a point against the planes of the first `count` faces with an area, as often as
/// each has a corner at a vertex.
pub open spec fn measures_at(
    vertices: Seq<MeshVertex>,
    triangles: Seq<[usize; 3]>,
    index: int,
    point: Vec3,
    count: int,
) -> real
    decreases count,
{
    if count <= 0 {
        0real
    } else {
        measures_at(vertices, triangles, index, point, count - 1) + (if has_area(
            vertices,
            triangles[count - 1],
        ) {
            corners_of(triangles[count - 1], index) as real * round_measure(
                vertices,
                triangles[count - 1],
                point,
            )
        } else {
            0real
        })
    }
}

/// The measures of a point against the planes of the faces with an area around a vertex.
pub open spec fn measures_around(
    vertices: Seq<MeshVertex>,
    triangles: Seq<[usize; 3]>,
    index: usize,
    point: Vec3,
) -> real {
    measures_at(vertices, triangles, index as int, point, triangles.len() as int)
}

impl ExactQuadric {
    spec fn rows(self, x: real, y: real, z: real) -> real {
        x * (self.xx * x + self.xy * y + self.xz * z + self.xw) + y * (self.xy * x + self.yy * y
            + self.yz * z + self.yw) + z * (self.xz * x + self.yz * y + self.zz * z + self.zw)
            + self.ww
    }
}

proof fn lemma_row_adds(
    f: real,
    p: (real, real),
    q: (real, real),
    r: (real, real),
    s: (real, real),
    x: real,
    y: real,
    z: real,
)
    ensures
        f * ((p.0 + p.1) * x + (q.0 + q.1) * y + (r.0 + r.1) * z + (s.0 + s.1)) == f * (p.0 * x
            + q.0 * y + r.0 * z + s.0) + f * (p.1 * x + q.1 * y + r.1 * z + s.1),
{
    lemma_product_of_sum(p.0, p.1, x);
    lemma_product_of_sum(q.0, q.1, y);
    lemma_product_of_sum(r.0, r.1, z);
    let a = p.0 * x + q.0 * y + r.0 * z + s.0;
    let b = p.1 * x + q.1 * y + r.1 * z + s.1;
    lemma_product_of_sum(a, b, f);
    lemma_product_regroups(f, a + b, 1real);
    lemma_product_regroups(f, a, 1real);
    lemma_product_regroups(f, b, 1real);
}

proof fn lemma_rows_add(e: ExactQuadric, f: ExactQuadric, x: real, y: real, z: real)
    ensures
        e.with(f).rows(x, y, z) == e.rows(x, y, z) + f.rows(x, y, z),
{
    lemma_row_adds(x, (e.xx, f.xx), (e.xy, f.xy), (e.xz, f.xz), (e.xw, f.xw), x, y, z);
    lemma_row_adds(y, (e.xy, f.xy), (e.yy, f.yy), (e.yz, f.yz), (e.yw, f.yw), x, y, z);
    lemma_row_adds(z, (e.xz, f.xz), (e.yz, f.yz), (e.zz, f.zz), (e.zw, f.zw), x, y, z);
}

proof fn lemma_plane_row(
    x: real,
    n: real,
    a: real,
    b: real,
    c: real,
    p: real,
    q: real,
    r: real,
    w: real,
)
    ensures
        x * ((n * a) * p + (n * b) * q + (n * c) * r + n * w) == (n * x) * (a * p + b * q + c * r
            + w),
{
    let s = a * p + b * q + c * r + w;
    lemma_product_regroups(n, a, p);
    lemma_product_regroups(n, b, q);
    lemma_product_regroups(n, c, r);
    let (i, j, k) = (a * p, b * q, c * r);
    assert(n * i + n * j + n * k + n * w == n * (i + j + k + w)) by (nonlinear_arith);
    assert(x * (n * s) == (n * x) * s) by (nonlinear_arith);
}

proof fn lemma_plane_rows(vertices: Seq<MeshVertex>, triangle: [usize; 3], point: Vec3)
    ensures
        exact_plane(vertices, triangle).rows(point.x.value(), point.y.value(), point.z.value())
            == round_measure(vertices, triangle, point),
{
    let n = direction_of(vertices, triangle);
    let a = vertices[triangle[0] as int].position;
    let (x, y, z) = (n.x.value(), n.y.value(), n.z.value());
    let (p, q, r) = (point.x.value(), point.y.value(), point.z.value());
    let t = x * a.x.value() + y * a.y.value() + z * a.z.value();
    let w = -t;
    let s = x * p + y * q + z * r;
    lemma_plane_row(p, x, x, y, z, p, q, r, w);
    lemma_product_regroups(x, y, 1real);
    lemma_product_regroups(x, z, 1real);
    lemma_product_regroups(y, z, 1real);
    lemma_plane_row(q, y, x, y, z, p, q, r, w);
    lemma_plane_row(r, z, x, y, z, p, q, r, w);
    let (i, j, k, h) = (x * p, y * q, z * r, s + w);
    assert(i * h + j * h + k * h == (i + j + k) * h) by (nonlinear_arith);
    assert(s * h + w * w == s * s - s * t + t * t) by (nonlinear_arith)
        requires
            h == s + w,
            w == -t,
    ;
}

/// The exact rows of the quadric of a vertex are the sum of the measures.
proof fn lemma_exact_rows(
    vertices: Seq<MeshVertex>,
    triangles: Seq<[usize; 3]>,
    index: int,
    point: Vec3,
    count: int,
)
    ensures
        exact_at(vertices, triangles, index, count).rows(
            point.x.value(),
            point.y.value(),
            point.z.value(),
        ) == measures_at(vertices, triangles, index, point, count),
    decreases count,
{
    let (x, y, z) = (point.x.value(), point.y.value(), point.z.value());
    if count <= 0 {
        lemma_multiples(0real, x);
        lemma_multiples(0real, y);
        lemma_multiples(0real, z);
        lemma_product_regroups(x, 0real, 1real);
        lemma_product_regroups(y, 0real, 1real);
        lemma_product_regroups(z, 0real, 1real);
    } else {
        lemma_exact_rows(vertices, triangles, index, point, count - 1);
        let triangle = triangles[count - 1];
        if has_area(vertices, triangle) {
            let before = exact_at(vertices, triangles, index, count - 1);
            let plane = exact_plane(vertices, triangle);
            let first = exact_plus_if(before, triangle[0] == index, plane);
            let second = exact_plus_if(first, triangle[1] == index, plane);
            lemma_plane_rows(vertices, triangle, point);
            lemma_rows_add(before, plane, x, y, z);
            lemma_rows_add(first, plane, x, y, z);
            lemma_rows_add(second, plane, x, y, z);
            lemma_multiples(
                corners_of(triangle, index) as real,
                round_measure(vertices, triangle, point),
            );
        }
    }
}

/// The error of a quadric, row by row, is close to that of the exact one.
proof fn lemma_close_rows(q: Quadric, e: ExactQuadric, b: real, s: int, p: Vec3, r: real)
    requires
        close_quadric(q, e, b, r, s),
        is_moderate(b, r),
        reaches(p, r),
        0 <= s <= 900,
    ensures
        close(
            q.error_by_rows(p),
            e.rows(p.x.value(), p.y.value(), p.z.value()),
            64real * ((b * r) * r),
            s + 24,
        ),
{
    let (x, y, z) = (p.x.value(), p.y.value(), p.z.value());
    lemma_moderate(b, r);
    let u = (b * r) * r;
    lemma_close_row((q.xx, e.xx), (q.xy, e.xy), (q.xz, e.xz), (q.xw, e.xw), p.x, p, b, r, s);
    lemma_close_row((q.xy, e.xy), (q.yy, e.yy), (q.yz, e.yz), (q.yw, e.yw), p.y, p, b, r, s);
    lemma_close_row((q.xz, e.xz), (q.yz, e.yz), (q.zz, e.zz), (q.zw, e.zw), p.z, p, b, r, s);
    let f = p.x * (q.xx * p.x + q.xy * p.y + q.xz * p.z + q.xw);
    let g = p.y * (q.xy * p.x + q.yy * p.y + q.yz * p.z + q.yw);
    let h = p.z * (q.xz * p.x + q.yz * p.y + q.zz * p.z + q.zw);
    let k = x * (e.xx * x + e.xy * y + e.xz * z + e.xw);
    let l = y * (e.xy * x + e.yy * y + e.yz * z + e.yw);
    let m = z * (e.xz * x + e.yz * y + e.zz * z + e.zw);
    let row = 11real * u;
    lemma_close_sum(f, k, row, s + 10, g, l, row, s + 10, s + 10);
    lemma_close_sum(f + g, k + l, 22real * u, s + 12, h, m, row, s + 10, s + 12);
    lemma_close_sum(f + g + h, k + l + m, 33real * u, s + 14, q.ww, e.ww, 16real * u, s, s + 14);
    lemma_close_wider(
        q.error_by_rows(p),
        e.rows(x, y, z),
        49real * u,
        s + 16,
        64real * u,
        s + 24,
    );
}

/// The error of one of the places for a merged vertex, from the measures of the planes.
proof fn lemma_place_error(
    vertices: Seq<MeshVertex>,
    triangles: Seq<[usize; 3]>,
    edge: Edge,
    point: Vec3,
    r: real,
)
    requires
        1real <= r <= 33554432real,
        degree(triangles, edge.0) <= 400,
        degree(triangles, edge.1) <= 400,
        forall|i: int| 0 <= i < vertices.len() ==> reaches((#[trigger] vertices[i]).position, r),
        reaches(point, r),
    ensures
        ({
            let q = vertex_quadric(vertices, triangles, edge.0 as int) + vertex_quadric(
                vertices,
                triangles,
                edge.1 as int,
            );
            let sum = measures_around(vertices, triangles, edge.0, point) + measures_around(
                vertices,
                triangles,
                edge.1,
                point,
            );
            &&& q.error_by_rows(point).finite()
            &&& size(q.error_by_rows(point).value() - sum) <= allowance(
                degree(triangles, edge.0) + degree(triangles, edge.1),
                r,
            )
        }),
{
    let (e, b, s) = lemma_close_squares(vertices, triangles, edge, point, r);
    let q = vertex_quadric(vertices, triangles, edge.0 as int) + vertex_quadric(
        vertices,
        triangles,
        edge.1 as int,
    );
    lemma_close_rows(q, e, b, s, point, r);
    lemma_allowance(
        q.error_by_rows(point),
        e.rows(point.x.value(), point.y.value(), point.z.value()),
        b,
        s + 24,
        degree(triangles, edge.0) + degree(triangles, edge.1),
        r,
    );
}

/// The better of two finite candidates has an error no greater than either.
proof fn lemma_better(first: (Float32, Vec3), second: (Float32, Vec3))
    requires
        first.0.finite(),
        second.0.finite(),
    ensures
        better(first, second) == first || better(first, second) == second,
        better(first, second).0.value() <= first.0.value(),
        better(first, second).0.value() <= second.0.value(),
{
    law_values_keep_order(first.0, second.0);
    law_values_keep_order(second.0, first.0);
}

/// A merged vertex of a round mesh goes to one of the ends of its edge or to the middle. The error
/// is the sum of its measures against the planes of the faces with an area around either end, and
/// neither end nor the middle has a smaller sum, all up to rounding.
pub proof fn law_round_meshes_merge_at_the_best_place(
    rule: RoundModel,
    vertices: Seq<MeshVertex>,
    triangles: Seq<[usize; 3]>,
    edge: Edge,
    r: real,
)
    requires
        1real <= r <= 33554432real,
        degree(triangles, edge.0) <= 400,
        degree(triangles, edge.1) <= 400,
        edge.0 < vertices.len(),
        edge.1 < vertices.len(),
        forall|i: int| 0 <= i < vertices.len() ==> reaches((#[trigger] vertices[i]).position, r),
        reaches(rule.middle(vertices, edge), r),
    ensures
        ({
            let (error, position) = rule.candidate(vertices, triangles, edge);
            let first = vertices[edge.0 as int].position;
            let second = vertices[edge.1 as int].position;
            let middle = rule.middle(vertices, edge);
            let slack = allowance(degree(triangles, edge.0) + degree(triangles, edge.1), r);
            let sum = |point: Vec3|
                measures_around(vertices, triangles, edge.0, point) + measures_around(
                    vertices,
                    triangles,
                    edge.1,
                    point,
                );
            &&& position == first || position == second || position == middle
            &&& error.finite()
            &&& size(error.value() - sum(position)) <= slack
            &&& error.value() <= sum(first) + slack
            &&& error.value() <= sum(second) + slack
            &&& error.value() <= sum(middle) + slack
        }),
{
    let first = vertices[edge.0 as int].position;
    let second = vertices[edge.1 as int].position;
    let middle = rule.middle(vertices, edge);
    let q = vertex_quadric(vertices, triangles, edge.0 as int) + vertex_quadric(
        vertices,
        triangles,
        edge.1 as int,
    );
    lemma_place_error(vertices, triangles, edge, first, r);
    lemma_place_error(vertices, triangles, edge, second, r);
    lemma_place_error(vertices, triangles, edge, middle, r);
    let a = (q.error_by_rows(first), first);
    let b = (q.error_by_rows(second), second);
    let c = (q.error_by_rows(middle), middle);
    lemma_better(a, b);
    lemma_better(better(a, b), c);
}

proof fn lemma_measure(vertices: Seq<MeshVertex>, triangle: [usize; 3], point: Vec3)
    ensures
        4real * round_measure(vertices, triangle, point) >= 3real * square_above(
            vertices,
            triangle,
            point,
        ),
        square_above(vertices, triangle, point) >= 0real,
{
    let n = direction_of(vertices, triangle);
    let a = vertices[triangle[0] as int].position;
    let s = height_of_point(vertices, triangle, point);
    let t = height_of_point(vertices, triangle, a);
    let h = height_above(vertices, triangle, point);
    lemma_product_of_difference(n.x.value(), point.x.value(), a.x.value());
    lemma_product_of_difference(n.y.value(), point.y.value(), a.y.value());
    lemma_product_of_difference(n.z.value(), point.z.value(), a.z.value());
    assert(h == s - t);
    assert(4real * (s * s - s * t + t * t) - 3real * (h * h) == (s + t) * (s + t))
        by (nonlinear_arith)
        requires
            h == s - t,
    ;
    let k = s + t;
    assert(k * k >= 0real && h * h >= 0real) by (nonlinear_arith);
}

proof fn lemma_measures_hold_each(
    vertices: Seq<MeshVertex>,
    triangles: Seq<[usize; 3]>,
    index: int,
    point: Vec3,
    count: int,
    face: int,
)
    ensures
        measures_at(vertices, triangles, index, point, count) >= 0real,
        0 <= face < count && has_area(vertices, triangles[face]) && corners_of(
            triangles[face],
            index,
        ) > 0 ==> measures_at(vertices, triangles, index, point, count) >= round_measure(
            vertices,
            triangles[face],
            point,
        ),
    decreases count,
{
    if count > 0 {
        lemma_measures_hold_each(vertices, triangles, index, point, count - 1, face);
        lemma_measure(vertices, triangles[count - 1], point);
        let (k, m) = (
            corners_of(triangles[count - 1], index) as real,
            round_measure(vertices, triangles[count - 1], point),
        );
        assert(k * m >= 0real && (k >= 1real ==> k * m >= m)) by (nonlinear_arith)
            requires
                k >= 0real,
                m >= 0real,
        ;
    }
}

/// The error of merging the ends of an edge of a round mesh is no less, up to rounding, than three
/// quarters of the squared distance of the merged vertex from the plane of any face with an area
/// that touches either end.
pub proof fn law_round_errors_bound_each_distance(
    rule: RoundModel,
    vertices: Seq<MeshVertex>,
    triangles: Seq<[usize; 3]>,
    edge: Edge,
    r: real,
    face: int,
)
    requires
        1real <= r <= 33554432real,
        degree(triangles, edge.0) <= 400,
        degree(triangles, edge.1) <= 400,
        edge.0 < vertices.len(),
        edge.1 < vertices.len(),
        forall|i: int| 0 <= i < vertices.len() ==> reaches((#[trigger] vertices[i]).position, r),
        reaches(rule.middle(vertices, edge), r),
        0 <= face < triangles.len(),
        has_area(vertices, triangles[face]),
        exists|k: int|
            0 <= k < 3 && (#[trigger] triangles[face][k] == edge.0 || triangles[face][k] == edge.1),
    ensures
        ({
            let (error, position) = rule.candidate(vertices, triangles, edge);
            3real * square_above(vertices, triangles[face], position) <= 4real * (error.value()
                + allowance(degree(triangles, edge.0) + degree(triangles, edge.1), r))
        }),
{
    let position = rule.candidate(vertices, triangles, edge).1;
    let count = triangles.len() as int;
    law_round_meshes_merge_at_the_best_place(rule, vertices, triangles, edge, r);
    lemma_measures_hold_each(vertices, triangles, edge.0 as int, position, count, face);
    lemma_measures_hold_each(vertices, triangles, edge.1 as int, position, count, face);
    lemma_measure(vertices, triangles[face], position);
    let k = choose|k: int|
        0 <= k < 3 && (#[trigger] triangles[face][k] == edge.0 || triangles[face][k] == edge.1);
    assert(k == 0 || k == 1 || k == 2);
}

/// The error of merging the ends of an edge of a round mesh is the same from either end.
pub proof fn law_round_meshes_weigh_edges_alike_from_either_end(
    rule: RoundModel,
    vertices: Seq<MeshVertex>,
    triangles: Seq<[usize; 3]>,
    edge: Edge,
)
    ensures
        rule.candidate(vertices, triangles, (edge.1, edge.0)).0 == rule.candidate(
            vertices,
            triangles,
            edge,
        ).0,
{
    lemma_middles_commute(vertices, edge);
    lemma_quadrics_commute(
        vertex_quadric(vertices, triangles, edge.0 as int),
        vertex_quadric(vertices, triangles, edge.1 as int),
    );
}

/// The middle between two coordinates.
proof fn lemma_close_middle(p: Float32, q: Float32, r: real)
    requires
        p.finite() && q.finite(),
        size(p.value()) <= r,
        size(q.value()) <= r,
        1real <= r <= 33554432real,
    ensures
        close(
            (p + q) * (Float32 { bits: HALF }),
            (p.value() + q.value()) * (1real / 2real),
            2real * r,
            4,
        ),
{
    let half = Float32 { bits: HALF };
    law_small_constants();
    lemma_close_start(p, r);
    lemma_close_start(q, r);
    lemma_close_start(half, 1real);
    lemma_close_sum(p, p.value(), r, 0, q, q.value(), r, 0, 0);
    lemma_close_product(
        p + q,
        p.value() + q.value(),
        2real * r,
        2,
        half,
        1real / 2real,
        1real,
        0,
    );
}

/// Where no sphere is given, a merged vertex lies in the middle of its edge, up to rounding.
pub proof fn law_merged_vertices_lie_in_the_middle(
    rule: QuadricRule,
    vertices: Seq<MeshVertex>,
    triangles: Seq<[usize; 3]>,
    edge: Edge,
    r: real,
)
    requires
        rule.options.sphere_projection is None,
        1real <= r <= 33554432real,
        reaches(vertices[edge.0 as int].position, r),
        reaches(vertices[edge.1 as int].position, r),
    ensures
        ({
            let (p, q) = (vertices[edge.0 as int].position, vertices[edge.1 as int].position);
            let position = rule.candidate(vertices, triangles, edge).1;
            let half = 1real / 2real;
            &&& close(position.x, (p.x.value() + q.x.value()) * half, 2real * r, 4)
            &&& close(position.y, (p.y.value() + q.y.value()) * half, 2real * r, 4)
            &&& close(position.z, (p.z.value() + q.z.value()) * half, 2real * r, 4)
        }),
{
    let (p, q) = (vertices[edge.0 as int].position, vertices[edge.1 as int].position);
    lemma_close_middle(p.x, q.x, r);
    lemma_close_middle(p.y, q.y, r);
    lemma_close_middle(p.z, q.z, r);
}

} // verus!
