//! Normals of faces, and the matrix for normals, which keeps them perpendicular to surfaces.

use crate::derived::{corners_exist, face_normal};
use crate::float::{Float32, ONE};
use crate::math::{determinant, Mat4, Vec3};
use crate::math_laws::outer;
use crate::mesh::MeshVertex;
use crate::qem_laws::{lemma_product_of_difference, reaches};
use crate::reals::{
    close, law_quotients_are_close, law_small_constants, lemma_close_opposite, lemma_close_product,
    lemma_close_start, lemma_close_sum, lemma_grain, lemma_product_grows, lemma_product_is_bounded,
    lemma_product_of_sum, lemma_product_regroups, lemma_size_of_product, size,
};
use vstd::prelude::*;

verus! {

/// The scalar product of two vectors of real numbers.
pub open spec fn inner(a: (real, real, real), b: (real, real, real)) -> real {
    a.0 * b.0 + a.1 * b.1 + a.2 * b.2
}

/// A column of a small matrix as real numbers.
pub open spec fn column(m: Seq<Float32>, index: int) -> (real, real, real) {
    (m[3 * index].value(), m[3 * index + 1].value(), m[3 * index + 2].value())
}

proof fn lemma_difference_times(p: real, q: real, c: real)
    by (nonlinear_arith)
    ensures
        (p - q) * c == p * c - q * c,
        c * (p - q) == c * p - c * q,
{
}

proof fn lemma_turned_product(p: real, q: real, r: real)
    by (nonlinear_arith)
    ensures
        (p * q) * r == (q * r) * p,
        (p * q) * r == (r * q) * p,
        (p * q) * r == (p * r) * q,
        r * (p * q) == (p * q) * r,
        p * q == q * p,
{
}

/// An outer product is perpendicular to both of its factors.
proof fn lemma_outer_is_perpendicular(a: (real, real, real), b: (real, real, real))
    ensures
        inner(outer(a, b), a) == 0real,
        inner(outer(a, b), b) == 0real,
{
    lemma_difference_times(a.1 * b.2, a.2 * b.1, a.0);
    lemma_difference_times(a.2 * b.0, a.0 * b.2, a.1);
    lemma_difference_times(a.0 * b.1, a.1 * b.0, a.2);
    lemma_turned_product(a.1, b.2, a.0);
    lemma_turned_product(a.2, b.1, a.0);
    lemma_turned_product(a.2, b.0, a.1);
    lemma_difference_times(a.1 * b.2, a.2 * b.1, b.0);
    lemma_difference_times(a.2 * b.0, a.0 * b.2, b.1);
    lemma_difference_times(a.0 * b.1, a.1 * b.0, b.2);
    lemma_turned_product(a.1, b.2, b.0);
    lemma_turned_product(a.2, b.1, b.0);
    lemma_turned_product(a.0, b.2, b.1);
}

/// The volume of three vectors does not depend on which one comes first.
proof fn lemma_volumes_turn(a: (real, real, real), b: (real, real, real), c: (real, real, real))
    ensures
        inner(outer(a, b), c) == inner(outer(b, c), a),
{
    lemma_difference_times(a.1 * b.2, a.2 * b.1, c.0);
    lemma_difference_times(a.2 * b.0, a.0 * b.2, c.1);
    lemma_difference_times(a.0 * b.1, a.1 * b.0, c.2);
    lemma_difference_times(b.1 * c.2, b.2 * c.1, a.0);
    lemma_difference_times(b.2 * c.0, b.0 * c.2, a.1);
    lemma_difference_times(b.0 * c.1, b.1 * c.0, a.2);
    lemma_turned_product(a.1, b.2, c.0);
    lemma_turned_product(a.2, b.1, c.0);
    lemma_turned_product(a.2, b.0, c.1);
    lemma_turned_product(a.0, b.2, c.1);
    lemma_turned_product(a.0, b.1, c.2);
    lemma_turned_product(a.1, b.0, c.2);
}

/// The difference of two products of elements.
proof fn lemma_close_minor(a: Float32, b: Float32, c: Float32, d: Float32)
    requires
        a.finite() && b.finite() && c.finite() && d.finite(),
        size(a.value()) <= 2real,
        size(b.value()) <= 2real,
        size(c.value()) <= 2real,
        size(d.value()) <= 2real,
    ensures
        close(
            a * b - c * d,
            a.value() * b.value() - c.value() * d.value(),
            8real,
            4,
        ),
{
    lemma_close_start(a, 2real);
    lemma_close_start(b, 2real);
    lemma_close_start(c, 2real);
    lemma_close_start(d, 2real);
    lemma_close_product(a, a.value(), 2real, 0, b, b.value(), 2real, 0);
    lemma_close_product(c, c.value(), 2real, 0, d, d.value(), 2real, 0);
    let (x, y) = (a.value() * b.value(), c.value() * d.value());
    lemma_close_opposite(c * d, y, 4real, 2);
    assert(a * b - c * d == a * b + (c * d).opposite()) by {
        reveal(Float32::minus);
    }
    lemma_close_sum(a * b, x, 4real, 2, (c * d).opposite(), -y, 4real, 2, 2);
}

/// Whether the elements of a small matrix are at most two in size.
pub open spec fn is_moderate_matrix(m: Seq<Float32>) -> bool {
    &&& m.len() == 9
    &&& forall|i: int| 0 <= i < 9 ==> (#[trigger] m[i]).finite() && size(m[i].value()) <= 2real
}

/// The volume that the columns of a small matrix span.
pub open spec fn volume(m: Seq<Float32>) -> real {
    inner(outer(column(m, 1), column(m, 2)), column(m, 0))
}

/// The determinant is close to the volume.
proof fn lemma_close_determinant(m: Seq<Float32>)
    requires
        is_moderate_matrix(m),
    ensures
        close(determinant(m), volume(m), 48real, 10),
{
    let v = |i: int| m[i].value();
    assert(m[0].finite() && m[1].finite() && m[2].finite() && m[3].finite() && m[4].finite()
        && m[5].finite() && m[6].finite() && m[7].finite() && m[8].finite());
    lemma_close_minor(m[4], m[8], m[7], m[5]);
    lemma_close_minor(m[1], m[8], m[7], m[2]);
    lemma_close_minor(m[1], m[5], m[4], m[2]);
    let f = m[4] * m[8] - m[7] * m[5];
    let g = m[1] * m[8] - m[7] * m[2];
    let h = m[1] * m[5] - m[4] * m[2];
    let x = v(4) * v(8) - v(7) * v(5);
    let y = v(1) * v(8) - v(7) * v(2);
    let z = v(1) * v(5) - v(4) * v(2);
    lemma_close_start(m[0], 2real);
    lemma_close_start(m[3], 2real);
    lemma_close_start(m[6], 2real);
    lemma_close_product(m[0], v(0), 2real, 0, f, x, 8real, 4);
    lemma_close_product(m[3], v(3), 2real, 0, g, y, 8real, 4);
    lemma_close_product(m[6], v(6), 2real, 0, h, z, 8real, 4);
    lemma_close_opposite(m[3] * g, v(3) * y, 16real, 6);
    assert(m[0] * f - m[3] * g == m[0] * f + (m[3] * g).opposite()) by {
        reveal(Float32::minus);
    }
    lemma_close_sum(m[0] * f, v(0) * x, 16real, 6, (m[3] * g).opposite(), -(v(3) * y), 16real, 6, 6);
    lemma_close_sum(
        m[0] * f - m[3] * g,
        v(0) * x - v(3) * y,
        32real,
        8,
        m[6] * h,
        v(6) * z,
        16real,
        6,
        8,
    );
    lemma_volume_by_rows(v(0), v(1), v(2), v(3), v(4), v(5), v(6), v(7), v(8));
}

proof fn lemma_volume_by_rows(
    a: real,
    b: real,
    c: real,
    d: real,
    e: real,
    f: real,
    g: real,
    h: real,
    i: real,
)
    ensures
        a * (e * i - h * f) - d * (b * i - h * c) + g * (b * f - e * c) == inner(
            outer((d, e, f), (g, h, i)),
            (a, b, c),
        ),
{
    lemma_difference_times(e * i, h * f, a);
    lemma_difference_times(b * i, h * c, d);
    lemma_difference_times(b * f, e * c, g);
    lemma_difference_times(e * i, f * h, a);
    lemma_difference_times(f * g, d * i, b);
    lemma_difference_times(d * h, e * g, c);
    lemma_turned_product(h, f, a);
    lemma_turned_product(e, i, a);
    lemma_turned_product(b, i, d);
    lemma_turned_product(d, i, b);
    lemma_turned_product(h, c, d);
    lemma_turned_product(d, h, c);
    lemma_turned_product(b, f, g);
    lemma_turned_product(f, g, b);
    lemma_turned_product(e, c, g);
    lemma_turned_product(e, g, c);
}

/// One over a determinant is close to one over the volume.
proof fn lemma_close_reciprocal(whole: Float32, exact: real)
    requires
        close(whole, exact, 48real, 10),
        size(exact) >= 1real / 2real,
    ensures
        whole.magnitude() > 0,
        close((Float32 { bits: ONE }) / whole, 1real / exact, 2real, 964),
{
    let one = Float32 { bits: ONE };
    let v = whole.value();
    let steps: int = 10;
    let t = steps as real;
    assert(t * 48real == 480real);
    let (p, q) = (1real / exact, 1real / v);
    law_small_constants();
    lemma_grain();
    if whole.magnitude() == 0 {
        crate::arith::lemma_zero_is_nearest(1);
        assert(whole.scaled() == 0);
        assert(v == 0real) by {
            vstd::arithmetic::power2::lemma_pow2_pos(149);
            let u = vstd::arithmetic::power2::pow2(149) as real;
            assert(0real / u == 0real) by (nonlinear_arith)
                requires
                    u > 0real,
            ;
        }
    }
    lemma_reciprocal(exact);
    lemma_reciprocal(v);
    let d = exact - v;
    lemma_product_is_bounded(q, p, 2001real / 1000real, 2real);
    lemma_product_is_bounded(q * p, d, 2001real / 1000real * 2real, 480real / 8388608real);
    assert(q - p == (q * p) * d) by {
        let r = q * p;
        lemma_product_of_difference(r, exact, v);
        lemma_product_regroups(q, p, exact);
        lemma_product_regroups(p, q, v);
        lemma_product_regroups(q, p, 1real);
        lemma_product_regroups(q, 1real, 1real);
    }
    law_quotients_are_close(one, whole);
    let more: int = 964;
    let n = more as real;
    assert(n * 2real == 1928real);
}

proof fn lemma_reciprocal(x: real)
    requires
        size(x) >= 4999real / 10000real,
    ensures
        (1real / x) * x == 1real,
        size(1real / x) <= 2001real / 1000real,
        size(x) >= 1real / 2real ==> size(1real / x) <= 2real,
{
    let p = 1real / x;
    assert(p * x == 1real) by (nonlinear_arith)
        requires
            x != 0real,
            p == 1real / x,
    ;
    let (a, b) = (size(p), size(x));
    lemma_size_of_product(p, x);
    assert(a * b == 1real);
    if a > 2001real / 1000real {
        lemma_product_grows(4999real / 10000real, b, a);
        lemma_product_regroups(a, b, 1real);
        assert(false);
    }
    if b >= 1real / 2real && a > 2real {
        lemma_product_grows(1real / 2real, b, a);
        lemma_product_regroups(a, b, 1real);
        assert(false);
    }
}

/// A scalar product with a column that is close to a multiple of a vector.
proof fn lemma_close_column(
    n: (real, real, real),
    e: (real, real, real),
    c: (real, real, real),
    p: real,
)
    requires
        size(n.0 - e.0 * p) <= 15520real / 8388608real,
        size(n.1 - e.1 * p) <= 15520real / 8388608real,
        size(n.2 - e.2 * p) <= 15520real / 8388608real,
        size(c.0) <= 2real,
        size(c.1) <= 2real,
        size(c.2) <= 2real,
    ensures
        size(inner(n, c) - p * inner(e, c)) <= 1real / 64real,
{
    lemma_close_term(n.0, e.0, c.0, p);
    lemma_close_term(n.1, e.1, c.1, p);
    lemma_close_term(n.2, e.2, c.2, p);
    let (x, y, z) = (e.0 * c.0, e.1 * c.1, e.2 * c.2);
    lemma_product_of_sum(x + y, z, p);
    lemma_product_of_sum(x, y, p);
    lemma_product_regroups(p, x + y + z, 1real);
    lemma_product_regroups(p, x, 1real);
    lemma_product_regroups(p, y, 1real);
    lemma_product_regroups(p, z, 1real);
}

proof fn lemma_close_term(n: real, e: real, c: real, p: real)
    requires
        size(n - e * p) <= 15520real / 8388608real,
        size(c) <= 2real,
    ensures
        size(n * c - p * (e * c)) <= 31040real / 8388608real,
{
    lemma_difference_times(n, e * p, c);
    lemma_turned_product(e, p, c);
    lemma_turned_product(e, c, p);
    lemma_product_is_bounded(n - e * p, c, 15520real / 8388608real, 2real);
}

/// An element of the matrix for normals.
proof fn lemma_close_cofactor(minor: Float32, exact: real, factor: Float32, p: real)
    requires
        close(minor, exact, 8real, 4),
        close(factor, p, 2real, 964),
    ensures
        (minor * factor).finite(),
        size((minor * factor).value() - exact * p) <= 15520real / 8388608real,
{
    lemma_close_product(minor, exact, 8real, 4, factor, p, 2real, 964);
    let steps: int = 970;
    let n = steps as real;
    assert(n * 16real == 15520real);
}

/// The matrix for normals undoes the matrix from the other side: each of its columns is
/// perpendicular to the images of the other axes, and reaches one along the image of its own, within
/// a sixty-fourth. So it keeps normals perpendicular to surfaces.
pub proof fn law_matrices_for_normals_keep_right_angles(matrix: Mat4)
    requires
        is_moderate_matrix(matrix.linear()@),
        size(volume(matrix.linear()@)) >= 1real / 2real,
    ensures
        matrix.for_normals() matches Some(turning) && forall|i: int, j: int|
            0 <= i < 3 && 0 <= j < 3 ==> size(
                #[trigger] inner(column(turning@, i), column(matrix.linear()@, j)) - (if i == j {
                    1real
                } else {
                    0real
                }),
            ) <= 1real / 64real,
{
    let m = matrix.linear()@;
    lemma_close_determinant(m);
    let exact = volume(m);
    let whole = determinant(m);
    lemma_close_reciprocal(whole, exact);
    lemma_reciprocal(exact);
    let factor = (Float32 { bits: ONE }) / whole;
    let p = 1real / exact;
    assert(m[0].finite() && m[1].finite() && m[2].finite() && m[3].finite() && m[4].finite()
        && m[5].finite() && m[6].finite() && m[7].finite() && m[8].finite());
    let turning = matrix.for_normals()->Some_0;
    let n = turning@;
    let (a, b, c) = (column(m, 0), column(m, 1), column(m, 2));
    lemma_normal_column(m[3], m[4], m[5], m[6], m[7], m[8], factor, p);
    lemma_normal_column(m[6], m[7], m[8], m[0], m[1], m[2], factor, p);
    lemma_normal_column(m[0], m[1], m[2], m[3], m[4], m[5], factor, p);
    lemma_same_minors(m, factor);
    assert forall|j: int| 0 <= j < 3 implies size((#[trigger] column(m, j)).0) <= 2real && size(
        column(m, j).1,
    ) <= 2real && size(column(m, j).2) <= 2real by {
        assert(m[3 * j].finite() && m[3 * j + 1].finite() && m[3 * j + 2].finite());
    }
    lemma_outer_is_perpendicular(b, c);
    lemma_outer_is_perpendicular(c, a);
    lemma_outer_is_perpendicular(a, b);
    lemma_volumes_turn(b, c, a);
    lemma_volumes_turn(c, a, b);
    lemma_product_regroups(p, exact, 1real);
    lemma_product_regroups(p, 0real, 1real);
    assert forall|i: int, j: int| 0 <= i < 3 && 0 <= j < 3 implies size(
        #[trigger] inner(column(n, i), column(m, j)) - (if i == j {
            1real
        } else {
            0real
        }),
    ) <= 1real / 64real by {
        let e = if i == 0 {
            outer(b, c)
        } else if i == 1 {
            outer(c, a)
        } else {
            outer(a, b)
        };
        lemma_close_column(column(n, i), e, column(m, j), p);
        assert(inner(e, column(m, j)) == if i == j {
            exact
        } else {
            0real
        });
    }
}

/// A column of the matrix for normals is the scaled outer product of the other two columns.
proof fn lemma_normal_column(
    d: Float32,
    e: Float32,
    f: Float32,
    g: Float32,
    h: Float32,
    i: Float32,
    factor: Float32,
    p: real,
)
    requires
        d.finite() && e.finite() && f.finite() && g.finite() && h.finite() && i.finite(),
        size(d.value()) <= 2real,
        size(e.value()) <= 2real,
        size(f.value()) <= 2real,
        size(g.value()) <= 2real,
        size(h.value()) <= 2real,
        size(i.value()) <= 2real,
        close(factor, p, 2real, 964),
    ensures
        ({
            let exact = outer((d.value(), e.value(), f.value()), (g.value(), h.value(), i.value()));
            let limit = 15520real / 8388608real;
            &&& size(((e * i - h * f) * factor).value() - exact.0 * p) <= limit
            &&& size(((g * f - d * i) * factor).value() - exact.1 * p) <= limit
            &&& size(((d * h - g * e) * factor).value() - exact.2 * p) <= limit
            &&& size(((e * i - f * h) * factor).value() - exact.0 * p) <= limit
            &&& size(((f * g - d * i) * factor).value() - exact.1 * p) <= limit
            &&& size(((d * h - e * g) * factor).value() - exact.2 * p) <= limit
        }),
{
    crate::arith::law_products_commute(h, f);
    crate::arith::law_products_commute(g, f);
    crate::arith::law_products_commute(g, e);
    lemma_turned_product(h.value(), f.value(), 1real);
    lemma_turned_product(g.value(), f.value(), 1real);
    lemma_turned_product(g.value(), e.value(), 1real);
    lemma_close_minor(e, i, h, f);
    lemma_close_minor(g, f, d, i);
    lemma_close_minor(d, h, g, e);
    let exact = outer((d.value(), e.value(), f.value()), (g.value(), h.value(), i.value()));
    lemma_close_cofactor(e * i - h * f, exact.0, factor, p);
    lemma_close_cofactor(g * f - d * i, exact.1, factor, p);
    lemma_close_cofactor(d * h - g * e, exact.2, factor, p);
}

/// The minors of a matrix, with the factors of their products in either order.
proof fn lemma_same_minors(m: Seq<Float32>, factor: Float32)
    ensures
        m[7] * m[2] == m[2] * m[7],
        m[6] * m[2] == m[2] * m[6],
        m[6] * m[1] == m[1] * m[6],
        m[0] * m[8] == m[8] * m[0],
        m[1] * m[8] == m[8] * m[1],
        m[0] * m[7] == m[7] * m[0],
        m[1] * m[5] == m[5] * m[1],
        m[4] * m[2] == m[2] * m[4],
        m[3] * m[2] == m[2] * m[3],
        m[0] * m[5] == m[5] * m[0],
        m[0] * m[4] == m[4] * m[0],
        m[3] * m[1] == m[1] * m[3],
{
    crate::arith::law_products_commute(m[7], m[2]);
    crate::arith::law_products_commute(m[6], m[2]);
    crate::arith::law_products_commute(m[6], m[1]);
    crate::arith::law_products_commute(m[0], m[8]);
    crate::arith::law_products_commute(m[1], m[8]);
    crate::arith::law_products_commute(m[0], m[7]);
    crate::arith::law_products_commute(m[1], m[5]);
    crate::arith::law_products_commute(m[4], m[2]);
    crate::arith::law_products_commute(m[3], m[2]);
    crate::arith::law_products_commute(m[0], m[5]);
    crate::arith::law_products_commute(m[0], m[4]);
    crate::arith::law_products_commute(m[3], m[1]);
}

/// A point as real numbers.
pub open spec fn place_of(point: Vec3) -> (real, real, real) {
    (point.x.value(), point.y.value(), point.z.value())
}

/// The way from one place to another.
pub open spec fn way(from: (real, real, real), to: (real, real, real)) -> (real, real, real) {
    (to.0 - from.0, to.1 - from.1, to.2 - from.2)
}

proof fn lemma_close_way(to: Float32, from: Float32, r: real)
    requires
        to.finite() && from.finite(),
        size(to.value()) <= r,
        size(from.value()) <= r,
        1real <= r <= 33554432real,
    ensures
        close(to - from, to.value() - from.value(), 2real * r, 2),
{
    lemma_close_start(to, r);
    lemma_close_start(from, r);
    lemma_close_opposite(from, from.value(), r, 0);
    assert(to - from == to + from.opposite()) by {
        reveal(Float32::minus);
    }
    lemma_close_sum(to, to.value(), r, 0, from.opposite(), -from.value(), r, 0, 0);
}

proof fn lemma_close_outer(
    f: (Float32, real),
    g: (Float32, real),
    h: (Float32, real),
    k: (Float32, real),
    r: real,
)
    requires
        close(f.0, f.1, 2real * r, 2),
        close(g.0, g.1, 2real * r, 2),
        close(h.0, h.1, 2real * r, 2),
        close(k.0, k.1, 2real * r, 2),
        1real <= r <= 33554432real,
    ensures
        close(
            f.0 * g.0 - h.0 * k.0,
            f.1 * g.1 - h.1 * k.1,
            2real * ((2real * r) * (2real * r)),
            8,
        ),
{
    let m = 2real * r;
    let u = m * m;
    lemma_product_grows(m, 67108864real, m);
    lemma_close_product(f.0, f.1, m, 2, g.0, g.1, m, 2);
    lemma_close_product(h.0, h.1, m, 2, k.0, k.1, m, 2);
    let (p, q) = (f.0 * g.0, h.0 * k.0);
    lemma_close_opposite(q, h.1 * k.1, u, 6);
    assert(p - q == p + q.opposite()) by {
        reveal(Float32::minus);
    }
    lemma_close_sum(p, f.1 * g.1, u, 6, q.opposite(), -(h.1 * k.1), u, 6, 6);
}

/// A face is turned to the side that its corners go round counterclockwise on: its normal is the
/// outer product of the ways from its first corner to the second and to the third, up to rounding.
pub proof fn law_faces_are_turned_counterclockwise(
    vertices: Seq<MeshVertex>,
    triangle: [usize; 3],
    r: real,
)
    requires
        corners_exist(triangle, vertices.len()),
        1real <= r <= 33554432real,
        reaches(vertices[triangle[0] as int].position, r),
        reaches(vertices[triangle[1] as int].position, r),
        reaches(vertices[triangle[2] as int].position, r),
    ensures
        ({
            let first = place_of(vertices[triangle[0] as int].position);
            let second = place_of(vertices[triangle[1] as int].position);
            let third = place_of(vertices[triangle[2] as int].position);
            let exact = outer(way(first, second), way(first, third));
            let normal = face_normal(vertices, triangle);
            let bound = 2real * ((2real * r) * (2real * r));
            &&& close(normal.x, exact.0, bound, 8)
            &&& close(normal.y, exact.1, bound, 8)
            &&& close(normal.z, exact.2, bound, 8)
        }),
{
    let a = vertices[triangle[0] as int].position;
    let b = vertices[triangle[1] as int].position;
    let c = vertices[triangle[2] as int].position;
    lemma_close_way(b.x, a.x, r);
    lemma_close_way(b.y, a.y, r);
    lemma_close_way(b.z, a.z, r);
    lemma_close_way(c.x, a.x, r);
    lemma_close_way(c.y, a.y, r);
    lemma_close_way(c.z, a.z, r);
    let (u, v) = (b - a, c - a);
    let (p, q) = (way(place_of(a), place_of(b)), way(place_of(a), place_of(c)));
    lemma_close_outer((u.y, p.1), (v.z, q.2), (u.z, p.2), (v.y, q.1), r);
    lemma_close_outer((u.z, p.2), (v.x, q.0), (u.x, p.0), (v.z, q.2), r);
    lemma_close_outer((u.x, p.0), (v.y, q.1), (u.y, p.1), (v.x, q.0), r);
}

} // verus!
