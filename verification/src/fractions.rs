//! Fractions with a common denominator: which way three points turn, whether a point lies in a
//! triangle, and whether segments meet.
use vstd::prelude::*;
use crate::areas::tri;
use crate::exact::Exact;
use crate::exact_areas::{lemma_area_formula, lemma_bounded, LIMIT};
use crate::geometry::{area_xy_spec, on_segment_spec, point_in_triangle_spec, segments_meet, zero};
use crate::meeting::{
    cross_inside, lemma_apart_means, lemma_crossing_means, lemma_in_box_on, moderate, share_point,
};
use crate::scalar::Scalar;
use crate::segments::{lemma_differences, on};

verus! {

/// The greatest common denominator with which areas are certain not to overflow.
pub const PARTS: i128 = 1024;

/// The fraction of two integers that fit.
pub open spec fn part(n: int, d: int) -> Exact {
    Exact { num: n as i128, den: d as i128 }
}

/// Products of differences of fractions.
proof fn lemma_part_product(a: int, b: int, c: int, g: int, d: int)
    requires
        -LIMIT <= a <= LIMIT,
        -LIMIT <= b <= LIMIT,
        -LIMIT <= c <= LIMIT,
        -LIMIT <= g <= LIMIT,
        1 <= d <= PARTS,
    ensures
        ({
            let r = part(a, d).minus_spec(part(b, d)).times_spec(
                part(c, d).minus_spec(part(g, d)),
            );
            let e = d * d;
            let m = (a - b) * (c - g);
            &&& r == part(e * m, e * e)
            &&& 1 <= e <= 0x10_0000
            &&& 1 <= e * e <= 0x100_0000_0000
            &&& -0x4000_0000_0000_0000 <= m <= 0x4000_0000_0000_0000
            &&& -0x4_0000_0000_0000_0000_0000 <= e * m <= 0x4_0000_0000_0000_0000_0000
        }),
{
    let e = d * d;
    let m = (a - b) * (c - g);
    let s = 2 * LIMIT;
    assert(1 <= e <= 0x10_0000) by (nonlinear_arith)
        requires
            1 <= d <= 1024,
            e == d * d,
    ;
    assert(1 <= e * e <= 0x100_0000_0000) by (nonlinear_arith)
        requires
            1 <= e <= 0x10_0000,
    ;
    lemma_bounded(a - b, c - g, s, s);
    assert(s * s == 0x4000_0000_0000_0000) by (nonlinear_arith)
        requires
            s == 0x8000_0000,
    ;
    lemma_bounded(e, m, 0x10_0000, 0x4000_0000_0000_0000);
    lemma_bounded(a, d, LIMIT as int, PARTS as int);
    lemma_bounded(b, d, LIMIT as int, PARTS as int);
    lemma_bounded(c, d, LIMIT as int, PARTS as int);
    lemma_bounded(g, d, LIMIT as int, PARTS as int);
    let (u, v) = (a * d - b * d, c * d - g * d);
    assert(u == (a - b) * d && v == (c - g) * d) by (nonlinear_arith)
        requires
            u == a * d - b * d,
            v == c * d - g * d,
    ;
    assert(u * v == e * m) by (nonlinear_arith)
        requires
            u == (a - b) * d,
            v == (c - g) * d,
            e == d * d,
            m == (a - b) * (c - g),
    ;
}

/// The difference of two such products has the sign that it ought to have.
proof fn lemma_part_signs(e: int, m: int, n: int)
    requires
        1 <= e <= 0x10_0000,
        -0x4000_0000_0000_0000 <= m <= 0x4000_0000_0000_0000,
        -0x4000_0000_0000_0000 <= n <= 0x4000_0000_0000_0000,
    ensures
        ({
            let (x, y) = (part(e * m, e * e), part(e * n, e * e));
            let r = x.minus_spec(y);
            &&& r.less_spec(zero::<Exact>()) <==> m < n
            &&& zero::<Exact>().less_spec(r) <==> n < m
            &&& r.same_spec(zero::<Exact>()) <==> m == n
            &&& x.at_most_spec(y) <==> m <= n
        }),
{
    let f = e * e;
    let (u, v) = (e * m, e * n);
    assert(1 <= f <= 0x100_0000_0000) by (nonlinear_arith)
        requires
            1 <= e <= 0x10_0000,
            f == e * e,
    ;
    lemma_bounded(e, m, 0x10_0000, 0x4000_0000_0000_0000);
    lemma_bounded(e, n, 0x10_0000, 0x4000_0000_0000_0000);
    lemma_bounded(u, f, 0x4_0000_0000_0000_0000_0000, 0x100_0000_0000);
    lemma_bounded(v, f, 0x4_0000_0000_0000_0000_0000, 0x100_0000_0000);
    lemma_bounded(f, f, 0x100_0000_0000, 0x100_0000_0000);
    assert(f * f > 0) by (nonlinear_arith)
        requires
            f >= 1,
    ;
    assert((u < v <==> m < n) && (u == v <==> m == n)) by (nonlinear_arith)
        requires
            u == e * m,
            v == e * n,
            e >= 1,
    ;
    assert((u * f < v * f <==> u < v) && (u * f == v * f <==> u == v)) by (nonlinear_arith)
        requires
            f >= 1,
    ;
    let r = part(u, f).minus_spec(part(v, f));
    assert(r.num == u * f - v * f && r.den == f * f);
    assert(zero::<Exact>().num == 0 && zero::<Exact>().den == 1);
    let (k, l) = (r.num as int, r.den as int);
    assert(k * 1 == k && 0 * l == 0) by (nonlinear_arith);
}

/// Which way three points turn is found as it is.
pub proof fn lemma_part_area(p: (int, int), q: (int, int), r: (int, int), d: int)
    requires
        moderate(p),
        moderate(q),
        moderate(r),
        1 <= d <= PARTS,
    ensures
        ({
            let a = area_xy_spec(
                part(p.0, d),
                part(p.1, d),
                part(q.0, d),
                part(q.1, d),
                part(r.0, d),
                part(r.1, d),
            );
            &&& a.less_spec(zero::<Exact>()) <==> tri(p, q, r) > 0
            &&& zero::<Exact>().less_spec(a) <==> tri(p, q, r) < 0
            &&& a.same_spec(zero::<Exact>()) <==> tri(p, q, r) == 0
        }),
{
    lemma_part_product(q.1, p.1, r.0, q.0, d);
    lemma_part_product(q.0, p.0, r.1, q.1, d);
    lemma_part_signs(d * d, (q.1 - p.1) * (r.0 - q.0), (q.0 - p.0) * (r.1 - q.1));
    lemma_area_formula(p.0, p.1, q.0, q.1, r.0, r.1);
}

/// On which side of an edge a point is found.
proof fn lemma_part_side(a: (int, int), b: (int, int), p: (int, int), d: int)
    requires
        moderate(a),
        moderate(b),
        moderate(p),
        1 <= d <= PARTS,
    ensures
        part(b.0, d).minus_spec(part(p.0, d)).times_spec(
            part(a.1, d).minus_spec(part(p.1, d)),
        ).at_most_spec(
            part(a.0, d).minus_spec(part(p.0, d)).times_spec(
                part(b.1, d).minus_spec(part(p.1, d)),
            ),
        ) <==> tri(a, b, p) >= 0,
{
    lemma_part_product(b.0, p.0, a.1, p.1, d);
    lemma_part_product(a.0, p.0, b.1, p.1, d);
    lemma_part_signs(d * d, (b.0 - p.0) * (a.1 - p.1), (a.0 - p.0) * (b.1 - p.1));
    lemma_differences(b.0, p.0, a.1, p.1);
    lemma_differences(a.0, p.0, b.1, p.1);
}

/// A point is found to lie in a triangle exactly if it lies on no outer side of an edge.
pub proof fn lemma_part_triangle(
    a: (int, int),
    b: (int, int),
    c: (int, int),
    p: (int, int),
    d: int,
)
    requires
        moderate(a),
        moderate(b),
        moderate(c),
        moderate(p),
        1 <= d <= PARTS,
    ensures
        point_in_triangle_spec(
            part(a.0, d),
            part(a.1, d),
            part(b.0, d),
            part(b.1, d),
            part(c.0, d),
            part(c.1, d),
            part(p.0, d),
            part(p.1, d),
        ) <==> tri(a, b, p) >= 0 && tri(b, c, p) >= 0 && tri(c, a, p) >= 0,
{
    lemma_part_side(a, b, p, d);
    lemma_part_side(b, c, p, d);
    lemma_part_side(c, a, p, d);
}

/// Comparing two fractions with one denominator.
proof fn lemma_part_order(a: int, b: int, d: int)
    requires
        -LIMIT <= a <= LIMIT,
        -LIMIT <= b <= LIMIT,
        1 <= d <= PARTS,
    ensures
        part(a, d).upper_spec(part(b, d)) == part(
            if a < b {
                b
            } else {
                a
            },
            d,
        ),
        part(a, d).lower_spec(part(b, d)) == part(
            if b < a {
                b
            } else {
                a
            },
            d,
        ),
        part(a, d).at_most_spec(part(b, d)) <==> a <= b,
{
    lemma_bounded(a, d, LIMIT as int, PARTS as int);
    lemma_bounded(b, d, LIMIT as int, PARTS as int);
    assert((a * d < b * d <==> a < b) && (a * d == b * d <==> a == b)) by (nonlinear_arith)
        requires
            d >= 1,
    ;
}

/// Whether a point on the line of a segment is found on the segment.
proof fn lemma_part_on(u: (int, int), v: (int, int), p: (int, int), d: int)
    requires
        moderate(u),
        moderate(v),
        moderate(p),
        1 <= d <= PARTS,
        tri(u, v, p) == 0,
    ensures
        on_segment_spec(
            part(u.0, d),
            part(u.1, d),
            part(p.0, d),
            part(p.1, d),
            part(v.0, d),
            part(v.1, d),
        ) <==> on(u, v, p),
{
    lemma_in_box_on(u, v, p);
    lemma_part_order(u.0, v.0, d);
    lemma_part_order(u.1, v.1, d);
    let (x0, x1) = if v.0 < u.0 {
        (v.0, u.0)
    } else {
        (u.0, v.0)
    };
    let (y0, y1) = if v.1 < u.1 {
        (v.1, u.1)
    } else {
        (u.1, v.1)
    };
    lemma_part_order(p.0, x1, d);
    lemma_part_order(x0, p.0, d);
    lemma_part_order(p.1, y1, d);
    lemma_part_order(y0, p.1, d);
}

/// Segments are found to meet as they do: with the boundary exactly if they have a point in common,
/// and without it exactly if they cross inside both.
pub proof fn lemma_part_meeting(
    u: (int, int),
    v: (int, int),
    q: (int, int),
    w: (int, int),
    d: int,
)
    requires
        moderate(u),
        moderate(v),
        moderate(q),
        moderate(w),
        1 <= d <= PARTS,
    ensures
        segments_meet(
            part(u.0, d),
            part(u.1, d),
            part(v.0, d),
            part(v.1, d),
            part(q.0, d),
            part(q.1, d),
            part(w.0, d),
            part(w.1, d),
            true,
        ) <==> share_point(u, v, q, w),
        segments_meet(
            part(u.0, d),
            part(u.1, d),
            part(v.0, d),
            part(v.1, d),
            part(q.0, d),
            part(q.1, d),
            part(w.0, d),
            part(w.1, d),
            false,
        ) <==> cross_inside(u, v, q, w),
{
    lemma_apart_means(u, v, q, w);
    lemma_crossing_means(u, v, q, w);
    lemma_part_area(u, v, q, d);
    lemma_part_area(u, v, w, d);
    lemma_part_area(q, w, u, d);
    lemma_part_area(q, w, v, d);
    if tri(u, v, q) == 0 {
        lemma_part_on(u, v, q, d);
    }
    if tri(u, v, w) == 0 {
        lemma_part_on(u, v, w, d);
    }
    if tri(q, w, u) == 0 {
        lemma_part_on(q, w, u, d);
    }
    if tri(q, w, v) == 0 {
        lemma_part_on(q, w, v, d);
    }
}

} // verus!
