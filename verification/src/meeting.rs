//! What it means that segments meet.
use vstd::prelude::*;
use crate::areas::tri;
use crate::exact::{fits, whole};
use crate::exact_areas::{lemma_corner_area, lemma_whole, LIMIT};
use crate::geometry::{on_segment_spec, opposite, segments_meet};
use crate::scalar::Scalar;
use crate::segments::{
    affine, apart, astride, crossing, height, lemma_apart, lemma_differences, lemma_four,
    lemma_height, lemma_side, lemma_signs, lemma_tri, on, opposed, side, spread_of,
};
use crate::winding::lemma_apart_swapped;

verus! {

/// The point of the segment from `u` to `v` that divides it as `t` to `s` is the point of the
/// segment from `q` to `w` that divides it as `b` to `a`.
pub open spec fn meets_at(
    u: (int, int),
    v: (int, int),
    q: (int, int),
    w: (int, int),
    s: int,
    t: int,
    a: int,
    b: int,
) -> bool {
    &&& s >= 0 && t >= 0 && a >= 0 && b >= 0
    &&& s + t == a + b
    &&& s + t > 0
    &&& s * u.0 + t * v.0 == a * q.0 + b * w.0
    &&& s * u.1 + t * v.1 == a * q.1 + b * w.1
}

/// The segments from `u` to `v` and from `q` to `w`, ends included, have a point in common.
pub open spec fn share_point(
    u: (int, int),
    v: (int, int),
    q: (int, int),
    w: (int, int),
) -> bool {
    exists|s: int, t: int, a: int, b: int| #[trigger] meets_at(u, v, q, w, s, t, a, b)
}

/// The segments have a point in common that is an end of neither, and do not lie on one line.
pub open spec fn cross_inside(
    u: (int, int),
    v: (int, int),
    q: (int, int),
    w: (int, int),
) -> bool {
    &&& tri(u, v, q) != 0 || tri(u, v, w) != 0
    &&& exists|s: int, t: int, a: int, b: int|
        s > 0 && t > 0 && a > 0 && b > 0 && #[trigger] meets_at(u, v, q, w, s, t, a, b)
}

/// The value of an affine function where two segments meet.
proof fn lemma_meets_affine(
    k: (int, int, int),
    u: (int, int),
    v: (int, int),
    q: (int, int),
    w: (int, int),
    s: int,
    t: int,
    a: int,
    b: int,
)
    requires
        meets_at(u, v, q, w, s, t, a, b),
    ensures
        s * affine(k, u) + t * affine(k, v) == a * affine(k, q) + b * affine(k, w),
{
    lemma_weighted_pair(k, u, v, s, t);
    lemma_weighted_pair(k, q, w, a, b);
}

/// The value of an affine function between two points.
proof fn lemma_weighted_pair(k: (int, int, int), u: (int, int), v: (int, int), s: int, t: int)
    ensures
        s * affine(k, u) + t * affine(k, v) == k.0 * (s + t) + k.1 * (s * u.0 + t * v.0) + k.2 * (s
            * u.1 + t * v.1),
{
    lemma_weighted_one(k, u, s);
    lemma_weighted_one(k, v, t);
    assert(k.0 * (s + t) == k.0 * s + k.0 * t) by (nonlinear_arith);
    assert(k.1 * (s * u.0 + t * v.0) == k.1 * (s * u.0) + k.1 * (t * v.0)) by (nonlinear_arith);
    assert(k.2 * (s * u.1 + t * v.1) == k.2 * (s * u.1) + k.2 * (t * v.1)) by (nonlinear_arith);
}

/// The weight of a point in an affine function, coordinate by coordinate.
proof fn lemma_weighted_one(k: (int, int, int), p: (int, int), s: int)
    ensures
        s * affine(k, p) == k.0 * s + k.1 * (s * p.0) + k.2 * (s * p.1),
{
    let (x, y) = (k.1 * p.0, k.2 * p.1);
    assert(s * (k.0 + x + y) == k.0 * s + s * x + s * y) by (nonlinear_arith);
    assert(s * x == k.1 * (s * p.0)) by (nonlinear_arith)
        requires
            x == k.1 * p.0,
    ;
    assert(s * y == k.2 * (s * p.1)) by (nonlinear_arith)
        requires
            y == k.2 * p.1,
    ;
}

/// A coordinate of a point on a segment, where the heights of the ends and the point are known.
proof fn lemma_shares(hu: int, hv: int, hq: int, u: int, v: int, q: int, s: int, t: int)
    requires
        (hv - hu) * (q - u) == (hq - hu) * (v - u),
        s == hv - hq,
        t == hq - hu,
    ensures
        s * u + t * v == (s + t) * q,
        (-s) * u + (-t) * v == (-s - t) * q,
{
    lemma_differences(hv, hu, q, u);
    lemma_differences(hq, hu, v, u);
    assert(s * u == hv * u - hq * u) by (nonlinear_arith)
        requires
            s == hv - hq,
    ;
    assert(t * v == hq * v - hu * v) by (nonlinear_arith)
        requires
            t == hq - hu,
    ;
    assert((s + t) * q == hv * q - hu * q) by (nonlinear_arith)
        requires
            s + t == hv - hu,
    ;
    assert((-s) * u == -(s * u)) by (nonlinear_arith);
    assert((-t) * v == -(t * v)) by (nonlinear_arith);
    assert((-s - t) * q == -((s + t) * q)) by (nonlinear_arith);
}

/// A sum with one summand weighted.
proof fn lemma_weighted_sum(x: int, y: int, k: int, z: int)
    ensures
        (x + k * y) * z == x * z + k * (y * z),
{
    assert((x + k * y) * z == x * z + k * (y * z)) by (nonlinear_arith);
}

/// The shares of the ends of a segment in a point on it.
#[verifier::spinoff_prover]
pub(crate) proof fn lemma_on_shares(u: (int, int), v: (int, int), p: (int, int)) -> (st: (int, int))
    requires
        on(u, v, p),
    ensures
        st.0 >= 0,
        st.1 >= 0,
        st.0 + st.1 > 0,
        st.0 * u.0 + st.1 * v.0 == (st.0 + st.1) * p.0,
        st.0 * u.1 + st.1 * v.1 == (st.0 + st.1) * p.1,
{
    let k = spread_of(u, v, p, p);
    let (hu, hv, hp) = (affine(height(k), u), affine(height(k), v), affine(height(k), p));
    lemma_height(k, p, u);
    lemma_height(k, p, v);
    lemma_height(k, u, p);
    lemma_height(k, v, p);
    lemma_height(k, u, v);
    if u == v {
        assert(p == u);
        (1, 0)
    } else {
        let (dv, dp) = ((v.0 - u.0, v.1 - u.1), (p.0 - u.0, p.1 - u.1));
        lemma_differences(v.0, u.0, p.1, u.1);
        lemma_differences(v.1, u.1, p.0, u.0);
        assert(dv.0 * dp.1 - dv.1 * dp.0 == tri(u, v, p));
        assert(k * v.1 - k * u.1 == k * dv.1) by (nonlinear_arith)
            requires
                dv.1 == v.1 - u.1,
        ;
        assert(k * p.1 - k * u.1 == k * dp.1) by (nonlinear_arith)
            requires
                dp.1 == p.1 - u.1,
        ;
        assert(hv - hu == dv.0 + k * dv.1);
        assert(hp - hu == dp.0 + k * dp.1);
        lemma_weighted_sum(dv.0, dv.1, k, dp.0);
        lemma_weighted_sum(dp.0, dp.1, k, dv.0);
        lemma_weighted_sum(dv.0, dv.1, k, dp.1);
        lemma_weighted_sum(dp.0, dp.1, k, dv.1);
        assert(dv.0 * dp.0 == dp.0 * dv.0 && dv.1 * dp.1 == dp.1 * dv.1 && dv.0 * dp.1 == dp.1
            * dv.0 && dv.1 * dp.0 == dp.0 * dv.1) by (nonlinear_arith);
        let (s, t) = (hv - hp, hp - hu);
        lemma_shares(hu, hv, hp, u.0, v.0, p.0, s, t);
        lemma_shares(hu, hv, hp, u.1, v.1, p.1, s, t);
        if hu < hv {
            (s, t)
        } else {
            (-s, -t)
        }
    }
}

/// Segments of which one has an end on the other have a point in common.
proof fn lemma_end_shared(u: (int, int), v: (int, int), q: (int, int), w: (int, int))
    requires
        on(u, v, q),
    ensures
        share_point(u, v, q, w),
        share_point(u, v, w, q),
        share_point(q, w, u, v),
        share_point(w, q, u, v),
{
    let (s, t) = lemma_on_shares(u, v, q);
    let z = s + t;
    assert(0 * w.0 == 0 && 0 * w.1 == 0);
    assert(meets_at(u, v, q, w, s, t, z, 0));
    assert(meets_at(u, v, w, q, s, t, 0, z));
    assert(meets_at(q, w, u, v, z, 0, s, t));
    assert(meets_at(w, q, u, v, 0, z, s, t));
}

/// Where segments cross.
proof fn lemma_crossing_at(u: (int, int), v: (int, int), q: (int, int), w: (int, int))
    requires
        crossing(u, v, q, w),
    ensures
        cross_inside(u, v, q, w),
        share_point(u, v, q, w),
{
    let (o1, o2, o3, o4) = (tri(u, v, q), tri(u, v, w), tri(q, w, u), tri(q, w, v));
    lemma_tri(v, q, w);
    lemma_tri(u, q, w);
    lemma_four((0, 1, 0), u, v, q, w);
    lemma_four((0, 0, 1), u, v, q, w);
    lemma_signs(o3, v.0);
    lemma_signs(o3, v.1);
    lemma_signs(o1, w.0);
    lemma_signs(o1, w.1);
    lemma_signs(o2, q.0);
    lemma_signs(o2, q.1);
    lemma_signs(o4, u.0);
    lemma_signs(o4, u.1);
    if o4 > 0 {
        assert(meets_at(u, v, q, w, o4, -o3, -o2, o1));
    } else {
        assert(meets_at(u, v, q, w, -o4, o3, o2, -o1));
    }
}

/// Two numbers that balance out with weights that are not negative.
proof fn lemma_weighed_out(a: int, b: int, x: int, y: int)
    requires
        a >= 0,
        b >= 0,
        a + b > 0,
        a * x + b * y == 0,
    ensures
        astride(x, y),
        a > 0 && b > 0 ==> opposed(x, y) || (x == 0 && y == 0),
{
    lemma_signs(a, x);
    lemma_signs(b, y);
}

/// The triangles of one segment with the ends of another that meets it.
pub(crate) proof fn lemma_met_sides(
    u: (int, int),
    v: (int, int),
    q: (int, int),
    w: (int, int),
    s: int,
    t: int,
    a: int,
    b: int,
)
    requires
        meets_at(u, v, q, w, s, t, a, b),
    ensures
        astride(tri(u, v, q), tri(u, v, w)),
        astride(tri(q, w, u), tri(q, w, v)),
        a > 0 && b > 0 ==> opposed(tri(u, v, q), tri(u, v, w)) || (tri(u, v, q) == 0 && tri(
            u,
            v,
            w,
        ) == 0),
        s > 0 && t > 0 ==> opposed(tri(q, w, u), tri(q, w, v)) || (tri(q, w, u) == 0 && tri(
            q,
            w,
            v,
        ) == 0),
{
    lemma_meets_affine(side(u, v), u, v, q, w, s, t, a, b);
    lemma_meets_affine(side(q, w), u, v, q, w, s, t, a, b);
    lemma_side(u, v, u);
    lemma_side(u, v, v);
    lemma_side(u, v, q);
    lemma_side(u, v, w);
    lemma_side(q, w, u);
    lemma_side(q, w, v);
    lemma_side(q, w, q);
    lemma_side(q, w, w);
    lemma_tri(u, v, q);
    lemma_tri(q, w, u);
    assert(s * 0 + t * 0 == 0 && a * 0 + b * 0 == 0);
    lemma_weighed_out(a, b, tri(u, v, q), tri(u, v, w));
    lemma_weighed_out(s, t, tri(q, w, u), tri(q, w, v));
}

/// An average lies between what it is taken of.
pub(crate) proof fn lemma_average(s: int, t: int, x: int, y: int, l: int, h: int)
    requires
        s >= 0,
        t >= 0,
        l <= x <= h,
        l <= y <= h,
    ensures
        (s + t) * l <= s * x + t * y <= (s + t) * h,
{
    assert(s * l <= s * x <= s * h) by (nonlinear_arith)
        requires
            s >= 0,
            l <= x <= h,
    ;
    assert(t * l <= t * y <= t * h) by (nonlinear_arith)
        requires
            t >= 0,
            l <= y <= h,
    ;
    assert((s + t) * l == s * l + t * l && (s + t) * h == s * h + t * h) by (nonlinear_arith);
}

/// Segments on one line that are apart do not meet.
#[verifier::spinoff_prover]
proof fn lemma_line_apart(
    u: (int, int),
    v: (int, int),
    q: (int, int),
    w: (int, int),
    s: int,
    t: int,
    a: int,
    b: int,
)
    requires
        apart(u, v, q, w),
        tri(u, v, q) == 0,
        tri(u, v, w) == 0,
        tri(q, w, u) == 0,
        tri(q, w, v) == 0,
    ensures
        !meets_at(u, v, q, w, s, t, a, b),
{
    if meets_at(u, v, q, w, s, t, a, b) {
        let k = spread_of(u, v, q, w);
        let h = height(k);
        let (hu, hv, hq, hw) = (affine(h, u), affine(h, v), affine(h, q), affine(h, w));
        lemma_meets_affine(h, u, v, q, w, s, t, a, b);
        lemma_height(k, q, u);
        lemma_height(k, q, v);
        lemma_height(k, u, q);
        lemma_height(k, v, q);
        lemma_height(k, w, u);
        lemma_height(k, w, v);
        lemma_height(k, u, w);
        lemma_height(k, v, w);
        let (l1, h1) = if hu <= hv {
            (hu, hv)
        } else {
            (hv, hu)
        };
        let (l2, h2) = if hq <= hw {
            (hq, hw)
        } else {
            (hw, hq)
        };
        lemma_average(s, t, hu, hv, l1, h1);
        lemma_average(a, b, hq, hw, l2, h2);
        let z = s + t;
        assert(h1 < l2 || h2 < l1);
        assert(h1 < l2 ==> z * h1 < z * l2) by (nonlinear_arith)
            requires
                z > 0,
        ;
        assert(h2 < l1 ==> z * h2 < z * l1) by (nonlinear_arith)
            requires
                z > 0,
        ;
    }
}

/// Segments that are apart have no point in common, and all others have one.
pub proof fn lemma_apart_means(u: (int, int), v: (int, int), q: (int, int), w: (int, int))
    ensures
        apart(u, v, q, w) <==> !share_point(u, v, q, w),
{
    if !apart(u, v, q, w) {
        if crossing(u, v, q, w) {
            lemma_crossing_at(u, v, q, w);
        } else if on(u, v, q) {
            lemma_end_shared(u, v, q, w);
        } else if on(u, v, w) {
            lemma_end_shared(u, v, w, q);
        } else if on(q, w, u) {
            lemma_end_shared(q, w, u, v);
        } else {
            lemma_end_shared(q, w, v, u);
        }
    } else {
        assert forall|s: int, t: int, a: int, b: int| !#[trigger] meets_at(
            u,
            v,
            q,
            w,
            s,
            t,
            a,
            b,
        ) by {
            if meets_at(u, v, q, w, s, t, a, b) {
                lemma_met_sides(u, v, q, w, s, t, a, b);
                lemma_apart_swapped(u, v, q, w);
                if tri(u, v, q) != 0 || tri(u, v, w) != 0 {
                    lemma_apart(u, v, q, w);
                } else if tri(q, w, u) != 0 || tri(q, w, v) != 0 {
                    lemma_apart(q, w, u, v);
                } else {
                    lemma_line_apart(u, v, q, w, s, t, a, b);
                }
            }
        }
    }
}

/// Segments cross exactly if they have a point in common that is an end of neither, and do not lie
/// on one line.
pub proof fn lemma_crossing_means(u: (int, int), v: (int, int), q: (int, int), w: (int, int))
    ensures
        crossing(u, v, q, w) <==> cross_inside(u, v, q, w),
{
    if crossing(u, v, q, w) {
        lemma_crossing_at(u, v, q, w);
    } else if cross_inside(u, v, q, w) {
        let (s, t, a, b) = choose|s: int, t: int, a: int, b: int|
            s > 0 && t > 0 && a > 0 && b > 0 && #[trigger] meets_at(u, v, q, w, s, t, a, b);
        lemma_met_sides(u, v, q, w, s, t, a, b);
        lemma_four((0, 0, 0), u, v, q, w);
        lemma_tri(v, q, w);
        lemma_tri(u, q, w);
    }
}

/// The coordinates are integers of moderate size.
pub open spec fn moderate(p: (int, int)) -> bool {
    -LIMIT <= p.0 <= LIMIT && -LIMIT <= p.1 <= LIMIT
}

/// Of two integers the greater and the lesser.
pub(crate) proof fn lemma_whole_ends(a: int, b: int)
    requires
        fits(a),
        fits(b),
    ensures
        whole(a).upper_spec(whole(b)) == whole(if a < b {
            b
        } else {
            a
        }),
        whole(a).lower_spec(whole(b)) == whole(if b < a {
            b
        } else {
            a
        }),
        whole(a).at_most_spec(whole(b)) <==> a <= b,
{
    lemma_whole(a, b);
    lemma_whole(b, a);
}

/// The point is in the box around the segment.
pub(crate) open spec fn in_box(u: (int, int), v: (int, int), p: (int, int)) -> bool {
    &&& (u.0 <= p.0 <= v.0 || v.0 <= p.0 <= u.0)
    &&& (u.1 <= p.1 <= v.1 || v.1 <= p.1 <= u.1)
}

/// A point on the line through a segment is on the segment exactly if it is in the box around it.
pub(crate) proof fn lemma_in_box_on(u: (int, int), v: (int, int), p: (int, int))
    requires
        tri(u, v, p) == 0,
    ensures
        on(u, v, p) <==> in_box(u, v, p),
{
    if on(u, v, p) {
        let (s, t) = lemma_on_shares(u, v, p);
        lemma_share_between(s, t, u.0, v.0, p.0);
        lemma_share_between(s, t, u.1, v.1, p.1);
    } else if in_box(u, v, p) {
        lemma_differences(v.0, u.0, p.1, u.1);
        lemma_differences(v.1, u.1, p.0, u.0);
        lemma_differences(u.0, v.0, p.1, v.1);
        lemma_differences(u.1, v.1, p.0, v.0);
        lemma_signs(v.0 - u.0, p.1 - u.1);
        lemma_signs(v.1 - u.1, p.0 - u.0);
        lemma_signs(u.0 - v.0, p.1 - v.1);
        lemma_signs(u.1 - v.1, p.0 - v.0);
    }
}

/// A weighted average lies between its ends.
pub(crate) proof fn lemma_share_between(s: int, t: int, u: int, v: int, p: int)
    requires
        s >= 0,
        t >= 0,
        s + t > 0,
        s * u + t * v == (s + t) * p,
    ensures
        u <= p <= v || v <= p <= u,
{
    let (l, h) = if u <= v {
        (u, v)
    } else {
        (v, u)
    };
    lemma_average(s, t, u, v, l, h);
    let z = s + t;
    assert(l <= p <= h) by (nonlinear_arith)
        requires
            z > 0,
            z * l <= z * p,
            z * p <= z * h,
    ;
}

/// Whether a point on the line through a segment is found on it.
pub(crate) proof fn lemma_on_segment_found(u: (int, int), v: (int, int), p: (int, int))
    requires
        fits(u.0) && fits(u.1),
        fits(v.0) && fits(v.1),
        fits(p.0) && fits(p.1),
        tri(u, v, p) == 0,
    ensures
        on_segment_spec(
            whole(u.0),
            whole(u.1),
            whole(p.0),
            whole(p.1),
            whole(v.0),
            whole(v.1),
        ) <==> on(u, v, p),
{
    lemma_in_box_on(u, v, p);
    lemma_whole_ends(u.0, v.0);
    lemma_whole_ends(u.1, v.1);
    let (x0, x1) = if v.0 < u.0 {
        (v.0, u.0)
    } else {
        (u.0, v.0)
    };
    let (y0, y1) = if v.1 < u.1 {
        (v.1, u.1)
    } else {
        (u.1, v.1)
    };
    lemma_whole_ends(p.0, x1);
    lemma_whole_ends(x0, p.0);
    lemma_whole_ends(p.1, y1);
    lemma_whole_ends(y0, p.1);
}

/// Whether two areas are found to have different signs.
pub(crate) proof fn lemma_opposite_found(a: int, b: int)
    requires
        fits(a),
        fits(b),
    ensures
        opposite(whole(-a), whole(-b)) <==> opposed(a, b),
        whole(-a).same_spec(whole(0)) <==> a == 0,
        whole(-b).same_spec(whole(0)) <==> b == 0,
{
    lemma_whole(-a, 0);
    lemma_whole(0, -a);
    lemma_whole(-b, 0);
    lemma_whole(0, -b);
}

/// The area of three moderate corners is bounded.
proof fn lemma_tri_moderate(a: (int, int), b: (int, int), c: (int, int))
    requires
        moderate(a),
        moderate(b),
        moderate(c),
    ensures
        -0x7fff_ffff_ffff_ffff_ffff <= tri(a, b, c) <= 0x7fff_ffff_ffff_ffff_ffff,
{
    lemma_product(a.0, b.1);
    lemma_product(b.0, a.1);
    lemma_product(b.0, c.1);
    lemma_product(c.0, b.1);
    lemma_product(c.0, a.1);
    lemma_product(a.0, c.1);
}

/// The product of two moderate integers is bounded.
proof fn lemma_product(a: int, b: int)
    requires
        -LIMIT <= a <= LIMIT,
        -LIMIT <= b <= LIMIT,
    ensures
        -0x1000_0000_0000_0000 <= a * b <= 0x1000_0000_0000_0000,
{
    assert(-0x1000_0000_0000_0000 <= a * b <= 0x1000_0000_0000_0000) by (nonlinear_arith)
        requires
            -0x4000_0000 <= a <= 0x4000_0000,
            -0x4000_0000 <= b <= 0x4000_0000,
    ;
}

/// Whether segments with integer coordinates are found to meet: with the boundary exactly if they
/// have a point in common, and without it exactly if they cross inside both.
pub proof fn lemma_meeting(u: (int, int), v: (int, int), q: (int, int), w: (int, int))
    requires
        moderate(u),
        moderate(v),
        moderate(q),
        moderate(w),
    ensures
        segments_meet(
            whole(u.0),
            whole(u.1),
            whole(v.0),
            whole(v.1),
            whole(q.0),
            whole(q.1),
            whole(w.0),
            whole(w.1),
            true,
        ) <==> share_point(u, v, q, w),
        segments_meet(
            whole(u.0),
            whole(u.1),
            whole(v.0),
            whole(v.1),
            whole(q.0),
            whole(q.1),
            whole(w.0),
            whole(w.1),
            false,
        ) <==> cross_inside(u, v, q, w),
{
    lemma_apart_means(u, v, q, w);
    lemma_crossing_means(u, v, q, w);
    let (o1, o2, o3, o4) = (tri(u, v, q), tri(u, v, w), tri(q, w, u), tri(q, w, v));
    lemma_corner_area(u.0, u.1, v.0, v.1, q.0, q.1);
    lemma_corner_area(u.0, u.1, v.0, v.1, w.0, w.1);
    lemma_corner_area(q.0, q.1, w.0, w.1, u.0, u.1);
    lemma_corner_area(q.0, q.1, w.0, w.1, v.0, v.1);
    lemma_tri_moderate(u, v, q);
    lemma_tri_moderate(u, v, w);
    lemma_tri_moderate(q, w, u);
    lemma_tri_moderate(q, w, v);
    lemma_opposite_found(o1, o2);
    lemma_opposite_found(o3, o4);
    if o1 == 0 {
        lemma_on_segment_found(u, v, q);
    }
    if o2 == 0 {
        lemma_on_segment_found(u, v, w);
    }
    if o3 == 0 {
        lemma_on_segment_found(q, w, u);
    }
    if o4 == 0 {
        lemma_on_segment_found(q, w, v);
    }
}

/// Whether segments with integer coordinates are found to meet depends neither on which of them is
/// named first, nor on which end of a segment is.
pub proof fn lemma_meeting_symmetric(
    u: (int, int),
    v: (int, int),
    q: (int, int),
    w: (int, int),
    include_boundary: bool,
)
    requires
        moderate(u),
        moderate(v),
        moderate(q),
        moderate(w),
    ensures
        ({
            let met = segments_meet(
                whole(u.0),
                whole(u.1),
                whole(v.0),
                whole(v.1),
                whole(q.0),
                whole(q.1),
                whole(w.0),
                whole(w.1),
                include_boundary,
            );
            &&& met == segments_meet(
                whole(q.0),
                whole(q.1),
                whole(w.0),
                whole(w.1),
                whole(u.0),
                whole(u.1),
                whole(v.0),
                whole(v.1),
                include_boundary,
            )
            &&& met == segments_meet(
                whole(v.0),
                whole(v.1),
                whole(u.0),
                whole(u.1),
                whole(q.0),
                whole(q.1),
                whole(w.0),
                whole(w.1),
                include_boundary,
            )
        }),
{
    lemma_meeting(u, v, q, w);
    lemma_meeting(q, w, u, v);
    lemma_meeting(v, u, q, w);
    lemma_apart_swapped(u, v, q, w);
    lemma_apart_means(u, v, q, w);
    lemma_apart_means(q, w, u, v);
    lemma_apart_means(v, u, q, w);
    lemma_crossing_means(u, v, q, w);
    lemma_crossing_means(q, w, u, v);
    lemma_crossing_means(v, u, q, w);
    lemma_tri(u, v, q);
    lemma_tri(u, v, w);
    lemma_tri(q, w, u);
    lemma_tri(q, w, v);
}

} // verus!
