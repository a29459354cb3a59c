//! Integer coordinates of any size for which areas fit: which way three points turn, whether a
//! point lies in a triangle, and whether segments meet.
use vstd::prelude::*;
use crate::areas::{cross, tri};
use crate::exact::{fits, whole};
use crate::exact_areas::{lemma_area_formula, lemma_bounded, lemma_whole};
use crate::geometry::{area_xy_spec, point_in_triangle_spec, segments_meet};
use crate::meeting::{
    cross_inside, lemma_apart_means, lemma_crossing_means, lemma_on_segment_found,
    lemma_opposite_found, lemma_whole_ends, share_point,
};
use crate::scalar::Scalar;
use crate::segments::lemma_differences;

verus! {

/// Both coordinates are integers whose areas fit.
pub open spec fn large(p: (int, int)) -> bool {
    &&& -0x2000_0000_0000_0000 <= p.0 <= 0x2000_0000_0000_0000
    &&& -0x2000_0000_0000_0000 <= p.1 <= 0x2000_0000_0000_0000
}

/// Differences of large coordinates, and their products.
proof fn lemma_large_product(a: int, b: int, c: int, d: int)
    requires
        -0x2000_0000_0000_0000 <= a <= 0x2000_0000_0000_0000,
        -0x2000_0000_0000_0000 <= b <= 0x2000_0000_0000_0000,
        -0x2000_0000_0000_0000 <= c <= 0x2000_0000_0000_0000,
        -0x2000_0000_0000_0000 <= d <= 0x2000_0000_0000_0000,
    ensures
        whole(a).minus_spec(whole(b)).times_spec(whole(c).minus_spec(whole(d))) == whole(
            (a - b) * (c - d),
        ),
        -0x1000_0000_0000_0000_0000_0000_0000_0000 <= (a - b) * (c - d)
            <= 0x1000_0000_0000_0000_0000_0000_0000_0000,
{
    let m = 0x4000_0000_0000_0000int;
    lemma_whole(a, b);
    lemma_whole(c, d);
    lemma_bounded(a - b, c - d, m, m);
    assert(m * m == 0x1000_0000_0000_0000_0000_0000_0000_0000) by (nonlinear_arith)
        requires
            m == 0x4000_0000_0000_0000,
    ;
    lemma_whole(a - b, c - d);
}

/// The signed area of three points is found as it is: negative where they turn left.
pub proof fn lemma_large_area(p: (int, int), q: (int, int), r: (int, int))
    requires
        large(p),
        large(q),
        large(r),
    ensures
        ({
            let a = area_xy_spec(
                whole(p.0),
                whole(p.1),
                whole(q.0),
                whole(q.1),
                whole(r.0),
                whole(r.1),
            );
            &&& a.den == 1
            &&& a.num == -((p.0 * q.1 - q.0 * p.1) + (q.0 * r.1 - r.0 * q.1) + (r.0 * p.1 - p.0
                * r.1))
            &&& a == whole(-tri(p, q, r))
            &&& fits(tri(p, q, r))
        }),
{
    lemma_large_product(q.1, p.1, r.0, q.0);
    lemma_large_product(q.0, p.0, r.1, q.1);
    lemma_whole((q.1 - p.1) * (r.0 - q.0), (q.0 - p.0) * (r.1 - q.1));
    lemma_area_formula(p.0, p.1, q.0, q.1, r.0, r.1);
}

/// A point is found to lie in a triangle exactly if it lies on no outer side of an edge.
pub proof fn lemma_large_triangle(a: (int, int), b: (int, int), c: (int, int), p: (int, int))
    requires
        large(a),
        large(b),
        large(c),
        large(p),
    ensures
        point_in_triangle_spec(
            whole(a.0),
            whole(a.1),
            whole(b.0),
            whole(b.1),
            whole(c.0),
            whole(c.1),
            whole(p.0),
            whole(p.1),
        ) <==> tri(a, b, p) >= 0 && tri(b, c, p) >= 0 && tri(c, a, p) >= 0,
{
    lemma_large_side(a, b, p);
    lemma_large_side(b, c, p);
    lemma_large_side(c, a, p);
}

/// On which side of an edge a point is found.
proof fn lemma_large_side(a: (int, int), b: (int, int), p: (int, int))
    requires
        large(a),
        large(b),
        large(p),
    ensures
        whole(b.0).minus_spec(whole(p.0)).times_spec(
            whole(a.1).minus_spec(whole(p.1)),
        ).at_most_spec(
            whole(a.0).minus_spec(whole(p.0)).times_spec(whole(b.1).minus_spec(whole(p.1))),
        ) <==> tri(a, b, p) >= 0,
{
    lemma_large_product(b.0, p.0, a.1, p.1);
    lemma_large_product(a.0, p.0, b.1, p.1);
    lemma_whole_ends((b.0 - p.0) * (a.1 - p.1), (a.0 - p.0) * (b.1 - p.1));
    lemma_differences(b.0, p.0, a.1, p.1);
    lemma_differences(a.0, p.0, b.1, p.1);
}

/// Segments are found to meet as they do: with the boundary exactly if they have a point in common,
/// and without it exactly if they cross inside both.
pub proof fn lemma_large_meeting(u: (int, int), v: (int, int), q: (int, int), w: (int, int))
    requires
        large(u),
        large(v),
        large(q),
        large(w),
    ensures
        segments_meet(
            whole(u.0),
            whole(u.1),
            whole(v.0),
            whole(v.1),
            whole(q.0),
            whole(q.1),
            whole(w.0),
            whole(w.1),
            true,
        ) <==> share_point(u, v, q, w),
        segments_meet(
            whole(u.0),
            whole(u.1),
            whole(v.0),
            whole(v.1),
            whole(q.0),
            whole(q.1),
            whole(w.0),
            whole(w.1),
            false,
        ) <==> cross_inside(u, v, q, w),
{
    lemma_apart_means(u, v, q, w);
    lemma_crossing_means(u, v, q, w);
    let (o1, o2, o3, o4) = (tri(u, v, q), tri(u, v, w), tri(q, w, u), tri(q, w, v));
    lemma_large_area(u, v, q);
    lemma_large_area(u, v, w);
    lemma_large_area(q, w, u);
    lemma_large_area(q, w, v);
    lemma_opposite_found(o1, o2);
    lemma_opposite_found(o3, o4);
    if o1 == 0 {
        lemma_on_segment_found(u, v, q);
    }
    if o2 == 0 {
        lemma_on_segment_found(u, v, w);
    }
    if o3 == 0 {
        lemma_on_segment_found(q, w, u);
    }
    if o4 == 0 {
        lemma_on_segment_found(q, w, v);
    }
}

} // verus!
