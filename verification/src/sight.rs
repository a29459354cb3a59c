//! What is seen from a point inside a ring.
use vstd::prelude::*;
use crate::areas::{abs, tri};
use crate::diagonals::{lemma_weigh_on, off_ring, weigh};
use crate::holes_apart::{lemma_in_line, lemma_level};
use crate::meeting::{lemma_apart_means, meets_at, share_point};
use crate::model::{after, before};
use crate::segments::{
    affine, apart, crossing, lemma_differences, lemma_in_box, lemma_on_side, lemma_pasch,
    lemma_side, lemma_signs, lemma_tri, on, side, under,
};
use crate::simple::lemma_weighed;
use crate::weak::{
    bent, edge_clear, faces, lemma_edge_clear, lemma_faced_or_not, lemma_falling_turns,
    lemma_ground_along, lemma_no_turns, lemma_not_faced, lemma_sight_line, lemma_turns_more,
    lemma_weak_zoom, off_rays, scattered, turns_at, turns_away, weakly_left, weakly_simple,
};
use crate::winding::{lemma_apart_swapped, next, passes, passings, prev, winding};
use crate::zooming::{
    lemma_zoom_crossing, lemma_zoom_on, lemma_zoom_order, lemma_zoom_tri, lemma_zoom_under,
    lemma_zoom_winding, lemma_zoomed_at, zoom, zoomed,
};

verus! {

/// No three of the corners, as far as they are different, and the point lie on one line.
pub open spec fn general(p: Seq<(int, int)>, q: (int, int)) -> bool {
    &&& scattered(p)
    &&& forall|a: int, b: int|
        0 <= a < p.len() && 0 <= b < p.len() && p[a] != p[b] ==> #[trigger] tri(p[a], p[b], q) != 0
}

/// The edge from `u` to `v` falls past the height `y`.
pub open spec fn falls_past(u: (int, int), v: (int, int), y: int) -> bool {
    v.1 <= y <= u.1 && v.1 < u.1
}

/// Of the edges that fall past `q` to its left, none does so to the right of `x`, which is level
/// with `q` and to its left.
pub open spec fn nearest(p: Seq<(int, int)>, x: (int, int), q: (int, int)) -> bool {
    &&& x.1 == q.1
    &&& x.0 < q.0
    &&& forall|k: int|
        0 <= k < p.len() && falls_past(#[trigger] p[k], next(p, k), q.1) && tri(
            p[k],
            next(p, k),
            q,
        ) > 0 ==> tri(p[k], next(p, k), x) >= 0
}

// ---------------------------------------------------------------------------------------------
// Along the ray
// ---------------------------------------------------------------------------------------------
/// How a triangle changes with a point that moves on the level.
proof fn lemma_level_tri(u: (int, int), v: (int, int), x: (int, int), q: (int, int))
    requires
        x.1 == q.1,
    ensures
        tri(u, v, q) - tri(u, v, x) == (q.0 - x.0) * (u.1 - v.1),
        tri(u, v, q) == (v.0 - u.0) * (q.1 - u.1) - (v.1 - u.1) * (q.0 - u.0),
        tri(u, v, x) == (v.0 - u.0) * (x.1 - u.1) - (v.1 - u.1) * (x.0 - u.0),
        tri(u, v, q) == (v.0 - u.0) * (q.1 - v.1) - (v.1 - u.1) * (q.0 - v.0),
        tri(u, v, x) == (v.0 - u.0) * (x.1 - v.1) - (v.1 - u.1) * (x.0 - v.0),
{
    lemma_differences(v.0, u.0, q.1, u.1);
    lemma_differences(v.1, u.1, q.0, u.0);
    lemma_differences(v.0, u.0, x.1, u.1);
    lemma_differences(v.1, u.1, x.0, u.0);
    lemma_differences(v.0, u.0, q.1, v.1);
    lemma_differences(v.1, u.1, q.0, v.0);
    lemma_differences(v.0, u.0, x.1, v.1);
    lemma_differences(v.1, u.1, x.0, v.0);
    lemma_differences(q.0, x.0, u.1, v.1);
    lemma_differences(v.1, u.1, q.0, x.0);
    assert((v.1 - u.1) * (q.0 - u.0) - (v.1 - u.1) * (x.0 - u.0) == (v.1 - u.1) * (q.0 - x.0)) by (
    nonlinear_arith);
    assert((v.1 - u.1) * (q.0 - x.0) == -((q.0 - x.0) * (u.1 - v.1))) by (nonlinear_arith);
}

/// The edge is not level with the point.
spec fn steep(u: (int, int), v: (int, int), q: (int, int)) -> bool {
    !(u.1 == q.1 && v.1 == q.1)
}

/// The edges at a ray are not level with it.
proof fn lemma_steep(p: Seq<(int, int)>, q: (int, int), k: int)
    requires
        weakly_simple(p),
        general(p, q),
        0 <= k < p.len(),
    ensures
        steep(p[k], next(p, k), q),
{
    let n = p.len() as int;
    let (u, v) = (p[k], next(p, k));
    assert(bent(p, k));
    assert(tri(p[k], p[after(k, n)], q) != 0);
    if u.1 == q.1 && v.1 == q.1 {
        lemma_level_tri(u, v, q, q);
        lemma_signs(v.0 - u.0, q.1 - u.1);
        lemma_signs(v.1 - u.1, q.0 - u.0);
    }
}

/// The passings of an edge do not get fewer from a point to one further left, if it does not fall
/// between them.
#[verifier::spinoff_prover]
proof fn lemma_passes_more(u: (int, int), v: (int, int), x: (int, int), q: (int, int))
    requires
        x.1 == q.1,
        x.0 < q.0,
        steep(u, v, q),
        tri(u, v, q) != 0,
        falls_past(u, v, q.1) && tri(u, v, q) > 0 ==> tri(u, v, x) >= 0,
    ensures
        passes(u, v, x) >= passes(u, v, q),
{
    lemma_level_tri(u, v, x, q);
    lemma_signs(q.0 - x.0, u.1 - v.1);
    lemma_signs(v.0 - u.0, q.1 - u.1);
    lemma_signs(v.1 - u.1, q.0 - u.0);
    lemma_signs(v.0 - u.0, q.1 - v.1);
    lemma_signs(v.1 - u.1, q.0 - v.0);
    lemma_signs(v.0 - u.0, x.1 - u.1);
    lemma_signs(v.1 - u.1, x.0 - u.0);
    lemma_signs(v.0 - u.0, x.1 - v.1);
    lemma_signs(v.1 - u.1, x.0 - v.0);
}

/// The passings of a ring get no fewer to the left, and if they stay the same, so do those of each
/// edge.
proof fn lemma_passings_more(p: Seq<(int, int)>, x: (int, int), q: (int, int), k: int, j: int)
    requires
        weakly_simple(p),
        general(p, q),
        nearest(p, x, q),
        0 <= k <= p.len(),
    ensures
        passings(p, x, k) >= passings(p, q, k),
        0 <= j < k ==> passings(p, x, k) - passings(p, q, k) >= passes(p[j], next(p, j), x)
            - passes(p[j], next(p, j), q),
    decreases k,
{
    if k > 0 {
        let i = k - 1;
        let n = p.len() as int;
        lemma_passings_more(p, x, q, i, j);
        lemma_steep(p, q, i);
        assert(bent(p, i));
        assert(tri(p[i], p[after(i, n)], q) != 0);
        lemma_passes_more(p[i], next(p, i), x, q);
    }
}

/// No edge of the ring passes between the point and `x`, and no corner is there.
pub open spec fn quiet(p: Seq<(int, int)>, x: (int, int), q: (int, int)) -> bool {
    &&& nearest(p, x, q)
    &&& forall|k: int|
        0 <= k < p.len() ==> passes(#[trigger] p[k], next(p, k), x) == passes(p[k], next(p, k), q)
}

/// Where a ring runs as often around two points on the level, it is quiet between them.
proof fn lemma_quiet(p: Seq<(int, int)>, x: (int, int), q: (int, int))
    requires
        weakly_simple(p),
        general(p, q),
        nearest(p, x, q),
        winding(p, x) <= winding(p, q),
    ensures
        quiet(p, x, q),
{
    let n = p.len() as int;
    assert forall|k: int| 0 <= k < n implies passes(#[trigger] p[k], next(p, k), x) == passes(
        p[k],
        next(p, k),
        q,
    ) by {
        lemma_passings_more(p, x, q, n, k);
        lemma_steep(p, q, k);
        assert(bent(p, k));
        assert(tri(p[k], p[after(k, n)], q) != 0);
        lemma_passes_more(p[k], next(p, k), x, q);
    }
}

/// No corner lies between the point and `x` where it is quiet.
#[verifier::spinoff_prover]
proof fn lemma_no_corner_between(p: Seq<(int, int)>, x: (int, int), q: (int, int), j: int)
    requires
        weakly_simple(p),
        general(p, q),
        quiet(p, x, q),
        0 <= j < p.len(),
        p[j].1 == q.1,
    ensures
        p[j].0 <= x.0 || p[j].0 >= q.0,
{
    let n = p.len() as int;
    let (b, a) = (before(j, n), after(j, n));
    let (u, v, w) = (p[b], p[j], p[a]);
    assert(next(p, b) == v && next(p, j) == w);
    lemma_steep(p, q, b);
    lemma_steep(p, q, j);
    if x.0 < v.0 < q.0 {
        assert(passes(p[b], next(p, b), x) == passes(p[b], next(p, b), q));
        lemma_level_tri(u, v, x, q);
        lemma_level_tri(v, w, x, q);
        lemma_signs(v.1 - u.1, q.0 - v.0);
        lemma_signs(v.1 - u.1, x.0 - v.0);
        lemma_signs(w.1 - v.1, q.0 - v.0);
        lemma_signs(w.1 - v.1, x.0 - v.0);
        lemma_signs(v.0 - u.0, 0);
        lemma_signs(w.0 - v.0, 0);
        if u.1 > v.1 {
            assert(falls_past(p[b], next(p, b), q.1));
        } else if w.1 < v.1 {
            assert(falls_past(p[j], next(p, j), q.1));
        }
    }
}

/// The edges that `x` is not on are apart from the ray between the point and `x`, where it is
/// quiet.
#[verifier::spinoff_prover]
proof fn lemma_ray_clear(p: Seq<(int, int)>, x: (int, int), q: (int, int), k: int)
    requires
        weakly_simple(p),
        general(p, q),
        quiet(p, x, q),
        off_ring(p, q),
        0 <= k < p.len(),
        !on(p[k], next(p, k), x),
    ensures
        apart(p[k], next(p, k), x, q),
{
    let n = p.len() as int;
    let (u, v) = (p[k], next(p, k));
    assert(passes(p[k], next(p, k), x) == passes(p[k], next(p, k), q));
    assert(!on(p[k], next(p, k), q));
    lemma_level_side(x, q, u);
    lemma_level_side(x, q, v);
    lemma_tri(u, v, u);
    lemma_tri(u, v, v);
    assert(on(u, v, u) && on(u, v, v));
    if on(x, q, u) {
        lemma_no_corner_between(p, x, q, k);
        assert(u == x || u == q);
    }
    if on(x, q, v) {
        lemma_no_corner_between(p, x, q, after(k, n));
        assert(v == x || v == q);
    }
    lemma_uncrossed_ray(u, v, x, q);
}

/// An edge that neither falls nor passes between two points on the level does not cross the segment
/// between them.
proof fn lemma_uncrossed_ray(u: (int, int), v: (int, int), x: (int, int), q: (int, int))
    requires
        x.1 == q.1,
        x.0 < q.0,
        falls_past(u, v, q.1) && tri(u, v, q) > 0 ==> tri(u, v, x) >= 0,
        passes(u, v, x) == passes(u, v, q),
    ensures
        !crossing(u, v, x, q),
{
    lemma_level_tri(u, v, x, q);
    lemma_signs(q.0 - x.0, u.1 - v.1);
    lemma_level_side(x, q, u);
    lemma_level_side(x, q, v);
}

/// Which side of the level a point is on.
pub(crate) proof fn lemma_level_side(x: (int, int), q: (int, int), u: (int, int))
    requires
        x.1 == q.1,
        x.0 < q.0,
    ensures
        tri(x, q, u) > 0 <==> u.1 > q.1,
        tri(x, q, u) < 0 <==> u.1 < q.1,
{
    lemma_differences(q.0, x.0, u.1, x.1);
    lemma_differences(q.1, x.1, u.0, x.0);
    lemma_signs(q.0 - x.0, u.1 - x.1);
    lemma_signs(q.1 - x.1, u.0 - x.0);
}

// ---------------------------------------------------------------------------------------------
// The end of the ray
// ---------------------------------------------------------------------------------------------
/// No neighbour of a corner is in line with the point.
proof fn lemma_off_rays(p: Seq<(int, int)>, q: (int, int), i: int)
    requires
        weakly_simple(p),
        general(p, q),
        0 <= i < p.len(),
    ensures
        off_rays(p, i, q),
{
    let n = p.len() as int;
    assert forall|k: int| 0 <= k < n && #[trigger] p[k] == p[i] implies tri(p[i], next(p, k), q)
        != 0 && tri(p[i], prev(p, k), q) != 0 by {
        assert(bent(p, k));
        assert(tri(p[i], p[after(k, n)], q) != 0);
        assert(tri(p[i], p[before(k, n)], q) != 0);
    }
}

/// The corners at one point add nothing in the direction of a point on the level to the right.
proof fn lemma_level_turns(p: Seq<(int, int)>, x: (int, int), q: (int, int), k: int)
    requires
        x.1 == q.1,
        x.0 < q.0,
        0 <= k <= p.len(),
        forall|j: int|
            0 <= j < p.len() && #[trigger] p[j] == x ==> next(p, j).1 != q.1 && prev(p, j).1 != q.1,
    ensures
        turns_at(p, x, q, k) == 0,
    decreases k,
{
    if k > 0 {
        lemma_level_turns(p, x, q, k - 1);
        if p[k - 1] == x {
            lemma_level_side(x, q, next(p, k - 1));
            lemma_level_side(x, q, prev(p, k - 1));
        }
    }
}

/// From a point inside, to a corner on the level: it is quiet between them.
proof fn lemma_quiet_corner(p: Seq<(int, int)>, q: (int, int), j: int)
    requires
        weakly_left(p),
        general(p, q),
        winding(p, q) == 1,
        0 <= j < p.len(),
        nearest(p, p[j], q),
    ensures
        quiet(p, p[j], q),
{
    let n = p.len() as int;
    let x = p[j];
    assert forall|k: int| 0 <= k < n && #[trigger] p[k] == x implies next(p, k).1 != q.1 && prev(
        p,
        k,
    ).1 != q.1 by {
        let b = before(k, n);
        lemma_steep(p, q, k);
        lemma_steep(p, q, b);
        assert(next(p, b) == p[k]);
    }
    lemma_level_turns(p, x, q, n);
    lemma_off_rays(p, q, j);
    lemma_faced_or_not(p, j, q);
    lemma_turns_least(p, j, q);
    lemma_ground_along(p, j);
    lemma_quiet(p, x, q);
}

/// In a direction that no neighbour is in, the corners at one point add no less than away from it.
proof fn lemma_turns_least(p: Seq<(int, int)>, i: int, d: (int, int))
    requires
        weakly_simple(p),
        0 <= i < p.len(),
        d != p[i],
        off_rays(p, i, d),
    ensures
        turns_at(p, p[i], d, p.len() as int) >= turns_away(p, p[i], p.len() as int),
{
    lemma_turns_least_of(p, i, d, p.len() as int);
}

/// The first corners at one point add no less in a direction than away from it.
proof fn lemma_turns_least_of(p: Seq<(int, int)>, i: int, d: (int, int), k: int)
    requires
        weakly_simple(p),
        0 <= i < p.len(),
        d != p[i],
        off_rays(p, i, d),
        0 <= k <= p.len(),
    ensures
        turns_at(p, p[i], d, k) >= turns_away(p, p[i], k),
    decreases k,
{
    if k > 0 {
        lemma_turns_least_of(p, i, d, k - 1);
        if p[k - 1] == p[i] {
            lemma_not_faced(p, k - 1, d);
        }
    }
}

/// A part of a segment from its start is apart from what the segment is apart from.
pub(crate) proof fn lemma_part_apart(
    u: (int, int),
    v: (int, int),
    a: (int, int),
    b: (int, int),
    x: (int, int),
    y: (int, int),
)
    requires
        apart(u, v, a, b),
        on(a, b, x),
        on(a, b, y),
    ensures
        apart(u, v, x, y),
{
    lemma_apart_means(u, v, x, y);
    lemma_apart_means(u, v, a, b);
    if share_point(u, v, x, y) {
        let (s, t, k, l) = choose|s: int, t: int, k: int, l: int| #[trigger] meets_at(
            u,
            v,
            x,
            y,
            s,
            t,
            k,
            l,
        );
        let (g, h) = lemma_on_weights(a, b, x);
        let (e, f) = lemma_on_weights(a, b, y);
        let (m, o) = (g + h, e + f);
        let c = m * o;
        // c * (k * x + l * y) = (k * o * g + l * m * e) * a + (k * o * h + l * m * f) * b
        lemma_regroup(a.0, b.0, x.0, y.0, k, l, g, h, e, f);
        lemma_regroup(a.1, b.1, x.1, y.1, k, l, g, h, e, f);
        lemma_scale_sum(c, s, u.0, t, v.0);
        lemma_scale_sum(c, s, u.1, t, v.1);
        let (k2, l2) = ((k * o) * g + (l * m) * e, (k * o) * h + (l * m) * f);
        assert(c > 0) by (nonlinear_arith)
            requires
                m > 0,
                o > 0,
                c == m * o,
        ;
        assert(c * s >= 0 && c * t >= 0) by (nonlinear_arith)
            requires
                c > 0,
                s >= 0,
                t >= 0,
        ;
        assert(k2 >= 0 && l2 >= 0) by (nonlinear_arith)
            requires
                k2 == (k * o) * g + (l * m) * e,
                l2 == (k * o) * h + (l * m) * f,
                k >= 0,
                l >= 0,
                g >= 0,
                h >= 0,
                e >= 0,
                f >= 0,
                m > 0,
                o > 0,
        ;
        assert(k2 + l2 == c * k + c * l) by {
            let (i, j) = (k * o, l * m);
            assert(i * g + i * h == i * m && j * e + j * f == j * o) by (nonlinear_arith)
                requires
                    m == g + h,
                    o == e + f,
            ;
            assert((k * o) * m == (m * o) * k && (l * m) * o == (m * o) * l) by (nonlinear_arith);
        }
        assert(c * s + c * t == c * k + c * l) by (nonlinear_arith)
            requires
                s + t == k + l,
        ;
        assert(c * s + c * t > 0) by (nonlinear_arith)
            requires
                s + t > 0,
                c > 0,
        ;
        assert(meets_at(u, v, a, b, c * s, c * t, k2, l2));
    }
}

/// A multiple of a sum.
proof fn lemma_scale_sum(c: int, s: int, u: int, t: int, v: int)
    ensures
        (c * s) * u + (c * t) * v == c * (s * u + t * v),
{
    assert((c * s) * u + (c * t) * v == c * (s * u + t * v)) by (nonlinear_arith);
}

/// A sum of two points of a segment, as a sum of its ends.
proof fn lemma_regroup(
    a: int,
    b: int,
    x: int,
    y: int,
    k: int,
    l: int,
    g: int,
    h: int,
    e: int,
    f: int,
)
    requires
        (g + h) * x == g * a + h * b,
        (e + f) * y == e * a + f * b,
    ensures
        ((g + h) * (e + f)) * (k * x + l * y) == ((k * (e + f)) * g + (l * (g + h)) * e) * a + ((k
            * (e + f)) * h + (l * (g + h)) * f) * b,
{
    let (m, o) = (g + h, e + f);
    let c = m * o;
    assert(c * (k * x + l * y) == c * (k * x) + c * (l * y)) by (nonlinear_arith);
    assert((m * o) * (k * x) == (k * o) * (m * x)) by (nonlinear_arith);
    assert((m * o) * (l * y) == (l * m) * (o * y)) by (nonlinear_arith);
    assert((k * o) * (g * a + h * b) == ((k * o) * g) * a + ((k * o) * h) * b) by (nonlinear_arith);
    assert((l * m) * (e * a + f * b) == ((l * m) * e) * a + ((l * m) * f) * b) by (nonlinear_arith);
    let (k1, k2, l1, l2) = ((k * o) * g, (l * m) * e, (k * o) * h, (l * m) * f);
    assert((k1 + k2) * a == k1 * a + k2 * a && (l1 + l2) * b == l1 * b + l2 * b) by (
    nonlinear_arith);
}

/// The weights of a point on a segment.
proof fn lemma_on_weights(a: (int, int), b: (int, int), x: (int, int)) -> (w: (int, int))
    requires
        on(a, b, x),
    ensures
        w.0 >= 0,
        w.1 >= 0,
        w.0 + w.1 > 0,
        (w.0 + w.1) * x.0 == w.0 * a.0 + w.1 * b.0,
        (w.0 + w.1) * x.1 == w.0 * a.1 + w.1 * b.1,
{
    lemma_apart_means(a, b, x, x);
    assert(share_point(a, b, x, x));
    let (s, t, k, l) = choose|s: int, t: int, k: int, l: int| #[trigger] meets_at(
        a,
        b,
        x,
        x,
        s,
        t,
        k,
        l,
    );
    assert((s + t) * x.0 == k * x.0 + l * x.0 && (s + t) * x.1 == k * x.1 + l * x.1) by (
    nonlinear_arith)
        requires
            s + t == k + l,
    ;
    (s, t)
}

// ---------------------------------------------------------------------------------------------
// Corners in sight
// ---------------------------------------------------------------------------------------------
/// The point is on the edge, and at neither end.
pub open spec fn within_edge(u: (int, int), v: (int, int), x: (int, int)) -> bool {
    on(u, v, x) && x != u && x != v
}

/// The direction to a point on an edge is that of the edge.
pub(crate) proof fn lemma_same_direction(a: (int, int), b: (int, int), x: (int, int), r: (int, int))
    requires
        on(a, b, x),
        x != a,
    ensures
        tri(a, x, r) > 0 <==> tri(a, b, r) > 0,
        tri(a, x, r) < 0 <==> tri(a, b, r) < 0,
{
    let (g, h) = lemma_on_weights(a, b, x);
    lemma_differences(x.0, a.0, r.1, a.1);
    lemma_differences(x.1, a.1, r.0, a.0);
    lemma_differences(b.0, a.0, r.1, a.1);
    lemma_differences(b.1, a.1, r.0, a.0);
    let (s, t) = (r.1 - a.1, r.0 - a.0);
    let m = g + h;
    assert(m * (x.0 - a.0) == h * (b.0 - a.0) && m * (x.1 - a.1) == h * (b.1 - a.1)) by (
    nonlinear_arith)
        requires
            m == g + h,
            m * x.0 == g * a.0 + h * b.0,
            m * x.1 == g * a.1 + h * b.1,
    ;
    assert(h > 0) by {
        if h == 0 {
            lemma_signs(h, b.0 - a.0);
            lemma_signs(h, b.1 - a.1);
            assert(x.0 == a.0 && x.1 == a.1) by (nonlinear_arith)
                requires
                    m > 0,
                    m * (x.0 - a.0) == 0,
                    m * (x.1 - a.1) == 0,
            ;
        }
    }
    let (p, q) = (tri(a, x, r), tri(a, b, r));
    assert(p == (x.0 - a.0) * s - (x.1 - a.1) * t && q == (b.0 - a.0) * s - (b.1 - a.1) * t);
    let (d, e, f, k) = (x.0 - a.0, x.1 - a.1, b.0 - a.0, b.1 - a.1);
    assert(m * p == (m * d) * s - (m * e) * t) by (nonlinear_arith)
        requires
            p == d * s - e * t,
    ;
    assert(h * q == (h * f) * s - (h * k) * t) by (nonlinear_arith)
        requires
            q == f * s - k * t,
    ;
    lemma_signs(m, p);
    lemma_signs(h, q);
}

/// An edge beside an edge is apart from what is on that edge and not at the common corner.
pub(crate) proof fn lemma_beside_edge(
    c: (int, int),
    d: (int, int),
    a: (int, int),
    b: (int, int),
    x: (int, int),
    y: (int, int),
)
    requires
        c == a || c == b,
        tri(a, b, d) != 0,
        on(a, b, x),
        on(a, b, y),
        x != c,
        y != c,
    ensures
        apart(c, d, x, y),
        apart(d, c, x, y),
        !on(c, d, x),
        !on(d, c, x),
{
    lemma_tri(a, b, d);
    lemma_tri(a, b, x);
    lemma_tri(a, b, y);
    lemma_tri(c, d, x);
    lemma_tri(c, d, y);
    lemma_tri(a, b, c);
    let o = if c == a {
        b
    } else {
        a
    };
    assert(a != b) by {
        if a == b {
            lemma_tri(a, a, d);
        }
    }
    assert(tri(c, o, x) == 0 && tri(c, o, y) == 0 && tri(c, o, d) != 0) by {
        lemma_tri(b, a, d);
        lemma_tri(b, a, x);
        lemma_tri(b, a, y);
    }
    lemma_tri(c, o, x);
    lemma_tri(c, o, y);
    lemma_tri(c, o, d);
    if tri(c, d, x) == 0 {
        lemma_in_line(c, d, x, o);
    }
    if tri(c, d, y) == 0 {
        lemma_in_line(c, d, y, o);
    }
    lemma_tri(x, y, c);
    lemma_in_line(c, x, o, y);
    lemma_tri(c, x, y);
    assert(tri(x, y, c) == 0);
    assert(!on(x, y, c)) by {
        assert(c != o);
    }
    if on(x, y, d) {
        if x == y {
            assert(d == x);
        } else {
            lemma_tri(x, d, y);
            lemma_tri(x, y, d);
            lemma_in_line(x, d, y, c);
            lemma_tri(x, d, c);
        }
    }
    lemma_apart_swapped(c, d, x, y);
}

/// The corners at one point add as much in the direction of a point on a segment as in that of its
/// end.
proof fn lemma_same_turns(
    p: Seq<(int, int)>,
    a: (int, int),
    b: (int, int),
    x: (int, int),
    k: int,
)
    requires
        on(a, b, x),
        x != a,
        under(a, x) == under(a, b),
        0 <= k <= p.len(),
    ensures
        turns_at(p, a, x, k) == turns_at(p, a, b, k),
    decreases k,
{
    if k > 0 {
        lemma_same_turns(p, a, b, x, k - 1);
        lemma_same_direction(a, b, x, next(p, k - 1));
        lemma_same_direction(a, b, x, prev(p, k - 1));
    }
}

/// Seen from a point inside, a point on an edge that falls past it, with none nearer: it is quiet
/// between them.
#[verifier::spinoff_prover]
proof fn lemma_quiet_edge(p: Seq<(int, int)>, q: (int, int), x: (int, int), e: int)
    requires
        weakly_left(p),
        general(p, q),
        winding(p, q) == 1,
        0 <= e < p.len(),
        falls_past(p[e], next(p, e), q.1),
        within_edge(p[e], next(p, e), x),
        nearest(p, x, q),
    ensures
        quiet(p, x, q),
{
    let n = p.len() as int;
    let (a, b) = (p[e], next(p, e));
    let f = after(e, n);
    assert(bent(p, e));
    lemma_tri(a, b, a);
    assert(on(a, b, a));
    lemma_edge_ends(a, b, x);
    assert forall|k: int| 0 <= k < n implies #[trigger] edge_clear(p, k, a, x) by {
        assert(bent(p, k));
        let l = after(k, n);
        let (u, w) = (p[k], p[l]);
        if u != a && w != a {
            if u == b || w == b {
                let (d, g) = if u == b {
                    (w, l)
                } else {
                    (u, k)
                };
                assert(tri(p[e], p[f], p[g]) != 0);
                lemma_beside_edge(b, d, a, b, a, x);
            } else {
                lemma_edge_clear(p, k, e);
                lemma_part_apart(u, w, a, b, a, x);
            }
        }
    }
    lemma_sight_line(p, a, x);
    assert forall|k: int| 0 <= k < n implies #[trigger] p[k] != x by {
        if p[k] == x {
            assert(tri(p[e], p[f], p[k]) != 0);
        }
    }
    lemma_no_turns(p, x, a, n);
    lemma_same_turns(p, a, b, x, n);
    lemma_falling_turns(p, e);
    lemma_ground_along(p, e);
    lemma_quiet(p, x, q);
}

/// An edge does not cross the way from `q` to `v`, a point on the side from `q` to `m` of a
/// triangle, if it is apart from the other two sides and does not end in the triangle off the
/// third.
#[verifier::spinoff_prover]
proof fn lemma_way_uncrossed(
    a: (int, int),
    b: (int, int),
    c: (int, int),
    q: (int, int),
    v: (int, int),
    u: (int, int),
    w: (int, int),
)
    requires
        tri(a, b, c) > 0,
        q == a || q == c,
        v != q,
        on(a, c, v),
        apart(u, w, a, b),
        apart(u, w, b, c),
        !(tri(a, b, u) >= 0 && tri(b, c, u) >= 0 && tri(c, a, u) > 0),
        !(tri(a, b, w) >= 0 && tri(b, c, w) >= 0 && tri(c, a, w) > 0),
    ensures
        !crossing(u, w, v, q),
{
    if crossing(u, w, v, q) {
        lemma_side_kept(a, b, c, q, v);
        let g = if q == a {
            c
        } else {
            a
        };
        lemma_tri(a, c, v);
        lemma_tri(c, a, v);
        assert(on(q, g, v));
        lemma_same_direction(q, g, v, u);
        lemma_same_direction(q, g, v, w);
        lemma_tri(q, v, u);
        lemma_tri(q, v, w);
        lemma_tri(v, q, u);
        lemma_tri(v, q, w);
        lemma_tri(c, a, u);
        lemma_tri(c, a, w);
        lemma_tri(a, c, u);
        lemma_tri(a, c, w);
        if tri(c, a, w) > 0 {
            lemma_way_out(a, b, c, q, v, u, w);
        } else {
            lemma_apart_swapped(u, w, a, b);
            lemma_apart_swapped(u, w, b, c);
            lemma_tri(u, w, v);
            lemma_tri(u, w, q);
            assert(crossing(w, u, v, q));
            lemma_way_out(a, b, c, q, v, w, u);
        }
    }
}

/// Where a point on the third side of a triangle is, seen from the other sides.
proof fn lemma_side_kept(
    a: (int, int),
    b: (int, int),
    c: (int, int),
    q: (int, int),
    v: (int, int),
)
    requires
        tri(a, b, c) > 0,
        q == a || q == c,
        v != q,
        on(a, c, v),
    ensures
        tri(a, b, v) >= 0,
        tri(b, c, v) >= 0,
        q == a ==> tri(a, b, v) > 0,
        q == c ==> tri(b, c, v) > 0,
        tri(c, a, v) == 0,
{
    lemma_on_side(a, b, c, v);
    lemma_tri(a, b, c);
    lemma_tri(a, b, v);
    lemma_tri(b, c, v);
    lemma_tri(c, b, a);
    lemma_tri(c, a, v);
    if q == a {
        lemma_same_direction(a, c, v, b);
        lemma_tri(a, c, b);
        lemma_tri(a, v, b);
    } else {
        assert(on(c, a, v));
        lemma_same_direction(c, a, v, b);
        lemma_tri(c, a, b);
        lemma_tri(c, v, b);
    }
}

/// The way out of the triangle leads over one of the other sides.
proof fn lemma_way_out(
    a: (int, int),
    b: (int, int),
    c: (int, int),
    q: (int, int),
    v: (int, int),
    u: (int, int),
    w: (int, int),
)
    requires
        tri(a, b, c) > 0,
        q == a || q == c,
        v != q,
        on(a, c, v),
        tri(a, b, v) >= 0,
        tri(b, c, v) >= 0,
        q == a ==> tri(a, b, v) > 0,
        q == c ==> tri(b, c, v) > 0,
        tri(c, a, v) == 0,
        apart(u, w, a, b),
        apart(u, w, b, c),
        tri(c, a, w) > 0,
        !(tri(a, b, w) >= 0 && tri(b, c, w) >= 0),
    ensures
        !crossing(u, w, v, q),
{
    if crossing(u, w, v, q) {
        lemma_weighed(a, b, u, w, v, q);
        lemma_weighed(b, c, u, w, v, q);
        lemma_weighed(c, a, u, w, v, q);
        let (s, t) = (abs(tri(v, q, w)), abs(tri(v, q, u)));
        let (y, z) = (abs(tri(u, w, q)), abs(tri(u, w, v)));
        lemma_tri(a, b, a);
        lemma_tri(b, c, b);
        lemma_tri(c, a, c);
        lemma_tri(a, b, c);
        assert(tri(a, b, a) == 0 && tri(b, c, c) == 0 && tri(c, a, c) == 0 && tri(c, a, a)
            == 0) by {
            lemma_tri(b, c, c);
            lemma_tri(c, a, a);
        }
        lemma_signs(y, tri(a, b, v));
        lemma_signs(z, tri(a, b, q));
        lemma_signs(y, tri(b, c, v));
        lemma_signs(z, tri(b, c, q));
        lemma_signs(y, tri(c, a, v));
        lemma_signs(z, tri(c, a, q));
        lemma_pasch(a, b, c, u, w, s, t);
    }
}

/// The point is in the triangle of `x`, `q` and `m`, and not on the side from `q` to `m`.
pub open spec fn short_of(x: (int, int), q: (int, int), m: (int, int), z: (int, int)) -> bool {
    if m.1 > q.1 {
        tri(m, x, z) >= 0 && tri(x, q, z) >= 0 && tri(q, m, z) > 0
    } else {
        tri(q, x, z) >= 0 && tri(x, m, z) >= 0 && tri(m, q, z) > 0
    }
}

/// The corner at place `i` is seen from the point: all edges that do not end there are apart from
/// the segment between them.
pub open spec fn sees(p: Seq<(int, int)>, q: (int, int), i: int) -> bool {
    forall|k: int| 0 <= k < p.len() ==> #[trigger] edge_apart(p, q, i, k)
}

/// The edge at place `k` ends where the corner at place `i` is, or is apart from the segment
/// between that and the point.
pub open spec fn edge_apart(p: Seq<(int, int)>, q: (int, int), i: int, k: int) -> bool {
    p[k] == p[i] || next(p, k) == p[i] || apart(p[k], next(p, k), p[i], q)
}

/// A corner at the end of a ray to the left is seen from the point where the ray starts.
pub(crate) proof fn lemma_sees_level(p: Seq<(int, int)>, q: (int, int), j: int)
    requires
        weakly_left(p),
        general(p, q),
        off_ring(p, q),
        winding(p, q) == 1,
        0 <= j < p.len(),
        nearest(p, p[j], q),
    ensures
        sees(p, q, j),
{
    let n = p.len() as int;
    lemma_quiet_corner(p, q, j);
    assert forall|k: int| 0 <= k < n implies #[trigger] edge_apart(p, q, j, k) by {
        let l = after(k, n);
        assert(bent(p, k));
        if p[k] != p[j] && p[l] != p[j] {
            assert(tri(p[k], p[l], p[j]) != 0);
            lemma_ray_clear(p, p[j], q, k);
        }
    }
}

/// An edge is apart from a part of another edge that reaches no common corner.
proof fn lemma_off_part(p: Seq<(int, int)>, x: (int, int), e: int, m: (int, int), k: int)
    requires
        weakly_simple(p),
        0 <= e < p.len(),
        0 <= k < p.len(),
        !along(p, e, k),
        within_edge(p[e], next(p, e), x),
        on(p[e], next(p, e), m),
        p[k] == p[e] || next(p, k) == p[e] ==> m != p[e],
        p[k] == next(p, e) || next(p, k) == next(p, e) ==> m != next(p, e),
    ensures
        apart(p[k], next(p, k), x, m),
        !on(p[k], next(p, k), x),
{
    let n = p.len() as int;
    let (a, b) = (p[e], next(p, e));
    let f = after(e, n);
    let l = after(k, n);
    let (u, w) = (p[k], p[l]);
    assert(bent(p, e) && bent(p, k));
    if u == a || w == a {
        let (d, g) = if u == a {
            (w, l)
        } else {
            (u, k)
        };
        assert(tri(p[e], p[f], p[g]) != 0);
        lemma_beside_edge(a, d, a, b, x, m);
    } else if u == b || w == b {
        let (d, g) = if u == b {
            (w, l)
        } else {
            (u, k)
        };
        assert(tri(p[e], p[f], p[g]) != 0);
        lemma_beside_edge(b, d, a, b, x, m);
    } else {
        lemma_edge_clear(p, k, e);
        lemma_part_apart(u, w, a, b, x, m);
    }
}

/// The two edges run along each other.
spec fn along(p: Seq<(int, int)>, e: int, k: int) -> bool {
    (p[k] == p[e] && next(p, k) == next(p, e)) || (p[k] == next(p, e) && next(p, k) == p[e])
}

/// The triangle of `x`, `q` and `m`, in the order in which it runs counterclockwise.
proof fn lemma_lean_triangle(x: (int, int), q: (int, int), m: (int, int), v: (int, int))
    requires
        x.1 == q.1,
        x.0 < q.0,
        m.1 != q.1,
        on(q, m, v),
    ensures
        m.1 > q.1 ==> tri(m, x, q) > 0 && on(m, q, v),
        m.1 < q.1 ==> tri(q, x, m) > 0,
{
    lemma_level_side(x, q, m);
    lemma_tri(x, q, m);
    lemma_tri(m, x, q);
    lemma_tri(q, x, m);
    lemma_tri(q, m, v);
    lemma_tri(m, q, v);
}

/// An edge is apart from the way to the corner at place `i`.
#[verifier::spinoff_prover]
proof fn lemma_lean_edge(
    p: Seq<(int, int)>,
    q: (int, int),
    x: (int, int),
    e: int,
    m: (int, int),
    i: int,
    k: int,
)
    requires
        weakly_simple(p),
        general(p, q),
        off_ring(p, q),
        quiet(p, x, q),
        0 <= e < p.len(),
        within_edge(p[e], next(p, e), x),
        tri(p[e], next(p, e), q) > 0,
        0 <= i < p.len(),
        p[i] != q,
        on(p[e], next(p, e), m),
        m.1 != q.1,
        m == p[e] || m == next(p, e) ==> m == p[i],
        on(q, m, p[i]),
        0 <= k < p.len(),
        p[k] != p[i],
        next(p, k) != p[i],
        !short_of(x, q, m, p[k]),
        !short_of(x, q, m, next(p, k)),
    ensures
        !crossing(p[k], next(p, k), p[i], q),
{
    let n = p.len() as int;
    let v = p[i];
    let (a, b) = (p[e], next(p, e));
    let (u, w) = (p[k], next(p, k));
    if along(p, e, k) {
        lemma_edge_side(a, b, q, m, v);
        lemma_tri(a, b, v);
        lemma_tri(a, b, q);
    } else {
        lemma_off_part(p, x, e, m, k);
        lemma_ray_clear(p, x, q, k);
        lemma_apart_swapped(u, w, x, m);
        lemma_apart_swapped(u, w, x, q);
        lemma_lean_triangle(x, q, m, v);
        if m.1 > q.1 {
            lemma_way_uncrossed(m, x, q, q, v, u, w);
        } else {
            lemma_way_uncrossed(q, x, m, q, v, u, w);
        }
    }
}

/// The corner on the way from the point to a place `m` on the edge that the ray meets is seen, if
/// no corner is in the triangle short of that way.
pub(crate) proof fn lemma_sees_lean(
    p: Seq<(int, int)>,
    q: (int, int),
    x: (int, int),
    e: int,
    m: (int, int),
    i: int,
)
    requires
        weakly_left(p),
        general(p, q),
        off_ring(p, q),
        winding(p, q) == 1,
        0 <= e < p.len(),
        falls_past(p[e], next(p, e), q.1),
        within_edge(p[e], next(p, e), x),
        tri(p[e], next(p, e), q) > 0,
        nearest(p, x, q),
        0 <= i < p.len(),
        on(p[e], next(p, e), m),
        m.1 != q.1,
        m == p[e] || m == next(p, e) ==> m == p[i],
        on(q, m, p[i]),
        forall|k: int| 0 <= k < p.len() ==> !short_of(x, q, m, #[trigger] p[k]),
    ensures
        sees(p, q, i),
{
    let n = p.len() as int;
    let v = p[i];
    lemma_quiet_edge(p, q, x, e);
    assert(v != q) by {
        lemma_tri(p[i], next(p, i), p[i]);
        assert(!on(p[i], next(p, i), q));
    }
    assert forall|k: int| 0 <= k < n implies #[trigger] edge_apart(p, q, i, k) by {
        let (u, w) = (p[k], next(p, k));
        let l = after(k, n);
        assert(bent(p, k));
        if u != v && w != v {
            assert(tri(p[k], p[l], p[i]) != 0);
            assert(!on(p[k], next(p, k), q));
            assert(tri(p[i], p[k], q) != 0 && tri(p[i], p[l], q) != 0);
            lemma_tri(v, q, u);
            lemma_tri(v, q, w);
            lemma_tri(v, u, q);
            lemma_tri(v, w, q);
            assert(!short_of(x, q, m, p[k]) && !short_of(x, q, m, p[l]));
            lemma_lean_edge(p, q, x, e, m, i, k);
        }
    }
}

/// A multiple of a sum of three terms.
proof fn lemma_three_terms(o: int, c: int, r: int, x: int, s: int, y: int)
    ensures
        o * (c + r * x + s * y) == o * c + r * (o * x) + s * (o * y),
{
    assert(o * (c + r * x + s * y) == o * c + o * (r * x) + o * (s * y)) by (nonlinear_arith);
    assert(o * (r * x) == r * (o * x) && o * (s * y) == s * (o * y)) by (nonlinear_arith);
}

/// On the way from a point beside an edge to a place on it, one stays on that side.
proof fn lemma_edge_side(
    a: (int, int),
    b: (int, int),
    q: (int, int),
    m: (int, int),
    v: (int, int),
)
    requires
        tri(a, b, q) > 0,
        on(a, b, m),
        on(q, m, v),
    ensures
        tri(a, b, v) >= 0,
{
    lemma_apart_means(a, b, v, v);
    let (g, h) = lemma_on_weights(q, m, v);
    let k = side(a, b);
    lemma_side(a, b, q);
    lemma_side(a, b, m);
    lemma_side(a, b, v);
    let o = g + h;
    let (c, r, s) = (k.0, k.1, k.2);
    lemma_three_terms(o, c, r, v.0, s, v.1);
    lemma_three_terms(g, c, r, q.0, s, q.1);
    lemma_three_terms(h, c, r, m.0, s, m.1);
    assert(r * (o * v.0) == r * (g * q.0) + r * (h * m.0)) by (nonlinear_arith)
        requires
            o * v.0 == g * q.0 + h * m.0,
    ;
    assert(s * (o * v.1) == s * (g * q.1) + s * (h * m.1)) by (nonlinear_arith)
        requires
            o * v.1 == g * q.1 + h * m.1,
    ;
    assert(o * c == g * c + h * c) by (nonlinear_arith)
        requires
            o == g + h,
    ;
    lemma_signs(g, tri(a, b, q));
    lemma_signs(h, tri(a, b, m));
    lemma_signs(o, tri(a, b, v));
}

/// A corner at a place that is seen from a point inside faces it.
pub(crate) proof fn lemma_seen_faced(p: Seq<(int, int)>, q: (int, int), i: int) -> (j: int)
    requires
        weakly_left(p),
        general(p, q),
        off_ring(p, q),
        winding(p, q) == 1,
        0 <= i < p.len(),
        sees(p, q, i),
    ensures
        0 <= j < p.len(),
        p[j] == p[i],
        faces(p, j, q),
{
    let n = p.len() as int;
    assert forall|k: int| 0 <= k < n implies #[trigger] p[k] != q by {
        lemma_tri(p[k], next(p, k), p[k]);
        assert(!on(p[k], next(p, k), q));
    }
    assert forall|k: int| 0 <= k < n implies #[trigger] edge_clear(p, k, p[i], q) by {
        assert(bent(p, k));
        assert(edge_apart(p, q, i, k));
    }
    lemma_sight_line(p, p[i], q);
    lemma_no_turns(p, q, p[i], n);
    lemma_ground_along(p, i);
    let j = lemma_turns_more(p, p[i], q, n);
    lemma_off_rays(p, q, i);
    lemma_not_faced(p, j, q);
    j
}

// ---------------------------------------------------------------------------------------------
// Magnified
// ---------------------------------------------------------------------------------------------
/// What is seen in a magnified ring is seen.
pub(crate) proof fn lemma_zoom_sees(p: Seq<(int, int)>, q: (int, int), i: int, k: int)
    requires
        k > 0,
        0 <= i < p.len(),
        sees(zoomed(p, k), zoom(q, k), i),
    ensures
        sees(p, q, i),
{
    let z = zoomed(p, k);
    lemma_zoomed_at(p, k, i);
    assert forall|j: int| 0 <= j < p.len() implies #[trigger] edge_apart(p, q, i, j) by {
        lemma_zoomed_at(p, k, j);
        assert(edge_apart(z, zoom(q, k), i, j));
        let (u, v) = (p[j], next(p, j));
        lemma_zoom_under(k, u, p[i]);
        lemma_zoom_under(k, v, p[i]);
        lemma_zoom_crossing(k, u, v, p[i], q);
        lemma_zoom_on(k, u, v, p[i]);
        lemma_zoom_on(k, u, v, q);
        lemma_zoom_on(k, p[i], q, u);
        lemma_zoom_on(k, p[i], q, v);
    }
}

/// What is known of a ring and a point inside holds of the magnified ones.
pub(crate) proof fn lemma_zoom_inside(p: Seq<(int, int)>, q: (int, int), k: int)
    requires
        k > 0,
        weakly_left(p),
        general(p, q),
        off_ring(p, q),
    ensures
        weakly_left(zoomed(p, k)),
        general(zoomed(p, k), zoom(q, k)),
        off_ring(zoomed(p, k), zoom(q, k)),
        winding(zoomed(p, k), zoom(q, k)) == winding(p, q),
{
    let z = zoomed(p, k);
    lemma_weak_zoom(p, k);
    lemma_zoom_winding(p, k, q);
    assert forall|a: int, b: int|
        0 <= a < z.len() && 0 <= b < z.len() && z[a] != z[b] implies #[trigger] tri(
        z[a],
        z[b],
        zoom(q, k),
    ) != 0 by {
        assert(tri(p[a], p[b], q) != 0);
        lemma_zoom_tri(k, p[a], p[b], q);
    }
    assert forall|j: int| 0 <= j < z.len() implies !on(
        #[trigger] z[j],
        next(z, j),
        zoom(q, k),
    ) by {
        lemma_zoomed_at(p, k, j);
        assert(!on(p[j], next(p, j), q));
        lemma_zoom_on(k, p[j], next(p, j), q);
    }
}

/// What is nearest to a point is so in the magnified ring.
pub(crate) proof fn lemma_zoom_nearest(
    p: Seq<(int, int)>,
    x: (int, int),
    q: (int, int),
    k: int,
)
    requires
        k > 0,
        nearest(p, x, q),
    ensures
        nearest(zoomed(p, k), zoom(x, k), zoom(q, k)),
{
    let z = zoomed(p, k);
    lemma_zoom_order(k, x.0, q.0);
    assert forall|j: int|
        0 <= j < z.len() && falls_past(#[trigger] z[j], next(z, j), zoom(q, k).1) && tri(
            z[j],
            next(z, j),
            zoom(q, k),
        ) > 0 implies tri(z[j], next(z, j), zoom(x, k)) >= 0 by {
        lemma_zoomed_at(p, k, j);
        let (u, v) = (p[j], next(p, j));
        lemma_zoom_tri(k, u, v, q);
        lemma_zoom_tri(k, u, v, x);
        lemma_zoom_order(k, v.1, q.1);
        lemma_zoom_order(k, q.1, v.1);
        lemma_zoom_order(k, q.1, u.1);
        lemma_zoom_order(k, u.1, q.1);
        lemma_zoom_order(k, v.1, u.1);
        assert(falls_past(p[j], next(p, j), q.1));
    }
}

// ---------------------------------------------------------------------------------------------
// The corner under the smallest angle
// ---------------------------------------------------------------------------------------------
/// The point is in the triangle of `x`, `q` and `c`.
pub open spec fn in_reach_of(x: (int, int), q: (int, int), c: (int, int), z: (int, int)) -> bool {
    if c.1 > q.1 {
        tri(c, x, z) >= 0 && tri(x, q, z) >= 0 && tri(q, c, z) >= 0
    } else {
        tri(q, x, z) >= 0 && tri(x, c, z) >= 0 && tri(c, q, z) >= 0
    }
}

/// The point `z` is seen from `q` under a smaller angle with the level than `v`, on the side of
/// `c`.
pub open spec fn lower_than(q: (int, int), c: (int, int), z: (int, int), v: (int, int)) -> bool {
    if c.1 > q.1 {
        tri(q, v, z) > 0
    } else {
        tri(q, v, z) < 0
    }
}

/// On a line, affine functions change in proportion.
proof fn lemma_in_proportion(
    f: (int, int, int),
    q: (int, int),
    v: (int, int),
    m: (int, int),
)
    requires
        tri(q, m, v) == 0,
    ensures
        (affine(f, v) - affine(f, q)) * (m.1 - q.1) == (affine(f, m) - affine(f, q)) * (v.1 - q.1),
{
    lemma_differences(m.0, q.0, v.1, q.1);
    lemma_differences(m.1, q.1, v.0, q.0);
    let (a, b, c, d) = (v.0 - q.0, v.1 - q.1, m.0 - q.0, m.1 - q.1);
    assert(c * b == d * a);
    assert(affine(f, v) - affine(f, q) == f.1 * a + f.2 * b) by (nonlinear_arith)
        requires
            a == v.0 - q.0,
            b == v.1 - q.1,
            affine(f, v) == f.0 + f.1 * v.0 + f.2 * v.1,
            affine(f, q) == f.0 + f.1 * q.0 + f.2 * q.1,
    ;
    assert(affine(f, m) - affine(f, q) == f.1 * c + f.2 * d) by (nonlinear_arith)
        requires
            c == m.0 - q.0,
            d == m.1 - q.1,
            affine(f, m) == f.0 + f.1 * m.0 + f.2 * m.1,
            affine(f, q) == f.0 + f.1 * q.0 + f.2 * q.1,
    ;
    assert((f.1 * a + f.2 * b) * d == f.1 * (d * a) + f.2 * (b * d)) by (nonlinear_arith);
    assert((f.1 * c + f.2 * d) * b == f.1 * (c * b) + f.2 * (b * d)) by (nonlinear_arith);
}

/// The triangle of a point between `x` and `c`, weighted by `s` and `t`.
proof fn lemma_mixed(
    q: (int, int),
    x: (int, int),
    c: (int, int),
    z: (int, int),
    s: int,
    t: int,
)
    ensures
        tri(zoom(q, s + t), weigh(x, c, s, t), zoom(z, s + t)) == (s + t) * (s * tri(q, x, z) + t
            * tri(q, c, z)),
{
    let k = s + t;
    let (a, m, b) = (zoom(q, k), weigh(x, c, s, t), zoom(z, k));
    lemma_differences(m.0, a.0, b.1, a.1);
    lemma_differences(m.1, a.1, b.0, a.0);
    lemma_differences(x.0, q.0, z.1, q.1);
    lemma_differences(x.1, q.1, z.0, q.0);
    lemma_differences(c.0, q.0, z.1, q.1);
    lemma_differences(c.1, q.1, z.0, q.0);
    let (f, g, h, i) = (x.0 - q.0, x.1 - q.1, c.0 - q.0, c.1 - q.1);
    let (u, v) = (z.0 - q.0, z.1 - q.1);
    assert(m.0 - a.0 == s * f + t * h && m.1 - a.1 == s * g + t * i) by (nonlinear_arith)
        requires
            m == (s * x.0 + t * c.0, s * x.1 + t * c.1),
            a == ((s + t) * q.0, (s + t) * q.1),
            f == x.0 - q.0,
            g == x.1 - q.1,
            h == c.0 - q.0,
            i == c.1 - q.1,
    ;
    assert(b.0 - a.0 == k * u && b.1 - a.1 == k * v) by (nonlinear_arith)
        requires
            b == (k * z.0, k * z.1),
            a == (k * q.0, k * q.1),
            u == z.0 - q.0,
            v == z.1 - q.1,
    ;
    let (d, e) = (s * f + t * h, s * g + t * i);
    assert(d * (k * v) - e * (k * u) == k * (d * v - e * u)) by (nonlinear_arith);
    assert(d * v == s * (f * v) + t * (h * v)) by (nonlinear_arith)
        requires
            d == s * f + t * h,
    ;
    assert(e * u == s * (g * u) + t * (i * u)) by (nonlinear_arith)
        requires
            e == s * g + t * i,
    ;
    assert(s * (f * v - g * u) == s * (f * v) - s * (g * u)) by (nonlinear_arith);
    assert(t * (h * v - i * u) == t * (h * v) - t * (i * u)) by (nonlinear_arith);
}

/// A point on a part of a segment is on the segment.
proof fn lemma_on_part(
    a: (int, int),
    b: (int, int),
    x: (int, int),
    y: (int, int),
    z: (int, int),
)
    requires
        on(a, b, x),
        on(a, b, y),
        on(x, y, z),
    ensures
        on(a, b, z),
{
    if !on(a, b, z) {
        lemma_tri(a, b, a);
        lemma_tri(a, b, b);
        lemma_tri(z, z, a);
        lemma_tri(z, z, b);
        assert(on(a, b, a) && on(a, b, b));
        assert(apart(z, z, a, b));
        lemma_part_apart(z, z, a, b, x, y);
    }
}

/// The ends of an edge that falls past a point on it are above and below.
proof fn lemma_edge_ends(a: (int, int), b: (int, int), x: (int, int))
    requires
        falls_past(a, b, x.1),
        within_edge(a, b, x),
    ensures
        b.1 < x.1 < a.1,
{
    lemma_level_tri(a, b, x, x);
    lemma_signs(b.1 - a.1, x.0 - a.0);
    lemma_signs(b.1 - a.1, x.0 - b.0);
    lemma_signs(b.0 - a.0, x.1 - a.1);
    lemma_signs(b.0 - a.0, x.1 - b.1);
}

/// A corner in reach is not level with the point.
proof fn lemma_not_level(
    p: Seq<(int, int)>,
    q: (int, int),
    x: (int, int),
    c: (int, int),
    i: int,
)
    requires
        weakly_simple(p),
        general(p, q),
        off_ring(p, q),
        quiet(p, x, q),
        0 <= i < p.len(),
        p[i] != x,
        c.1 != q.1,
        in_reach_of(x, q, c, p[i]),
    ensures
        c.1 > q.1 ==> p[i].1 > q.1,
        c.1 < q.1 ==> p[i].1 < q.1,
{
    let v = p[i];
    lemma_level_side(x, q, v);
    lemma_level_side(x, q, c);
    lemma_tri(q, x, v);
    lemma_tri(x, q, v);
    if v.1 == q.1 {
        lemma_no_corner_between(p, x, q, i);
        assert(v != q) by {
            lemma_tri(p[i], next(p, i), p[i]);
            assert(!on(p[i], next(p, i), q));
        }
        lemma_tri(c, q, v);
        lemma_tri(q, c, v);
        lemma_tri(c, x, v);
        lemma_tri(x, c, v);
        lemma_differences(q.0, c.0, v.1, c.1);
        lemma_level_tri(q, c, v, q);
        lemma_level_tri(c, x, v, x);
        lemma_tri(q, c, q);
        lemma_tri(c, x, x);
        lemma_signs(q.0 - v.0, q.1 - c.1);
        lemma_signs(x.0 - v.0, c.1 - x.1);
    }
}

/// The weights with which the way from `q` to `v` meets the side from `x` to `c`.
spec fn way_weights(q: (int, int), x: (int, int), c: (int, int), v: (int, int)) -> (int, int) {
    if c.1 > q.1 {
        (-tri(q, v, c), tri(q, v, x))
    } else {
        (tri(q, v, c), -tri(q, v, x))
    }
}

/// The place where the way from `q` to `v` meets the side from `x` to `c`, in a magnified ring.
#[verifier::spinoff_prover]
proof fn lemma_way_place(q: (int, int), x: (int, int), c: (int, int), v: (int, int))
    requires
        x.1 == q.1,
        x.0 < q.0,
        c.1 != q.1,
        in_reach_of(x, q, c, v),
        tri(q, v, c) != 0,
        c.1 > q.1 ==> v.1 > q.1,
        c.1 < q.1 ==> v.1 < q.1,
    ensures
        ({
            let (s, t) = way_weights(q, x, c, v);
            let k = s + t;
            let m = weigh(x, c, s, t);
            &&& s > 0 && t > 0
            &&& m.1 - k * q.1 == t * (c.1 - q.1)
            &&& k * c.1 - m.1 == s * (c.1 - q.1)
            &&& tri(zoom(q, k), m, zoom(v, k)) == 0
            &&& on(zoom(x, k), zoom(c, k), m)
            &&& on(zoom(q, k), m, zoom(v, k))
        }),
{
    let (s, t) = way_weights(q, x, c, v);
    let k = s + t;
    let m = weigh(x, c, s, t);
    lemma_tri(q, c, v);
    lemma_tri(c, q, v);
    lemma_tri(q, v, x);
    lemma_tri(q, v, c);
    lemma_tri(q, x, v);
    lemma_tri(x, q, v);
    lemma_level_side(x, q, v);
    lemma_level_side(x, q, c);
    assert(s > 0 && t > 0);
    assert(m.1 - k * q.1 == t * (c.1 - q.1) && k * c.1 - m.1 == s * (c.1 - q.1)) by (
    nonlinear_arith)
        requires
            m.1 == s * x.1 + t * c.1,
            x.1 == q.1,
            k == s + t,
    ;
    lemma_mixed(q, x, c, v, s, t);
    assert(tri(q, x, v) == -tri(q, v, x) && tri(q, c, v) == -tri(q, v, c));
    assert(s * tri(q, x, v) + t * tri(q, c, v) == 0) by (nonlinear_arith)
        requires
            tri(q, x, v) == -tri(q, v, x),
            tri(q, c, v) == -tri(q, v, c),
            (s == -tri(q, v, c) && t == tri(q, v, x)) || (s == tri(q, v, c) && t == -tri(q, v, x)),
    ;
    lemma_signs(k, 0);
    lemma_weigh_on(x, c, s, t);
    // how far v is from the side, compared with q
    let (a, b, w) = (zoom(q, k), zoom(x, k), zoom(v, k));
    let (f, g) = if c.1 > q.1 {
        (zoom(c, k), b)
    } else {
        (b, zoom(c, k))
    };
    let l = side(f, g);
    lemma_side(f, g, a);
    lemma_side(f, g, w);
    lemma_side(f, g, m);
    lemma_zoom_tri(k, c, x, q);
    lemma_zoom_tri(k, x, c, q);
    lemma_zoom_tri(k, c, x, v);
    lemma_zoom_tri(k, x, c, v);
    lemma_tri(c, x, q);
    lemma_tri(x, c, q);
    lemma_tri(x, q, c);
    lemma_tri(b, zoom(c, k), m);
    assert(tri(f, g, m) == 0);
    lemma_in_proportion(l, a, w, m);
    let (fq, fv, dm, dv) = (tri(f, g, a), tri(f, g, w), m.1 - a.1, w.1 - a.1);
    assert(fq > 0 && fv >= 0);
    assert((fv - fq) * dm == (0 - fq) * dv);
    lemma_signs(t, c.1 - q.1);
    lemma_zoom_order(k, q.1, v.1);
    lemma_zoom_order(k, v.1, q.1);
    lemma_tri(a, m, w);
    lemma_tri(m, a, w);
    if c.1 > q.1 {
        assert(dv <= dm) by (nonlinear_arith)
            requires
                (fv - fq) * dm == (0 - fq) * dv,
                fq > 0,
                fv >= 0,
                dm > 0,
        ;
        lemma_level(m, a, w);
    } else {
        assert(dv >= dm) by (nonlinear_arith)
            requires
                (fv - fq) * dm == (0 - fq) * dv,
                fq > 0,
                fv >= 0,
                dm < 0,
        ;
        lemma_level(a, m, w);
    }
}

/// A point short of the way to `v` is in reach, and lower than `v`.
#[verifier::spinoff_prover]
proof fn lemma_short_of_way(
    q: (int, int),
    x: (int, int),
    c: (int, int),
    v: (int, int),
    z: (int, int),
)
    requires
        x.1 == q.1,
        x.0 < q.0,
        c.1 != q.1,
        v != q,
        ({
            let (s, t) = way_weights(q, x, c, v);
            let k = s + t;
            let m = weigh(x, c, s, t);
            &&& s > 0 && t > 0
            &&& m.1 - k * q.1 == t * (c.1 - q.1)
            &&& on(zoom(q, k), m, zoom(v, k))
            &&& short_of(zoom(x, k), zoom(q, k), m, zoom(z, k))
        }),
    ensures
        in_reach_of(x, q, c, z),
        lower_than(q, c, z, v),
{
    let (s, t) = way_weights(q, x, c, v);
    let k = s + t;
    let m = weigh(x, c, s, t);
    let (a, b, d, w, o) = (zoom(q, k), zoom(x, k), zoom(c, k), zoom(v, k), zoom(z, k));
    lemma_signs(t, c.1 - q.1);
    lemma_zoom_under(k, v, q);
    lemma_same_direction(a, m, w, o);
    lemma_zoom_tri(k, q, v, z);
    lemma_mixed(x, x, c, z, s, t);
    lemma_tri(x, x, z);
    assert(tri(x, x, z) == 0) by {
        lemma_differences(x.0, x.0, z.1, x.1);
        lemma_differences(x.1, x.1, z.0, x.0);
        lemma_signs(0, z.1 - x.1);
        lemma_signs(0, z.0 - x.0);
    }
    lemma_signs(s, 0);
    lemma_signs(t, tri(x, c, z));
    lemma_signs(k, s * tri(x, x, z) + t * tri(x, c, z));
    lemma_tri(b, m, o);
    lemma_tri(m, b, o);
    lemma_tri(x, c, z);
    lemma_tri(c, x, z);
    lemma_zoom_tri(k, x, q, z);
    lemma_zoom_tri(k, q, x, z);
    lemma_tri(a, m, o);
    lemma_tri(m, a, o);
    // the side from q to c
    lemma_level_side(x, q, c);
    lemma_mixed(q, x, c, c, s, t);
    lemma_tri(q, c, c);
    lemma_tri(q, x, c);
    lemma_tri(x, q, c);
    lemma_signs(s, tri(q, x, c));
    lemma_signs(t, tri(q, c, c));
    lemma_signs(k, s * tri(q, x, c) + t * tri(q, c, c));
    lemma_tri(a, m, d);
    lemma_tri(a, d, m);
    lemma_tri(d, a, m);
    lemma_zoom_tri(k, q, c, x);
    lemma_zoom_tri(k, c, q, x);
    lemma_tri(q, c, x);
    lemma_tri(c, q, x);
    lemma_zoom_tri(k, q, c, z);
    lemma_zoom_tri(k, c, q, z);
    lemma_zoom_order(k, x.0, q.0);
    lemma_level_side(b, a, m);
    lemma_tri(b, a, m);
    lemma_tri(m, b, a);
    lemma_tri(a, b, m);
    if c.1 > q.1 {
        let l = side(a, d);
        lemma_side(a, d, m);
        lemma_side(a, d, b);
        lemma_side(a, d, a);
        lemma_side(a, d, o);
        lemma_tri(a, d, a);
        lemma_in_box(l, m, b, a, o);
    } else {
        let l = side(d, a);
        lemma_side(d, a, m);
        lemma_side(d, a, b);
        lemma_side(d, a, a);
        lemma_side(d, a, o);
        lemma_tri(d, a, a);
        lemma_in_box(l, a, b, m, o);
    }
}

/// The conditions of [`lemma_sees_lean`] hold in a magnified ring.
#[verifier::spinoff_prover]
proof fn lemma_zoom_lean(
    p: Seq<(int, int)>,
    q: (int, int),
    x: (int, int),
    e: int,
    d: (int, int),
    m: (int, int),
    s: int,
    t: int,
)
    requires
        p.len() >= 3,
        0 <= e < p.len(),
        s > 0,
        t > 0,
        falls_past(p[e], next(p, e), q.1),
        within_edge(p[e], next(p, e), x),
        tri(p[e], next(p, e), q) > 0,
        x.1 == q.1,
        d == p[e] || d == next(p, e),
        next(p, e).1 < q.1 < p[e].1,
        m.1 - (s + t) * q.1 == t * (d.1 - q.1),
        (s + t) * d.1 - m.1 == s * (d.1 - q.1),
        on(zoom(x, s + t), zoom(d, s + t), m),
    ensures
        ({
            let k = s + t;
            let z = zoomed(p, k);
            &&& falls_past(z[e], next(z, e), zoom(q, k).1)
            &&& within_edge(z[e], next(z, e), zoom(x, k))
            &&& tri(z[e], next(z, e), zoom(q, k)) > 0
            &&& on(z[e], next(z, e), m)
            &&& m.1 != zoom(q, k).1
            &&& m != z[e] && m != next(z, e)
        }),
{
    let k = s + t;
    let (a, b) = (p[e], next(p, e));
    lemma_zoomed_at(p, k, e);
    lemma_tri(a, b, a);
    lemma_tri(a, b, b);
    lemma_zoom_on(k, a, b, x);
    lemma_zoom_on(k, a, b, d);
    lemma_zoom_under(k, x, a);
    lemma_zoom_under(k, x, b);
    lemma_zoom_tri(k, a, b, q);
    lemma_zoom_order(k, b.1, q.1);
    lemma_zoom_order(k, q.1, a.1);
    lemma_on_part(zoom(a, k), zoom(b, k), zoom(x, k), zoom(d, k), m);
    lemma_signs(s, d.1 - q.1);
    lemma_signs(t, d.1 - q.1);
}

/// The case of a corner between the ray and the end of the edge that it meets.
#[verifier::spinoff_prover]
proof fn lemma_sees_between(
    p: Seq<(int, int)>,
    q: (int, int),
    x: (int, int),
    e: int,
    c: int,
    i: int,
)
    requires
        weakly_left(p),
        general(p, q),
        off_ring(p, q),
        winding(p, q) == 1,
        0 <= e < p.len(),
        falls_past(p[e], next(p, e), q.1),
        within_edge(p[e], next(p, e), x),
        tri(p[e], next(p, e), q) > 0,
        next(p, e).1 < q.1 < p[e].1,
        nearest(p, x, q),
        c == e || c == after(e, p.len() as int),
        0 <= i < p.len(),
        p[i] != q,
        ({
            let (s, t) = way_weights(q, x, p[c], p[i]);
            let k = s + t;
            let m = weigh(x, p[c], s, t);
            &&& s > 0 && t > 0
            &&& m.1 - k * q.1 == t * (p[c].1 - q.1)
            &&& k * p[c].1 - m.1 == s * (p[c].1 - q.1)
            &&& on(zoom(x, k), zoom(p[c], k), m)
            &&& on(zoom(q, k), m, zoom(p[i], k))
        }),
        forall|k: int|
            0 <= k < p.len() && in_reach_of(x, q, p[c], #[trigger] p[k]) ==> !lower_than(
                q,
                p[c],
                p[k],
                p[i],
            ),
    ensures
        sees(p, q, i),
{
    let (d, v) = (p[c], p[i]);
    let (s, t) = way_weights(q, x, d, v);
    let k = s + t;
    let m = weigh(x, d, s, t);
    let z = zoomed(p, k);
    let (zq, zx) = (zoom(q, k), zoom(x, k));
    lemma_zoom_inside(p, q, k);
    lemma_zoom_nearest(p, x, q, k);
    lemma_zoomed_at(p, k, i);
    lemma_zoom_lean(p, q, x, e, d, m, s, t);
    assert forall|j: int| 0 <= j < z.len() implies !short_of(zx, zq, m, #[trigger] z[j]) by {
        if short_of(zx, zq, m, z[j]) {
            lemma_short_of_way(q, x, d, v, p[j]);
            assert(in_reach_of(x, q, p[c], p[j]));
        }
    }
    lemma_sees_lean(z, zq, zx, e, m, i);
    lemma_zoom_sees(p, q, i, k);
}

/// Of the corners in reach of the ray to the left and the end `c` of the edge that it meets, the
/// one under the smallest angle is seen from the point where the ray starts.
#[verifier::spinoff_prover]
pub(crate) proof fn lemma_sees_lowest(
    p: Seq<(int, int)>,
    q: (int, int),
    x: (int, int),
    e: int,
    c: int,
    i: int,
)
    requires
        weakly_left(p),
        general(p, q),
        off_ring(p, q),
        winding(p, q) == 1,
        0 <= e < p.len(),
        falls_past(p[e], next(p, e), q.1),
        within_edge(p[e], next(p, e), x),
        tri(p[e], next(p, e), q) > 0,
        nearest(p, x, q),
        c == e || c == after(e, p.len() as int),
        0 <= i < p.len(),
        p[i] != x,
        in_reach_of(x, q, p[c], p[i]),
        forall|k: int|
            0 <= k < p.len() && in_reach_of(x, q, p[c], #[trigger] p[k]) ==> !lower_than(
                q,
                p[c],
                p[k],
                p[i],
            ),
    ensures
        sees(p, q, i),
{
    let n = p.len() as int;
    let (a, b, d, v) = (p[e], next(p, e), p[c], p[i]);
    lemma_edge_ends(a, b, x);
    lemma_tri(a, b, a);
    lemma_tri(a, b, b);
    assert(on(a, b, d));
    if v == d {
        assert forall|k: int| 0 <= k < n implies !short_of(x, q, d, #[trigger] p[k]) by {
            assert(in_reach_of(x, q, p[c], p[k]) ==> !lower_than(q, p[c], p[k], p[i]));
            lemma_tri(q, d, p[k]);
            lemma_tri(d, q, p[k]);
        }
        lemma_tri(q, d, d);
        assert(on(q, d, d));
        lemma_sees_lean(p, q, x, e, d, i);
    } else {
        assert(v != q) by {
            lemma_tri(p[i], next(p, i), p[i]);
            assert(!on(p[i], next(p, i), q));
        }
        lemma_quiet_edge(p, q, x, e);
        lemma_not_level(p, q, x, d, i);
        assert(tri(p[i], p[c], q) != 0);
        lemma_tri(v, d, q);
        lemma_tri(q, v, d);
        lemma_way_place(q, x, d, v);
        lemma_sees_between(p, q, x, e, c, i);
    }
}

} // verus!
