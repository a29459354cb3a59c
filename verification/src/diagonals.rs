//! What lies inside a simple ring.
use vstd::prelude::*;
use crate::areas::tri;
use crate::meeting::{lemma_apart_means, lemma_met_sides, meets_at, share_point};
use crate::model::{after, before};
use crate::segments::{apart, lemma_differences, lemma_on_side, lemma_signs, lemma_tri, on};
use crate::simple::{
    ear, left_handed, lemma_corners_differ, lemma_cut, lemma_cut_passings, lemma_either_way,
    lemma_has_ear, lemma_has_lowest, lemma_in_ear, lemma_left_along, lemma_lowest_turn,
    lemma_reversed_at, lemma_reversed_simple, lemma_seen_at, lemma_seen_ear, lemma_seen_left_handed,
    lowest, off_edge, place, seen_at, simple,
};
use crate::tiling::{lemma_reversed_winding, lemma_turned_winding};
use crate::winding::{
    inside, lemma_along, lemma_in_angle, lemma_off_angle, lemma_outside, lemma_passes_back,
    lemma_seen, near, next, passes, passings, prev, wedge, winding, winding_left,
};
use crate::zooming::{
    lemma_zoom_left_handed, lemma_zoom_seen, lemma_zoom_tri, lemma_zoom_winding, lemma_zoomed_at,
    zoom, zoomed,
};

verus! {

/// The point is on no edge of the ring.
pub open spec fn off_ring(p: Seq<(int, int)>, q: (int, int)) -> bool {
    forall|k: int| 0 <= k < p.len() ==> !on(#[trigger] p[k], next(p, k), q)
}

// ---------------------------------------------------------------------------------------------
// Once around
// ---------------------------------------------------------------------------------------------
/// Without an ear a ring runs as often around a point that is not in the ear.
proof fn lemma_cut_around(p: Seq<(int, int)>, q: (int, int))
    requires
        p.len() >= 4,
        ear(p, 0),
        off_ring(p, q),
        !inside(p[p.len() - 1], p[0], p[1], q),
    ensures
        winding(p.drop_first(), q) == winding(p, q),
        off_ring(p.drop_first(), q),
{
    let n = p.len() as int;
    let (a, b, c) = (p[n - 1], p[0], p[1]);
    let d = p.drop_first();
    lemma_outside(a, b, c, q);
    lemma_passes_back(a, c, q);
    lemma_cut_passings(p, q, n - 2);
    assert(next(d, n - 2) == p[1] && d[n - 2] == p[n - 1]);
    assert(next(p, n - 1) == p[0]);
    assert(passings(d, q, n - 1) == passings(d, q, n - 2) + passes(p[n - 1], p[1], q));
    assert(passings(p, q, n) == passings(p, q, n - 1) + passes(p[n - 1], p[0], q));
    assert forall|k: int| 0 <= k < d.len() implies !on(#[trigger] d[k], next(d, k), q) by {
        if k < n - 2 {
            assert(d[k] == p[k + 1] && next(d, k) == next(p, k + 1));
        } else if on(a, c, q) {
            lemma_on_side(a, b, c, q);
        }
    }
}

/// A simple ring that runs counterclockwise runs around a point that is not on it once, or not at
/// all.
pub proof fn lemma_once_around(p: Seq<(int, int)>, q: (int, int))
    requires
        left_handed(p),
        off_ring(p, q),
    ensures
        0 <= winding(p, q) <= 1,
    decreases p.len(),
{
    let n = p.len() as int;
    let i = lemma_has_ear(p, 0);
    let s = seen_at(p, i);
    lemma_seen_left_handed(p, i);
    lemma_seen_ear(p, i, 0);
    lemma_turned_winding(p, q, i);
    assert(off_ring(s, q)) by {
        assert forall|k: int| 0 <= k < s.len() implies !on(#[trigger] s[k], next(s, k), q) by {
            lemma_seen_at(p, i, k);
            let m = place(k, i, n);
            assert(!on(p[m], next(p, m), q));
        }
    }
    assert(ear(s, 0));
    assert(prev(s, 0) == s[n - 1] && next(s, 0) == s[1]);
    if inside(s[n - 1], s[0], s[1], q) {
        lemma_in_ear(s, 0, q);
    } else if n == 3 {
        lemma_outside(s[2], s[0], s[1], q);
        assert(next(s, 1) == s[2] && next(s, 2) == s[0]);
        assert(passings(s, q, 0) == 0);
        assert(passings(s, q, 1) == passes(s[0], s[1], q));
        assert(passings(s, q, 2) == passings(s, q, 1) + passes(s[1], s[2], q));
        assert(passings(s, q, 3) == passings(s, q, 2) + passes(s[2], s[0], q));
    } else {
        lemma_cut_around(s, q);
        lemma_cut(s);
        lemma_once_around(s.drop_first(), q);
    }
}

// ---------------------------------------------------------------------------------------------
// Crossings of a ray
// ---------------------------------------------------------------------------------------------
/// Whether the edge from `u` to `v` crosses the ray from `q` to the right, heights compared as
/// numbers: `1` if it does so upwards, `-1` if downwards.
pub open spec fn rises(u: (int, int), v: (int, int), q: (int, int)) -> int {
    if u.1 <= q.1 < v.1 && tri(u, v, q) > 0 {
        1
    } else if v.1 <= q.1 < u.1 && tri(u, v, q) < 0 {
        -1
    } else {
        0
    }
}

/// Whether the point is on the ray from `q` to the right.
spec fn on_ray(q: (int, int), v: (int, int)) -> int {
    if v.1 == q.1 && q.0 < v.0 {
        1
    } else {
        0
    }
}

/// The two ways to count the crossings of an edge differ by where it starts and ends.
proof fn lemma_rises(u: (int, int), v: (int, int), q: (int, int))
    requires
        !on(u, v, q),
    ensures
        passes(u, v, q) - rises(u, v, q) == on_ray(q, v) - on_ray(q, u),
{
    lemma_differences(v.0, u.0, q.1, u.1);
    lemma_differences(v.1, u.1, q.0, u.0);
    assert(tri(u, v, q) == (v.0 - u.0) * (q.1 - u.1) - (v.1 - u.1) * (q.0 - u.0));
    if v.1 == q.1 {
        assert((v.0 - u.0) * (q.1 - u.1) - (v.1 - u.1) * (q.0 - u.0) == (v.1 - u.1) * (v.0 - q.0))
            by (nonlinear_arith)
            requires
                v.1 == q.1,
        ;
        lemma_signs(v.1 - u.1, v.0 - q.0);
    }
    if u.1 == q.1 {
        assert((v.0 - u.0) * (q.1 - u.1) - (v.1 - u.1) * (q.0 - u.0) == (v.1 - u.1) * (u.0 - q.0))
            by (nonlinear_arith)
            requires
                u.1 == q.1,
        ;
        lemma_signs(v.1 - u.1, u.0 - q.0);
    }
}

/// The crossings of the first `k` edges, those downwards taken off.
pub open spec fn risings(p: Seq<(int, int)>, q: (int, int), k: int) -> int
    decreases k,
{
    if k <= 0 {
        0
    } else {
        risings(p, q, k - 1) + rises(p[k - 1], next(p, k - 1), q)
    }
}

/// The two ways to count crossings along a ring.
proof fn lemma_risings(p: Seq<(int, int)>, q: (int, int), k: int)
    requires
        0 <= k <= p.len(),
        p.len() > 0,
        off_ring(p, q),
    ensures
        passings(p, q, k) - risings(p, q, k) == on_ray(
            q,
            if k < p.len() {
                p[k]
            } else {
                p[0]
            },
        ) - on_ray(q, p[0]),
    decreases k,
{
    if k > 0 {
        lemma_risings(p, q, k - 1);
        assert(!on(p[k - 1], next(p, k - 1), q));
        lemma_rises(p[k - 1], next(p, k - 1), q);
    }
}

/// A ring runs around a point that is not on it as often as it crosses the ray to the right.
pub proof fn lemma_winding_by_rises(p: Seq<(int, int)>, q: (int, int))
    requires
        p.len() > 0,
        off_ring(p, q),
    ensures
        winding(p, q) == risings(p, q, p.len() as int),
{
    lemma_risings(p, q, p.len() as int);
}

// ---------------------------------------------------------------------------------------------
// Diagonals
// ---------------------------------------------------------------------------------------------
/// The sum of two points with weights: `s + t` times the point that divides the segment from `u` to
/// `v` as `t` to `s`.
pub open spec fn weigh(u: (int, int), v: (int, int), s: int, t: int) -> (int, int) {
    (s * u.0 + t * v.0, s * u.1 + t * v.1)
}

/// The point `q / k` is inside the ring, and not on it.
pub open spec fn interior(p: Seq<(int, int)>, k: int, q: (int, int)) -> bool {
    off_ring(zoomed(p, k), q) && winding(zoomed(p, k), q) == 1
}

/// All points between the corners at places `i` and `j` are inside the ring.
pub open spec fn inner_diagonal(p: Seq<(int, int)>, i: int, j: int) -> bool {
    forall|s: int, t: int|
        s > 0 && t > 0 ==> interior(p, s + t, #[trigger] weigh(p[i], p[j], s, t))
}

/// No three corners lie on one line.
pub open spec fn no_three_in_line(p: Seq<(int, int)>) -> bool {
    forall|a: int, b: int, c: int|
        0 <= a < p.len() && 0 <= b < p.len() && 0 <= c < p.len() && a != b && b != c && a != c
            ==> #[trigger] tri(p[a], p[b], p[c]) != 0
}

/// The places are those of two corners that are not neighbours.
pub open spec fn not_neighbours(p: Seq<(int, int)>, i: int, j: int) -> bool {
    let n = p.len() as int;
    0 <= i < n && 0 <= j < n && i != j && j != after(i, n) && i != after(j, n)
}

/// The edges without a common end are apart from the segment between two corners.
pub open spec fn in_sight(p: Seq<(int, int)>, i: int, j: int) -> bool {
    let n = p.len() as int;
    forall|m: int|
        0 <= m < n && m != i && m != before(i, n) && m != j && m != before(j, n) ==> apart(
            #[trigger] p[m],
            next(p, m),
            p[i],
            p[j],
        )
}

/// No edge meets the open segment between two corners that see each other.
proof fn lemma_not_met(
    p: Seq<(int, int)>,
    i: int,
    j: int,
    m: int,
    s: int,
    t: int,
    a: int,
    b: int,
)
    requires
        no_three_in_line(p),
        not_neighbours(p, i, j),
        in_sight(p, i, j),
        0 <= m < p.len(),
        a > 0,
        b > 0,
    ensures
        !meets_at(p[m], next(p, m), p[i], p[j], s, t, a, b),
{
    let n = p.len() as int;
    let (u, v) = (p[m], next(p, m));
    if meets_at(u, v, p[i], p[j], s, t, a, b) {
        lemma_met_sides(u, v, p[i], p[j], s, t, a, b);
        let w = after(m, n);
        assert(v == p[w]);
        lemma_tri(u, v, u);
        lemma_tri(u, v, v);
        if m == i || w == i {
            assert(m != j && w != j);
            assert(tri(p[m], p[w], p[j]) != 0);
        } else if m == j || w == j {
            assert(tri(p[m], p[w], p[i]) != 0);
        } else {
            assert(m != before(i, n) && m != before(j, n));
            lemma_apart_means(u, v, p[i], p[j]);
        }
    }
}

/// A product with a sum.
proof fn lemma_spread_out(k: int, a: int, x: int, b: int, y: int)
    ensures
        k * (a * x + b * y) == (k * a) * x + (k * b) * y,
{
    assert(k * (a * x + b * y) == (k * a) * x + (k * b) * y) by (nonlinear_arith);
}

/// A magnified number, weighted.
proof fn lemma_weighted_zoom(s: int, k: int, x: int)
    ensures
        s * (k * x) == (s * k) * x,
{
    assert(s * (k * x) == (s * k) * x) by (nonlinear_arith);
}

/// A segment between two points, one of which may be a corner, and an edge, both magnified.
proof fn lemma_magnified_meeting(
    u: (int, int),
    v: (int, int),
    x: (int, int),
    y: (int, int),
    k: int,
    c: (int, int),
    d: (int, int),
    s: int,
    t: int,
    a: int,
    b: int,
)
    requires
        k > 0,
        c.0 >= 0 && c.1 >= 0 && c.0 + c.1 == k,
        d.0 >= 0 && d.1 >= 0 && d.0 + d.1 == k,
        meets_at(
            zoom(u, k),
            zoom(v, k),
            weigh(x, y, c.0, c.1),
            weigh(x, y, d.0, d.1),
            s,
            t,
            a,
            b,
        ),
    ensures
        meets_at(u, v, x, y, s * k, t * k, a * c.0 + b * d.0, a * c.1 + b * d.1),
{
    lemma_weighted_zoom(s, k, u.0);
    lemma_weighted_zoom(s, k, u.1);
    lemma_weighted_zoom(t, k, v.0);
    lemma_weighted_zoom(t, k, v.1);
    lemma_regrouped(a, b, c, d, x.0, y.0);
    lemma_regrouped(a, b, c, d, x.1, y.1);
    let (l, m, n, o) = (a * c.0, b * d.0, a * c.1, b * d.1);
    assert(s * k + t * k == (s + t) * k) by (nonlinear_arith);
    assert(l + n == a * k) by (nonlinear_arith)
        requires
            l == a * c.0,
            n == a * c.1,
            c.0 + c.1 == k,
    ;
    assert(m + o == b * k) by (nonlinear_arith)
        requires
            m == b * d.0,
            o == b * d.1,
            d.0 + d.1 == k,
    ;
    assert((a + b) * k == a * k + b * k) by (nonlinear_arith);
    assert(s * k >= 0 && t * k >= 0 && (s + t) * k > 0) by (nonlinear_arith)
        requires
            s >= 0,
            t >= 0,
            s + t > 0,
            k > 0,
    ;
    assert(l >= 0 && m >= 0 && n >= 0 && o >= 0) by (nonlinear_arith)
        requires
            l == a * c.0,
            m == b * d.0,
            n == a * c.1,
            o == b * d.1,
            a >= 0,
            b >= 0,
            c.0 >= 0,
            c.1 >= 0,
            d.0 >= 0,
            d.1 >= 0,
    ;
}

/// A sum of weighted sums.
proof fn lemma_regrouped(a: int, b: int, c: (int, int), d: (int, int), x: int, y: int)
    ensures
        a * (c.0 * x + c.1 * y) + b * (d.0 * x + d.1 * y) == (a * c.0 + b * d.0) * x + (a * c.1 + b
            * d.1) * y,
{
    lemma_spread_out(a, c.0, x, c.1, y);
    lemma_spread_out(b, d.0, x, d.1, y);
    let (l, m, n, o) = (a * c.0, b * d.0, a * c.1, b * d.1);
    assert((l + m) * x == l * x + m * x && (n + o) * y == n * y + o * y) by (nonlinear_arith);
}

/// Magnified edges are apart from a segment between points of a diagonal, of which the first may be
/// its start where that is no end of the edge.
pub(crate) proof fn lemma_edge_away(
    p: Seq<(int, int)>,
    i: int,
    j: int,
    m: int,
    k: int,
    c: (int, int),
    d: (int, int),
)
    requires
        simple(p),
        no_three_in_line(p),
        not_neighbours(p, i, j),
        in_sight(p, i, j),
        0 <= m < p.len(),
        k > 0,
        c.0 > 0 && c.1 >= 0 && c.0 + c.1 == k,
        d.0 > 0 && d.1 > 0 && d.0 + d.1 == k,
        c.1 == 0 ==> m != i && after(m, p.len() as int) != i,
    ensures
        apart(
            zoomed(p, k)[m],
            next(zoomed(p, k), m),
            weigh(p[i], p[j], c.0, c.1),
            weigh(p[i], p[j], d.0, d.1),
        ),
{
    let n = p.len() as int;
    let (u, v, x, y) = (p[m], next(p, m), p[i], p[j]);
    let (g, h) = (weigh(x, y, c.0, c.1), weigh(x, y, d.0, d.1));
    lemma_zoomed_at(p, k, m);
    lemma_apart_means(zoom(u, k), zoom(v, k), g, h);
    assert forall|s: int, t: int, a: int, b: int| !#[trigger] meets_at(
        zoom(u, k),
        zoom(v, k),
        g,
        h,
        s,
        t,
        a,
        b,
    ) by {
        if meets_at(zoom(u, k), zoom(v, k), g, h, s, t, a, b) {
            lemma_magnified_meeting(u, v, x, y, k, c, d, s, t, a, b);
            let (l, o) = (a * c.0 + b * d.0, a * c.1 + b * d.1);
            lemma_signs(a, c.0);
            lemma_signs(b, d.0);
            lemma_signs(a, c.1);
            lemma_signs(b, d.1);
            if o > 0 {
                lemma_not_met(p, i, j, m, s * k, t * k, l, o);
            } else {
                assert(b == 0 && c.1 == 0);
                assert(o == 0);
                assert(0 * y.0 == 0 && 0 * y.1 == 0 && 0 * x.0 == 0 && 0 * x.1 == 0);
                assert(meets_at(u, v, x, x, s * k, t * k, l, 0));
                lemma_point_met(u, v, x, s * k, t * k);
                assert(off_edge(p, m, i));
            }
        }
    }
}

/// A point that divides a segment is on it.
proof fn lemma_point_met(u: (int, int), v: (int, int), x: (int, int), s: int, t: int)
    requires
        meets_at(u, v, x, x, s, t, s + t, 0),
    ensures
        on(u, v, x),
{
    lemma_apart_means(u, v, x, x);
    assert(share_point(u, v, x, x));
    lemma_tri(x, x, u);
    lemma_tri(x, x, v);
    lemma_tri(u, v, u);
    lemma_tri(u, v, v);
}

/// A point of the open segment between two corners that see each other is on no edge.
pub(crate) proof fn lemma_off_edges(p: Seq<(int, int)>, i: int, j: int, s: int, t: int)
    requires
        simple(p),
        no_three_in_line(p),
        not_neighbours(p, i, j),
        in_sight(p, i, j),
        s > 0,
        t > 0,
    ensures
        off_ring(zoomed(p, s + t), weigh(p[i], p[j], s, t)),
{
    let z = zoomed(p, s + t);
    let q = weigh(p[i], p[j], s, t);
    assert forall|m: int| 0 <= m < z.len() implies !on(#[trigger] z[m], next(z, m), q) by {
        lemma_edge_away(p, i, j, m, s + t, (s, t), (s, t));
    }
}

/// A ring magnified twice.
proof fn lemma_zoomed_twice(p: Seq<(int, int)>, k: int, l: int)
    ensures
        zoomed(zoomed(p, k), l) == zoomed(p, l * k),
{
    assert forall|m: int| 0 <= m < p.len() implies zoom(zoom(#[trigger] p[m], k), l) == zoom(
        p[m],
        l * k,
    ) by {
        lemma_weighted_zoom(l, k, p[m].0);
        lemma_weighted_zoom(l, k, p[m].1);
    }
    assert(zoomed(zoomed(p, k), l) =~= zoomed(p, l * k));
}

/// A weighted sum, magnified.
proof fn lemma_zoom_weigh(u: (int, int), v: (int, int), s: int, t: int, k: int)
    ensures
        zoom(weigh(u, v, s, t), k) == weigh(u, v, k * s, k * t),
{
    lemma_spread_out(k, s, u.0, t, v.0);
    lemma_spread_out(k, s, u.1, t, v.1);
}

/// The ring runs alike around all points between two corners that see each other.
proof fn lemma_same_around(p: Seq<(int, int)>, i: int, j: int, s: int, t: int)
    requires
        simple(p),
        no_three_in_line(p),
        not_neighbours(p, i, j),
        in_sight(p, i, j),
        s > 0,
        t > 0,
    ensures
        winding(zoomed(p, s + t), weigh(p[i], p[j], s, t)) == winding(
            zoomed(p, 2),
            weigh(p[i], p[j], 1, 1),
        ),
{
    let k = s + t;
    let (g, h) = (weigh(p[i], p[j], s, t), weigh(p[i], p[j], 1, 1));
    lemma_zoom_winding(zoomed(p, k), 2, g);
    lemma_zoom_winding(zoomed(p, 2), k, h);
    lemma_zoomed_twice(p, k, 2);
    lemma_zoomed_twice(p, 2, k);
    lemma_zoom_weigh(p[i], p[j], s, t, 2);
    lemma_zoom_weigh(p[i], p[j], 1, 1, k);
    let z = zoomed(p, 2 * k);
    assert(k * 2 == 2 * k && k * 1 == k);
    assert forall|m: int| 0 <= m < z.len() implies apart(
        #[trigger] z[m],
        next(z, m),
        zoom(g, 2),
        zoom(h, k),
    ) by {
        lemma_edge_away(p, i, j, m, 2 * k, (2 * s, 2 * t), (k, k));
    }
    lemma_along(z, zoom(g, 2), zoom(h, k));
}

/// The points between two corners that see each other are inside the ring if the one in the middle
/// is.
pub proof fn lemma_inner_by_middle(p: Seq<(int, int)>, i: int, j: int)
    requires
        simple(p),
        no_three_in_line(p),
        not_neighbours(p, i, j),
        in_sight(p, i, j),
        winding(zoomed(p, 2), weigh(p[i], p[j], 1, 1)) == 1,
    ensures
        inner_diagonal(p, i, j),
{
    assert forall|s: int, t: int| s > 0 && t > 0 implies interior(
        p,
        s + t,
        #[trigger] weigh(p[i], p[j], s, t),
    ) by {
        lemma_off_edges(p, i, j, s, t);
        lemma_same_around(p, i, j, s, t);
    }
}

/// A sum of two points with weights is on the magnified segment between them.
pub(crate) proof fn lemma_weigh_on(u: (int, int), v: (int, int), s: int, t: int)
    requires
        s >= 0,
        t >= 0,
        s + t > 0,
    ensures
        on(zoom(u, s + t), zoom(v, s + t), weigh(u, v, s, t)),
{
    let k = s + t;
    let x = weigh(u, v, s, t);
    lemma_weighted_zoom(s, k, u.0);
    lemma_weighted_zoom(s, k, u.1);
    lemma_weighted_zoom(t, k, v.0);
    lemma_weighted_zoom(t, k, v.1);
    lemma_spread_out(k, s, u.0, t, v.0);
    lemma_spread_out(k, s, u.1, t, v.1);
    assert(k * s == s * k && k * t == t * k) by (nonlinear_arith);
    assert(0 * x.0 == 0 && 0 * x.1 == 0);
    assert(meets_at(zoom(u, k), zoom(v, k), x, x, s, t, k, 0));
    lemma_point_met(zoom(u, k), zoom(v, k), x, s, t);
}

/// Two corners see each other if all points between them are inside the ring.
pub proof fn lemma_inner_in_sight(p: Seq<(int, int)>, i: int, j: int)
    requires
        simple(p),
        not_neighbours(p, i, j),
        inner_diagonal(p, i, j),
    ensures
        in_sight(p, i, j),
{
    let n = p.len() as int;
    assert forall|m: int|
        0 <= m < n && m != i && m != before(i, n) && m != j && m != before(j, n) implies apart(
        #[trigger] p[m],
        next(p, m),
        p[i],
        p[j],
    ) by {
        let (u, v, x, y) = (p[m], next(p, m), p[i], p[j]);
        lemma_apart_means(u, v, x, y);
        if share_point(u, v, x, y) {
            let (s, t, a, b) = choose|s: int, t: int, a: int, b: int| #[trigger] meets_at(
                u,
                v,
                x,
                y,
                s,
                t,
                a,
                b,
            );
            assert(0 * x.0 == 0 && 0 * x.1 == 0 && 0 * y.0 == 0 && 0 * y.1 == 0);
            if a == 0 {
                assert(meets_at(u, v, y, y, s, t, s + t, 0));
                lemma_point_met(u, v, y, s, t);
                assert(off_edge(p, m, j));
            } else if b == 0 {
                assert(meets_at(u, v, x, x, s, t, s + t, 0));
                lemma_point_met(u, v, x, s, t);
                assert(off_edge(p, m, i));
            } else {
                let q = weigh(x, y, a, b);
                assert(interior(p, a + b, q));
                lemma_weigh_on(u, v, s, t);
                assert(weigh(u, v, s, t) == q);
                lemma_zoomed_at(p, a + b, m);
                assert(!on(zoomed(p, a + b)[m], next(zoomed(p, a + b), m), q));
            }
        }
    }
}

// ---------------------------------------------------------------------------------------------
// Angles
// ---------------------------------------------------------------------------------------------
/// The winding to the left of a simple ring is one if it runs counterclockwise, and zero if not.
pub(crate) proof fn lemma_left_of(p: Seq<(int, int)>, i: int)
    requires
        simple(p),
        0 <= i < p.len(),
    ensures
        winding_left(p, i) == (if left_handed(p) {
            1int
        } else {
            0
        }),
{
    let m = lemma_has_lowest(p, p.len() as int);
    assert(lowest(p, m));
    lemma_lowest_turn(p, m);
    lemma_left_along(p, i);
}

/// Near a corner at which the ring turns right, no point between its edges on the right is inside.
pub(crate) proof fn lemma_off_reflex(p: Seq<(int, int)>, i: int, d: (int, int))
    requires
        left_handed(p),
        0 <= i < p.len(),
        tri(prev(p, i), p[i], next(p, i)) < 0,
        tri(p[i], d, prev(p, i)) < 0,
        tri(p[i], next(p, i), d) < 0,
    ensures
        near(p, i, d) == 0,
{
    let n = p.len() as int;
    let b = p.reverse();
    let k = n - 1 - i;
    lemma_reversed_at(p, k);
    lemma_reversed_simple(p);
    lemma_either_way(p);
    lemma_left_of(b, k);
    let (v, x, y) = (p[i], prev(p, i), next(p, i));
    assert(b[k] == v && next(b, k) == x && prev(b, k) == y);
    lemma_tri(x, v, y);
    lemma_tri(v, d, x);
    lemma_tri(v, y, d);
    lemma_in_angle(b, k, d);
    lemma_reversed_winding(p, v);
    assert(near(b, k, d) == winding(b, v) + wedge(v, d, x) - wedge(v, d, y));
}

/// Halving a direction.
pub(crate) proof fn lemma_half_tri(u: (int, int), v: (int, int), w: (int, int))
    ensures
        tri(zoom(u, 2), zoom(w, 2), weigh(u, v, 1, 1)) == 2 * tri(u, w, v),
        tri(zoom(u, 2), weigh(u, v, 1, 1), zoom(w, 2)) == 2 * tri(u, v, w),
{
    let (a, b, m) = (zoom(u, 2), zoom(w, 2), weigh(u, v, 1, 1));
    lemma_differences(b.0, a.0, m.1, a.1);
    lemma_differences(b.1, a.1, m.0, a.0);
    lemma_differences(w.0, u.0, v.1, u.1);
    lemma_differences(w.1, u.1, v.0, u.0);
    let (x, y) = ((w.0 - u.0) * (v.1 - u.1), (w.1 - u.1) * (v.0 - u.0));
    assert((b.0 - a.0) * (m.1 - a.1) == 2 * x) by (nonlinear_arith)
        requires
            b.0 - a.0 == 2 * (w.0 - u.0),
            m.1 - a.1 == v.1 - u.1,
            x == (w.0 - u.0) * (v.1 - u.1),
    ;
    assert((b.1 - a.1) * (m.0 - a.0) == 2 * y) by (nonlinear_arith)
        requires
            b.1 - a.1 == 2 * (w.1 - u.1),
            m.0 - a.0 == v.0 - u.0,
            y == (w.1 - u.1) * (v.0 - u.0),
    ;
    lemma_tri(a, b, m);
    lemma_tri(u, w, v);
}

/// Seen from the corner at place `i`, the point lies in the angle of the ring.
pub open spec fn in_angle(p: Seq<(int, int)>, i: int, d: (int, int)) -> bool {
    let (v, a, w) = (prev(p, i), p[i], next(p, i));
    if tri(v, a, w) > 0 {
        tri(a, w, d) >= 0 && tri(a, d, v) >= 0
    } else {
        tri(a, d, v) > 0 || tri(a, w, d) > 0
    }
}

/// Seen from one of two corners, the other lies in the angle of the ring if all points between them
/// are inside.
pub proof fn lemma_inner_in_angle(p: Seq<(int, int)>, i: int, j: int)
    requires
        left_handed(p),
        no_three_in_line(p),
        not_neighbours(p, i, j),
        inner_diagonal(p, i, j),
    ensures
        in_angle(p, i, p[j]),
{
    let n = p.len() as int;
    let z = zoomed(p, 2);
    let q = weigh(p[i], p[j], 1, 1);
    lemma_inner_in_sight(p, i, j);
    lemma_zoomed_at(p, 2, i);
    lemma_zoom_left_handed(p, 2);
    assert(interior(p, 2, q));
    assert(q != z[i]) by {
        lemma_corners_differ(p, i, j);
    }
    assert(weigh(p[i], p[j], 2, 0) == z[i]);
    assert forall|k: int| 0 <= k < z.len() && k != i && k != before(i, z.len() as int) implies apart(
        #[trigger] z[k],
        next(z, k),
        z[i],
        q,
    ) by {
        lemma_edge_away(p, i, j, k, 2, (2, 0), (1, 1));
    }
    lemma_seen(z, i, q);
    lemma_left_of(z, i);
    let (v, a, w, d) = (prev(p, i), p[i], next(p, i), p[j]);
    lemma_half_tri(a, d, w);
    lemma_half_tri(a, d, v);
    lemma_zoom_tri(2, v, a, w);
    assert(tri(v, a, w) != 0) by {
        let (e, f) = (before(i, n), after(i, n));
        assert(tri(p[e], p[i], p[f]) != 0);
    }
    if tri(v, a, w) > 0 {
        if tri(a, w, d) < 0 || tri(a, d, v) < 0 {
            lemma_off_angle(z, i, q);
        }
    } else {
        if tri(a, d, v) <= 0 && tri(a, w, d) <= 0 {
            let (e, f) = (before(i, n), after(i, n));
            assert(tri(p[i], p[j], p[e]) != 0 && tri(p[i], p[f], p[j]) != 0);
            lemma_off_reflex(z, i, q);
        }
    }
}

/// The points between two corners are the same, seen from either of them.
pub proof fn lemma_inner_swapped(p: Seq<(int, int)>, i: int, j: int)
    ensures
        inner_diagonal(p, i, j) == inner_diagonal(p, j, i),
{
    if inner_diagonal(p, i, j) {
        lemma_inner_back(p, i, j);
    }
    if inner_diagonal(p, j, i) {
        lemma_inner_back(p, j, i);
    }
}

/// The points between two corners, seen from the other.
proof fn lemma_inner_back(p: Seq<(int, int)>, i: int, j: int)
    requires
        inner_diagonal(p, i, j),
    ensures
        inner_diagonal(p, j, i),
{
    assert forall|s: int, t: int| s > 0 && t > 0 implies interior(
        p,
        s + t,
        #[trigger] weigh(p[j], p[i], s, t),
    ) by {
        assert(interior(p, t + s, weigh(p[i], p[j], t, s)));
        assert(weigh(p[i], p[j], t, s) == weigh(p[j], p[i], s, t));
    }
}

/// The points between two corners are inside the ring wherever it is seen from.
pub(crate) proof fn lemma_inner_seen(p: Seq<(int, int)>, m: int, i: int, j: int)
    requires
        p.len() >= 2,
        0 <= m < p.len(),
        0 <= i < p.len(),
        0 <= j < p.len(),
    ensures
        inner_diagonal(seen_at(p, m), i, j) == inner_diagonal(
            p,
            place(i, m, p.len() as int),
            place(j, m, p.len() as int),
        ),
{
    let n = p.len() as int;
    let b = seen_at(p, m);
    lemma_seen_at(p, m, i);
    lemma_seen_at(p, m, j);
    assert forall|k: int, q: (int, int)| #[trigger] interior(b, k, q) == interior(p, k, q) by {
        let z = zoomed(p, k);
        lemma_zoom_seen(p, k, m);
        lemma_turned_winding(z, q, m);
        lemma_off_seen(z, m, q);
    }
    if inner_diagonal(p, place(i, m, n), place(j, m, n)) {
        assert forall|s: int, t: int| s > 0 && t > 0 implies interior(
            b,
            s + t,
            #[trigger] weigh(b[i], b[j], s, t),
        ) by {
            assert(interior(p, s + t, weigh(p[place(i, m, n)], p[place(j, m, n)], s, t)));
        }
    }
    if inner_diagonal(b, i, j) {
        assert forall|s: int, t: int| s > 0 && t > 0 implies interior(
            p,
            s + t,
            #[trigger] weigh(p[place(i, m, n)], p[place(j, m, n)], s, t),
        ) by {
            assert(interior(b, s + t, weigh(b[i], b[j], s, t)));
        }
    }
}

/// A point is on a ring wherever that is seen from.
pub(crate) proof fn lemma_off_seen(p: Seq<(int, int)>, m: int, q: (int, int))
    requires
        0 <= m < p.len(),
    ensures
        off_ring(seen_at(p, m), q) == off_ring(p, q),
{
    let n = p.len() as int;
    let b = seen_at(p, m);
    if off_ring(p, q) {
        assert forall|k: int| 0 <= k < b.len() implies !on(#[trigger] b[k], next(b, k), q) by {
            lemma_seen_at(p, m, k);
            let i = place(k, m, n);
            assert(!on(p[i], next(p, i), q));
        }
    }
    if off_ring(b, q) {
        assert forall|i: int| 0 <= i < p.len() implies !on(#[trigger] p[i], next(p, i), q) by {
            let k = if i >= m {
                i - m
            } else {
                i - m + n
            };
            lemma_seen_at(p, m, k);
            assert(place(k, m, n) == i);
            assert(!on(b[k], next(b, k), q));
        }
    }
}

} // verus!
