//! Points and rings seen through a magnifying glass, so that points between integer points are
//! integer points too.
use vstd::prelude::*;
use crate::areas::tri;
use crate::model::{after, before};
use crate::segments::{crossing, lemma_signs, on, under};
use crate::simple::{left_handed, off_edge, seen_at, simple, uncrossing};
use crate::winding::{near, next, passes, passings, prev, wedge, winding, winding_left};

verus! {

/// The point, magnified `k` times.
pub open spec fn zoom(p: (int, int), k: int) -> (int, int) {
    (k * p.0, k * p.1)
}

/// The ring, magnified `k` times.
pub open spec fn zoomed(p: Seq<(int, int)>, k: int) -> Seq<(int, int)> {
    Seq::new(p.len(), |i: int| zoom(p[i], k))
}

/// A product of magnified numbers.
proof fn lemma_zoom_product(k: int, a: int, b: int)
    ensures
        (k * a) * (k * b) == (k * k) * (a * b),
{
    assert((k * a) * (k * b) == (k * k) * (a * b)) by (nonlinear_arith);
}

/// Magnified triangles have magnified areas of the same sign.
pub(crate) proof fn lemma_zoom_tri(k: int, a: (int, int), b: (int, int), c: (int, int))
    requires
        k > 0,
    ensures
        tri(zoom(a, k), zoom(b, k), zoom(c, k)) == (k * k) * tri(a, b, c),
        tri(zoom(a, k), zoom(b, k), zoom(c, k)) > 0 <==> tri(a, b, c) > 0,
        tri(zoom(a, k), zoom(b, k), zoom(c, k)) < 0 <==> tri(a, b, c) < 0,
        k * k > 0,
{
    lemma_zoom_product(k, a.0, b.1);
    lemma_zoom_product(k, b.0, a.1);
    lemma_zoom_product(k, b.0, c.1);
    lemma_zoom_product(k, c.0, b.1);
    lemma_zoom_product(k, c.0, a.1);
    lemma_zoom_product(k, a.0, c.1);
    let m = k * k;
    lemma_signs(k, k);
    lemma_signs(m, tri(a, b, c));
    let (x, y, z) = (a.0 * b.1 - b.0 * a.1, b.0 * c.1 - c.0 * b.1, c.0 * a.1 - a.0 * c.1);
    assert(m * (x + y + z) == m * x + m * y + m * z) by (nonlinear_arith);
    assert(m * (a.0 * b.1 - b.0 * a.1) == m * (a.0 * b.1) - m * (b.0 * a.1)) by (nonlinear_arith);
    assert(m * (b.0 * c.1 - c.0 * b.1) == m * (b.0 * c.1) - m * (c.0 * b.1)) by (nonlinear_arith);
    assert(m * (c.0 * a.1 - a.0 * c.1) == m * (c.0 * a.1) - m * (a.0 * c.1)) by (nonlinear_arith);
}

/// Magnified points lie below each other as the points do.
pub(crate) proof fn lemma_zoom_under(k: int, p: (int, int), q: (int, int))
    requires
        k > 0,
    ensures
        under(zoom(p, k), zoom(q, k)) <==> under(p, q),
        zoom(p, k) == zoom(q, k) <==> p == q,
{
    lemma_zoom_order(k, p.0, q.0);
    lemma_zoom_order(k, p.1, q.1);
}

/// Magnified numbers are in order as the numbers are.
pub(crate) proof fn lemma_zoom_order(k: int, a: int, b: int)
    requires
        k > 0,
    ensures
        k * a < k * b <==> a < b,
        k * a == k * b <==> a == b,
{
    assert(a < b ==> k * a < k * b) by (nonlinear_arith)
        requires
            k > 0,
    ;
    assert(b < a ==> k * b < k * a) by (nonlinear_arith)
        requires
            k > 0,
    ;
}

/// Magnified segments hold the magnified points that they held.
pub(crate) proof fn lemma_zoom_on(k: int, u: (int, int), v: (int, int), p: (int, int))
    requires
        k > 0,
    ensures
        on(zoom(u, k), zoom(v, k), zoom(p, k)) <==> on(u, v, p),
{
    lemma_zoom_tri(k, u, v, p);
    lemma_zoom_under(k, p, u);
    lemma_zoom_under(k, p, v);
    lemma_zoom_under(k, u, p);
    lemma_zoom_under(k, v, p);
}

/// Magnified segments cross as the segments do.
pub(crate) proof fn lemma_zoom_crossing(
    k: int,
    u: (int, int),
    v: (int, int),
    q: (int, int),
    w: (int, int),
)
    requires
        k > 0,
    ensures
        crossing(zoom(u, k), zoom(v, k), zoom(q, k), zoom(w, k)) <==> crossing(u, v, q, w),
{
    lemma_zoom_tri(k, u, v, q);
    lemma_zoom_tri(k, u, v, w);
    lemma_zoom_tri(k, q, w, u);
    lemma_zoom_tri(k, q, w, v);
}

/// Magnified edges pass the ray from a magnified point as the edges do.
proof fn lemma_zoom_passes(k: int, u: (int, int), v: (int, int), q: (int, int))
    requires
        k > 0,
    ensures
        passes(zoom(u, k), zoom(v, k), zoom(q, k)) == passes(u, v, q),
{
    lemma_zoom_tri(k, u, v, q);
    lemma_zoom_under(k, q, u);
    lemma_zoom_under(k, q, v);
}

/// Corners and edges of a magnified ring.
pub(crate) proof fn lemma_zoomed_at(p: Seq<(int, int)>, k: int, i: int)
    requires
        0 <= i < p.len(),
    ensures
        zoomed(p, k).len() == p.len(),
        zoomed(p, k)[i] == zoom(p[i], k),
        next(zoomed(p, k), i) == zoom(next(p, i), k),
        prev(zoomed(p, k), i) == zoom(prev(p, i), k),
        0 <= after(i, p.len() as int) < p.len(),
        0 <= before(i, p.len() as int) < p.len(),
{
}

/// The passings of a magnified ring.
proof fn lemma_zoom_passings(p: Seq<(int, int)>, k: int, q: (int, int), n: int)
    requires
        k > 0,
        0 <= n <= p.len(),
    ensures
        passings(zoomed(p, k), zoom(q, k), n) == passings(p, q, n),
    decreases n,
{
    if n > 0 {
        lemma_zoom_passings(p, k, q, n - 1);
        lemma_zoomed_at(p, k, n - 1);
        lemma_zoom_passes(k, p[n - 1], next(p, n - 1), q);
    }
}

/// A magnified ring runs around a magnified point as the ring does.
pub(crate) proof fn lemma_zoom_winding(p: Seq<(int, int)>, k: int, q: (int, int))
    requires
        k > 0,
    ensures
        winding(zoomed(p, k), zoom(q, k)) == winding(p, q),
{
    lemma_zoom_passings(p, k, q, p.len() as int);
}

/// A wedge, magnified.
proof fn lemma_zoom_wedge(k: int, v: (int, int), d: (int, int), r: (int, int))
    requires
        k > 0,
    ensures
        wedge(zoom(v, k), zoom(d, k), zoom(r, k)) == wedge(v, d, r),
{
    lemma_zoom_tri(k, v, d, r);
    lemma_zoom_under(k, v, d);
    lemma_zoom_under(k, v, r);
    lemma_zoom_under(k, r, v);
}

/// The winding near a corner of a magnified ring.
pub(crate) proof fn lemma_zoom_near(p: Seq<(int, int)>, k: int, i: int, d: (int, int))
    requires
        k > 0,
        0 <= i < p.len(),
    ensures
        near(zoomed(p, k), i, zoom(d, k)) == near(p, i, d),
{
    lemma_zoomed_at(p, k, i);
    lemma_zoom_winding(p, k, p[i]);
    lemma_zoom_wedge(k, p[i], d, next(p, i));
    lemma_zoom_wedge(k, p[i], d, prev(p, i));
}

/// A magnified ring is simple if the ring is, and runs counterclockwise if the ring does.
pub(crate) proof fn lemma_zoom_left_handed(p: Seq<(int, int)>, k: int)
    requires
        k > 0,
        simple(p),
    ensures
        simple(zoomed(p, k)),
        left_handed(zoomed(p, k)) <==> left_handed(p),
{
    let z = zoomed(p, k);
    assert forall|i: int, j: int|
        0 <= i < z.len() && 0 <= j < z.len() && j != i && j != after(
            i,
            z.len() as int,
        ) implies #[trigger] off_edge(z, i, j) by {
        assert(off_edge(p, i, j));
        lemma_zoomed_at(p, k, i);
        lemma_zoomed_at(p, k, j);
        lemma_zoom_on(k, p[i], next(p, i), p[j]);
    }
    assert forall|i: int, j: int|
        0 <= i < z.len() && 0 <= j < z.len() && i != j && j != after(i, z.len() as int) && i
            != after(j, z.len() as int) implies #[trigger] uncrossing(z, i, j) by {
        assert(uncrossing(p, i, j));
        lemma_zoomed_at(p, k, i);
        lemma_zoomed_at(p, k, j);
        lemma_zoom_crossing(k, p[i], next(p, i), p[j], next(p, j));
    }
    lemma_zoomed_at(p, k, 0);
    lemma_zoom_near(p, k, 0, next(p, 0));
    lemma_zoom_under(k, p[0], next(p, 0));
    assert(winding_left(z, 0) == winding_left(p, 0));
}

/// A magnified ring seen from another corner, and run backwards.
pub(crate) proof fn lemma_zoom_seen(p: Seq<(int, int)>, k: int, m: int)
    requires
        0 <= m < p.len(),
    ensures
        zoomed(seen_at(p, m), k) == seen_at(zoomed(p, k), m),
        zoomed(p.reverse(), k) == zoomed(p, k).reverse(),
{
    assert(zoomed(seen_at(p, m), k) =~= seen_at(zoomed(p, k), m));
    assert(zoomed(p.reverse(), k) =~= zoomed(p, k).reverse());
}

} // verus!
