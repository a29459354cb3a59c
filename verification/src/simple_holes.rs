//! Simple holes that are read run clockwise from their leftmost corner.
use vstd::prelude::*;
use crate::areas::{by_area, lemma_by_area, spot};
use crate::bounds::{lemma_leftmost, total_len};
use crate::connecting::lemma_drawn_moderate;
use crate::diagonals::off_ring;
use crate::exact::Exact;
use crate::exact_areas::{integer, integral, lemma_loop, lemma_vertex_coordinates, lemma_whole};
use crate::exact_simple::{lemma_area_sign, vertex_ring};
use crate::fresh_index::{lemma_order, moderate_node, moderate_table};
use crate::geometry::{signed_area_spec, zero};
use crate::hole_model::{from_leftmost, hole_end, leftmost, listed, queued, wound};
use crate::holes_given::{hole_ring, holes_filled};
use crate::model::{after, before, coincide, Pt};
use crate::polygon_areas::{corners, drawn, loop_area};
use crate::rings::{is_ring, lemma_listed_ring, lemma_queued_rings};
use crate::scalar::Scalar;
use crate::segments::{crossing, lemma_tri, on};
use crate::simple::{
    left_handed, lemma_either_way, lemma_reversed_at, lemma_reversed_simple, lemma_seen_at,
    lemma_seen_left_handed, lemma_seen_simple, place, seen_at, simple,
};
use crate::simple_polygons::spots;
use crate::triangulation::is_flat;
use crate::weak_cuts::uncrossed_by;
use crate::weak_joins::{from_left, uncrossing_rings};
use crate::winding::next;

verus! {

// ---------------------------------------------------------------------------------------------
// Rings that run along the edges of others
// ---------------------------------------------------------------------------------------------
/// The segment from `a` to `b` is the edge at place `i`, run either way.
pub(crate) open spec fn edge_at(
    v: Seq<(int, int)>,
    i: int,
    a: (int, int),
    b: (int, int),
) -> bool {
    (a == v[i] && b == next(v, i)) || (b == v[i] && a == next(v, i))
}

/// The segment from `a` to `b` is an edge, run either way.
pub(crate) open spec fn edge_of(v: Seq<(int, int)>, a: (int, int), b: (int, int)) -> bool {
    exists|i: int| 0 <= i < v.len() && #[trigger] edge_at(v, i, a, b)
}

/// All edges of the first ring are edges of the second.
pub(crate) open spec fn runs_along(p: Seq<(int, int)>, v: Seq<(int, int)>) -> bool {
    forall|k: int| 0 <= k < p.len() ==> #[trigger] edge_of(v, p[k], next(p, k))
}

/// The corners of a ring are corners of the ring that it runs along.
pub(crate) proof fn lemma_corner_along(p: Seq<(int, int)>, v: Seq<(int, int)>, k: int) -> (i: int)
    requires
        runs_along(p, v),
        0 <= k < p.len(),
    ensures
        0 <= i < v.len(),
        v[i] == p[k],
{
    assert(edge_of(v, p[k], next(p, k)));
    let i = choose|i: int| 0 <= i < v.len() && #[trigger] edge_at(v, i, p[k], next(p, k));
    if v[i] == p[k] {
        i
    } else {
        after(i, v.len() as int)
    }
}

/// A ring that runs along one that runs along a third.
pub(crate) proof fn lemma_along_through(
    p: Seq<(int, int)>,
    u: Seq<(int, int)>,
    v: Seq<(int, int)>,
)
    requires
        runs_along(p, u),
        runs_along(u, v),
    ensures
        runs_along(p, v),
{
    assert forall|k: int| 0 <= k < p.len() implies #[trigger] edge_of(v, p[k], next(p, k)) by {
        assert(edge_of(u, p[k], next(p, k)));
        let i = choose|i: int| 0 <= i < u.len() && #[trigger] edge_at(u, i, p[k], next(p, k));
        assert(edge_of(v, u[i], next(u, i)));
        let j = choose|j: int| 0 <= j < v.len() && #[trigger] edge_at(v, j, u[i], next(u, i));
        assert(edge_at(v, j, p[k], next(p, k)));
    }
}

/// A ring seen from another corner.
pub(crate) proof fn lemma_along_seen(p: Seq<(int, int)>, m: int)
    requires
        0 <= m < p.len(),
    ensures
        runs_along(seen_at(p, m), p),
{
    let s = seen_at(p, m);
    assert forall|k: int| 0 <= k < s.len() implies #[trigger] edge_of(p, s[k], next(s, k)) by {
        lemma_seen_at(p, m, k);
        assert(edge_at(p, place(k, m, p.len() as int), s[k], next(s, k)));
    }
}

/// A ring run backwards.
pub(crate) proof fn lemma_along_reversed(p: Seq<(int, int)>)
    ensures
        runs_along(p.reverse(), p),
        runs_along(p, p),
{
    let n = p.len() as int;
    let s = p.reverse();
    assert forall|k: int| 0 <= k < s.len() implies #[trigger] edge_of(p, s[k], next(s, k)) by {
        lemma_reversed_at(p, k);
        assert(edge_at(p, before(n - 1 - k, n), s[k], next(s, k)));
    }
    assert forall|k: int| 0 <= k < n implies #[trigger] edge_of(p, p[k], next(p, k)) by {
        assert(edge_at(p, k, p[k], next(p, k)));
    }
}

/// Whether segments cross does not depend on which way they run, nor on which comes first.
pub(crate) proof fn lemma_crossing_swapped(
    u: (int, int),
    v: (int, int),
    q: (int, int),
    w: (int, int),
)
    ensures
        crossing(u, v, q, w) == crossing(v, u, q, w),
        crossing(u, v, q, w) == crossing(u, v, w, q),
        crossing(u, v, q, w) == crossing(q, w, u, v),
{
    lemma_tri(u, v, q);
    lemma_tri(u, v, w);
    lemma_tri(q, w, u);
    lemma_tri(q, w, v);
}

/// Rings do not cross if those that they run along do not.
pub(crate) proof fn lemma_along_uncrossed(
    p: Seq<(int, int)>,
    c: Seq<(int, int)>,
    h: Seq<(int, int)>,
    v: Seq<(int, int)>,
)
    requires
        runs_along(p, c),
        runs_along(h, v),
        uncrossing_rings(c, v),
    ensures
        uncrossing_rings(p, h),
{
    assert forall|i: int, j: int| 0 <= i < p.len() && 0 <= j < h.len() implies
        #[trigger] uncrossed_by(p, i, h[j], next(h, j)) by {
        assert(edge_of(c, p[i], next(p, i)));
        assert(edge_of(v, h[j], next(h, j)));
        let a = choose|a: int| 0 <= a < c.len() && #[trigger] edge_at(c, a, p[i], next(p, i));
        let b = choose|b: int| 0 <= b < v.len() && #[trigger] edge_at(v, b, h[j], next(h, j));
        assert(uncrossed_by(c, a, v[b], next(v, b)));
        lemma_crossing_swapped(c[a], next(c, a), v[b], next(v, b));
        lemma_crossing_swapped(next(c, a), c[a], v[b], next(v, b));
    }
}

/// The rings have no corner in common.
pub(crate) open spec fn strangers(p: Seq<(int, int)>, h: Seq<(int, int)>) -> bool {
    forall|i: int, j: int|
        0 <= i < p.len() && 0 <= j < h.len() ==> #[trigger] p[i] != #[trigger] h[j]
}

/// Rings have no corner in common if all corners of what one runs along are off the other.
pub(crate) proof fn lemma_strangers(
    p: Seq<(int, int)>,
    c: Seq<(int, int)>,
    h: Seq<(int, int)>,
    v: Seq<(int, int)>,
)
    requires
        runs_along(p, c),
        runs_along(h, v),
        forall|k: int| 0 <= k < v.len() ==> off_ring(c, #[trigger] v[k]),
    ensures
        strangers(p, h),
{
    assert forall|i: int, j: int| 0 <= i < p.len() && 0 <= j < h.len() implies #[trigger] p[i]
        != #[trigger] h[j] by {
        let a = lemma_corner_along(p, c, i);
        let b = lemma_corner_along(h, v, j);
        assert(off_ring(c, v[b]));
        assert(!on(c[a], next(c, a), v[b]));
        lemma_tri(c[a], next(c, a), c[a]);
    }
}

/// A ring seen from another corner, and back again.
proof fn lemma_seen_back(p: Seq<(int, int)>, m: int) -> (l: int)
    requires
        0 <= m < p.len(),
    ensures
        0 <= l < p.len(),
        seen_at(seen_at(p, m), l) == p,
{
    let n = p.len() as int;
    let s = seen_at(p, m);
    let l = if m == 0 {
        0
    } else {
        n - m
    };
    assert forall|k: int| 0 <= k < n implies seen_at(s, l)[k] == p[k] by {
        lemma_seen_at(s, l, k);
        lemma_seen_at(p, m, place(k, l, n));
    }
    assert(seen_at(s, l) =~= p);
    l
}

/// A simple ring that runs clockwise does so wherever it is seen from.
proof fn lemma_seen_right_handed(p: Seq<(int, int)>, m: int)
    requires
        simple(p),
        !left_handed(p),
        0 <= m < p.len(),
    ensures
        simple(seen_at(p, m)),
        !left_handed(seen_at(p, m)),
{
    lemma_seen_simple(p, m);
    if left_handed(seen_at(p, m)) {
        let l = lemma_seen_back(p, m);
        lemma_seen_left_handed(seen_at(p, m), l);
    }
}

// ---------------------------------------------------------------------------------------------
// Reading holes
// ---------------------------------------------------------------------------------------------
/// The leftmost of the first `k` nodes is as far left as any of them.
proof fn lemma_leftmost_least(pts: Seq<Pt<Exact>>, r: Seq<int>, k: int)
    requires
        moderate_table(pts),
        is_ring(r, pts.len() as int),
        1 <= k <= r.len(),
    ensures
        0 <= leftmost(pts, r, k) < k,
        forall|j: int|
            0 <= j < k ==> pts[r[leftmost(pts, r, k)]].x.num <= pts[#[trigger] r[j]].x.num,
    decreases k,
{
    if k > 1 {
        lemma_leftmost_least(pts, r, k - 1);
        let best = leftmost(pts, r, k - 1);
        assert(0 <= r[best] < pts.len() && 0 <= r[k - 1] < pts.len());
        assert(moderate_node(pts[r[best]]) && moderate_node(pts[r[k - 1]]));
        lemma_order(pts[r[k - 1]].x, pts[r[best]].x);
        lemma_order(pts[r[best]].x, pts[r[k - 1]].x);
    }
}

/// The ring is simple, runs clockwise, starts at its leftmost corner, and runs along the edges of
/// the vertices that are given.
pub(crate) open spec fn read_well(h: Seq<(int, int)>, v: Seq<(int, int)>) -> bool {
    &&& simple(h)
    &&& !left_handed(h)
    &&& from_left(h)
    &&& runs_along(h, v)
}

/// The ring without a last vertex that repeats the first.
pub open spec fn opened(v: Seq<(int, int)>) -> Seq<(int, int)> {
    if v.len() >= 2 && v.last() == v[0] {
        v.drop_last()
    } else {
        v
    }
}

/// The number of corners of the first `k` holes.
pub open spec fn hole_corners(data: Seq<Exact>, holes: Seq<usize>, dim: int, k: int) -> nat
    decreases k,
{
    if k <= 0 {
        0
    } else {
        hole_corners(data, holes, dim, k - 1) + opened(hole_ring(data, holes, dim, k - 1)).len()
    }
}

/// A ring without its repeated vertex runs along the same edges.
pub(crate) proof fn lemma_along_opened(v: Seq<(int, int)>)
    requires
        v.len() > 0,
    ensures
        runs_along(opened(v), v),
{
    let c = opened(v);
    lemma_along_reversed(v);
    if c != v {
        assert forall|k: int| 0 <= k < c.len() implies #[trigger] edge_of(v, c[k], next(c, k)) by {
            assert(c[k] == v[k]);
            assert(next(v, k) == next(c, k));
            assert(edge_at(v, k, c[k], next(c, k)));
        }
    }
}

/// The sign of the area of a simple ring, whose last vertex may repeat the first.
proof fn lemma_opened_sign(data: Seq<Exact>, dim: int, from: int, to: int)
    requires
        integral(data),
        dim >= 2,
        0 <= from < to <= data.len() as int / dim,
        simple(opened(vertex_ring(data, dim, from, to))),
    ensures
        zero::<Exact>().less_spec(signed_area_spec(data, from * dim, to * dim, dim))
            <==> left_handed(opened(vertex_ring(data, dim, from, to))),
{
    let at = corners(integer(), data, dim);
    let v = vertex_ring(data, dim, from, to);
    let c = opened(v);
    if c == v {
        lemma_area_sign(data, dim, from, to);
    } else {
        let m = by_area();
        assert(c =~= vertex_ring(data, dim, from, to - 1));
        assert(v.last() == at(to - 1) && v[0] == at(from));
        lemma_area_sign(data, dim, from, to - 1);
        lemma_loop(data, dim, from, to);
        lemma_loop(data, dim, from, to - 1);
        lemma_by_area();
        assert(m(at(to - 1), at(from)) == -m(at(from), at(to - 1)));
        assert(loop_area(at, from, to) == loop_area(at, from, to - 1));
    }
}

/// The ring of a hole that is read: its corners, run so that they enclose no area to their left,
/// seen from one of them.
#[verifier::spinoff_prover]
#[verifier::rlimit(40)]
proof fn lemma_hole_listed(
    pts: Seq<Pt<Exact>>,
    data: Seq<Exact>,
    dim: int,
    from: int,
    to: int,
) -> (turn: int)
    requires
        integral(data),
        dim >= 2,
        0 <= from < to <= data.len() as int / dim,
        opened(vertex_ring(data, dim, from, to)).len() >= 3,
    ensures
        ({
            let l = listed(pts, data, dim, from, to, false);
            let c = opened(vertex_ring(data, dim, from, to));
            let left = zero::<Exact>().less_spec(
                signed_area_spec(data, from * dim, to * dim, dim),
            );
            &&& 0 <= turn < c.len()
            &&& l.ring.len() == c.len()
            &&& spots(integer(), l.pts, l.ring) == seen_at(
                if left {
                    c.reverse()
                } else {
                    c
                },
                turn,
            )
        }),
{
    let val = integer();
    let at = corners(val, data, dim);
    let l = listed(pts, data, dim, from, to, false);
    let n = pts.len() as int;
    let m = to - from;
    let v = vertex_ring(data, dim, from, to);
    let c = opened(v);
    let more = wound(data, dim, from, to, false);
    let left = zero::<Exact>().less_spec(signed_area_spec(data, from * dim, to * dim, dim));
    assert(l.pts.len() == n + m);
    assert forall|k: int| 0 <= k < m implies #[trigger] spot(val, l.pts, n + k) == at(
        if left {
            to - 1 - k
        } else {
            from + k
        },
    ) by {
        assert(l.pts[n + k] == more[k]);
    }
    let (a, b) = (spot(val, l.pts, n + 0), spot(val, l.pts, n + (m - 1)));
    assert(coincide(l.pts, n + m - 1, n) == (b == a)) by {
        lemma_vertex_coordinates(data, dim, from);
        lemma_vertex_coordinates(data, dim, to - 1);
        assert(l.pts[n + 0] == more[0] && l.pts[n + (m - 1)] == more[m - 1]);
        lemma_whole(b.0, a.0);
        lemma_whole(b.1, a.1);
    }
    assert(v.last() == at(to - 1) && v[0] == at(from));
    let q = spots(val, l.pts, l.ring);
    let turn = if c == v {
        m - 1
    } else if left {
        m - 2
    } else {
        0
    };
    let d = if left {
        c.reverse()
    } else {
        c
    };
    assert((c == v) == (b != a)) by {
        if b == a {
            assert(c.len() == v.len() - 1);
        }
    }
    assert(l.ring.len() == c.len());
    assert forall|k: int| 0 <= k < c.len() implies #[trigger] q[k] == seen_at(d, turn)[k] by {
        let j = place(k, turn, c.len() as int);
        lemma_seen_at(d, turn, k);
        if left {
            lemma_reversed_at(c, j);
        }
        let h = l.ring[k] - n;
        assert(0 <= h < m);
        assert(q[k] == spot(val, l.pts, n + h));
    }
    assert(q =~= seen_at(d, turn));
    turn
}

/// A simple hole is read well.
#[verifier::spinoff_prover]
proof fn lemma_simple_hole(pts: Seq<Pt<Exact>>, data: Seq<Exact>, dim: int, from: int, to: int)
    requires
        integral(data),
        dim >= 2,
        0 <= from < to <= data.len() as int / dim,
        drawn(pts, data, dim),
        simple(opened(vertex_ring(data, dim, from, to))),
    ensures
        ({
            let l = listed(pts, data, dim, from, to, false);
            let r = from_leftmost(l.pts, l.ring);
            let v = vertex_ring(data, dim, from, to);
            &&& drawn(l.pts, data, dim)
            &&& l.ring.len() == opened(v).len()
            &&& r.len() == opened(v).len()
            &&& r.len() >= 3
            &&& read_well(spots(integer(), l.pts, r), v)
        }),
{
    let val = integer();
    let l = listed(pts, data, dim, from, to, false);
    let n = pts.len() as int;
    let v = vertex_ring(data, dim, from, to);
    let c = opened(v);
    let more = wound(data, dim, from, to, false);
    let left = zero::<Exact>().less_spec(signed_area_spec(data, from * dim, to * dim, dim));
    assert forall|h: int| 0 <= h < l.pts.len() implies (#[trigger] l.pts[h]).i < data.len() as int
        / dim && l.pts[h].x == data[l.pts[h].i * dim] && l.pts[h].y == data[l.pts[h].i * dim
        + 1] by {
        if h < n {
            assert(l.pts[h] == pts[h]);
        } else {
            assert(l.pts[n + (h - n)] == more[h - n]);
        }
    }
    lemma_drawn_moderate(l.pts, data, dim);
    lemma_opened_sign(data, dim, from, to);
    lemma_along_opened(v);
    lemma_along_reversed(c);
    let d = if left {
        c.reverse()
    } else {
        c
    };
    if left {
        lemma_either_way(c);
        lemma_reversed_simple(c);
    }
    lemma_along_through(d, c, v);
    let turn = lemma_hole_listed(pts, data, dim, from, to);
    let q = spots(val, l.pts, l.ring);
    lemma_seen_right_handed(d, turn);
    lemma_along_seen(d, turn);
    lemma_along_through(q, d, v);
    let e = c.len() as int;
    let i = leftmost(l.pts, l.ring, e);
    lemma_leftmost(l.pts, l.ring, e);
    lemma_listed_ring(pts, data, dim, from, to, false);
    lemma_leftmost_least(l.pts, l.ring, e);
    let r = from_leftmost(l.pts, l.ring);
    let h = spots(val, l.pts, r);
    assert(h =~= seen_at(q, i));
    lemma_seen_right_handed(q, i);
    lemma_along_seen(q, i);
    lemma_along_through(h, q, v);
    assert forall|k: int| 0 <= k < h.len() implies h[0].0 <= (#[trigger] h[k]).0 by {
        lemma_seen_at(q, i, 0);
        lemma_seen_at(q, i, k);
        let j = place(k, i, e);
        assert(l.pts[l.ring[i]].x.num <= l.pts[l.ring[j]].x.num);
    }
}

/// Simple holes are read well.
#[verifier::spinoff_prover]
pub(crate) proof fn lemma_simple_holes(
    pts: Seq<Pt<Exact>>,
    data: Seq<Exact>,
    dim: int,
    holes: Seq<usize>,
    k: int,
)
    requires
        integral(data),
        is_flat(data, holes, dim),
        drawn(pts, data, dim),
        holes_filled(holes, data.len() as int / dim),
        forall|j: int|
            0 <= j < holes.len() ==> simple(opened(#[trigger] hole_ring(data, holes, dim, j))),
        0 <= k <= holes.len(),
    ensures
        ({
            let q = queued(pts, data, dim, holes, k);
            &&& drawn(q.pts, data, dim)
            &&& q.holes.len() == k
            &&& total_len(q.holes, k) == hole_corners(data, holes, dim, k)
            &&& forall|j: int|
                0 <= j < k ==> (#[trigger] q.holes[j]).len() >= 3 && read_well(
                    spots(integer(), q.pts, q.holes[j]),
                    hole_ring(data, holes, dim, j),
                )
        }),
    decreases k,
{
    if k > 0 {
        let val = integer();
        let count = data.len() as int / dim;
        let q = queued(pts, data, dim, holes, k - 1);
        let (from, to) = (holes[k - 1] as int, hole_end(holes, count, k - 1));
        let l = listed(q.pts, data, dim, from, to, false);
        let w = queued(pts, data, dim, holes, k);
        lemma_simple_holes(pts, data, dim, holes, k - 1);
        assert(holes[k - 1] < hole_end(holes, count, k - 1));
        assert(k < holes.len() ==> holes[k] <= count);
        assert(simple(opened(hole_ring(data, holes, dim, k - 1))));
        lemma_simple_hole(q.pts, data, dim, from, to);
        lemma_queued_rings(pts, data, dim, holes, k - 1, Seq::empty());
        assert(w.pts == l.pts);
        assert(w.holes == q.holes.push(from_leftmost(l.pts, l.ring)));
        lemma_total_pushed(q.holes, from_leftmost(l.pts, l.ring), k - 1);
        assert forall|j: int| 0 <= j < k implies (#[trigger] w.holes[j]).len() >= 3 && read_well(
            spots(val, w.pts, w.holes[j]),
            hole_ring(data, holes, dim, j),
        ) by {
            if j < k - 1 {
                assert(w.holes[j] == q.holes[j]);
                assert(is_ring(q.holes[j], q.pts.len() as int));
                assert(spots(val, w.pts, w.holes[j]) =~= spots(val, q.pts, q.holes[j])) by {
                    assert forall|i: int| 0 <= i < q.holes[j].len() implies spot(
                        val,
                        w.pts,
                        #[trigger] q.holes[j][i],
                    ) == spot(val, q.pts, q.holes[j][i]) by {
                        let h = q.holes[j][i];
                        assert(0 <= h < q.pts.len());
                        assert(l.pts[h] == q.pts[h]);
                    }
                }
            }
        }
    }
}

/// The nodes of holes to which one is added.
proof fn lemma_total_pushed(q: Seq<Seq<int>>, hole: Seq<int>, k: int)
    requires
        0 <= k <= q.len(),
    ensures
        total_len(q.push(hole), k) == total_len(q, k),
    decreases k,
{
    if k > 0 {
        lemma_total_pushed(q, hole, k - 1);
    }
}

} // verus!
