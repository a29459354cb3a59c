//! Holes that are apart from each other and inside the outer ring all get connected.
use vstd::prelude::*;
use crate::areas::{exact, spot, tri};
use crate::bounds::{in_table, lemma_bridge};
use crate::connecting::{
    hole_inside, hole_spot, lemma_drawn_moderate, lemma_holes_connected, lemma_ring_winding,
    merged_outline, merging_order,
};
use crate::diagonals::{lemma_off_seen, off_ring};
use crate::exact::{whole, Exact};
use crate::exact_areas::{integer, integral, lemma_corner_area, lemma_integral, lemma_whole};
use crate::exact_polygons::lemma_outer_drawn;
use crate::fresh_index::{lemma_between, lemma_hit, lemma_order, moderate_node, moderate_table};
use crate::geometry::zero;
use crate::hole_model::{
    bridge, comes_after, connected, healed_outline, in_order, joined, lean_blocks, lean_over,
    merged, merged_all, put_in, queued, ray_blocks, ray_cast, ray_edge, ray_hit, ray_over,
    ray_start, seen_from, slit_healed, Lean, Outline, Ray,
};
use crate::model::{
    after, area, backtracked, bridged, coincide, degenerate, dropped_back, healed, turned,
    turned_to, Pt,
};
use crate::polygon_areas::{
    all_connected, drawn, lemma_listed_sum, lemma_queued_sum, rings_sum, sign_found,
};
use crate::rings::{
    apart_from, is_ring, lemma_backtracked_ring, lemma_dropped_ring, lemma_healed_ring,
    lemma_in_order_apart, lemma_joined_ring, lemma_listed_ring, lemma_merged_all_ring,
    lemma_queued_rings, lemma_turned_ring, lemma_turned_to_ring, rings_apart,
};
use crate::scalar::Scalar;
use crate::segments::{lemma_differences, lemma_sum, lemma_tri, on};
use crate::simple::seen_at;
use crate::simple_polygons::spots;
use crate::spread::lemma_merging_drawn;
use crate::tiling::{by_winding, lemma_by_winding};
use crate::triangulation::{is_flat, outer_count, outer_ring};
use crate::winding::{next, winding};

verus! {

// ---------------------------------------------------------------------------------------------
// Bridges lead to the left
// ---------------------------------------------------------------------------------------------
/// What the ray has met so far lies strictly to the left of its start, and the ray goes on.
pub(crate) open spec fn leftward(pts: Seq<Pt<Exact>>, hx: Exact, s: Ray<Exact>) -> bool {
    &&& !s.done
    &&& s.m matches Some(m) ==> pts[m].x.num < hx.num
}

/// Casting the ray at an edge that its start is not on.
pub(crate) proof fn lemma_edge_leftward(
    pts: Seq<Pt<Exact>>,
    hole: int,
    s: Ray<Exact>,
    p: int,
    n: int,
)
    requires
        moderate_node(pts[hole]),
        moderate_node(pts[p]),
        moderate_node(pts[n]),
        leftward(pts, pts[hole].x, s),
        !on(spot(integer(), pts, p), spot(integer(), pts, n), spot(integer(), pts, hole)),
    ensures
        leftward(pts, pts[hole].x, ray_edge(pts, pts[hole].x, pts[hole].y, s, p, n)),
{
    let val = integer();
    let (u, v, q) = (spot(val, pts, p), spot(val, pts, n), spot(val, pts, hole));
    let (hx, hy) = (pts[hole].x, pts[hole].y);
    lemma_tri(u, v, v);
    lemma_whole(q.0, v.0);
    lemma_whole(q.1, v.1);
    assert(hx == whole(q.0) && hy == whole(q.1) && pts[n].x == whole(v.0) && pts[n].y == whole(v.1)
        && pts[p].x == whole(u.0) && pts[p].y == whole(u.1));
    lemma_order(hy, pts[p].y);
    lemma_order(pts[p].y, hy);
    lemma_order(pts[n].y, hy);
    lemma_order(hy, pts[n].y);
    lemma_order(pts[n].y, pts[p].y);
    lemma_order(pts[p].y, pts[n].y);
    lemma_order(pts[p].x, pts[n].x);
    if hy.at_most_spec(pts[p].y) && pts[n].y.at_most_spec(hy) && !pts[n].y.same_spec(pts[p].y) {
        lemma_hit(pts, hy, p, n);
        let x = ray_hit(pts, hy, p, n);
        let (d, t, f) = (u.1 - v.1, u.1 - q.1, v.0 - u.0);
        assert(x.num == u.0 * d + t * f && x.den == d);
        lemma_differences(v.0, u.0, q.1, u.1);
        lemma_differences(v.1, u.1, q.0, u.0);
        let (a, b) = ((v.0 - u.0) * (q.1 - u.1), (v.1 - u.1) * (q.0 - u.0));
        assert(tri(u, v, q) == a - b);
        assert(a == -(t * f)) by (nonlinear_arith)
            requires
                a == (v.0 - u.0) * (q.1 - u.1),
                t == u.1 - q.1,
                f == v.0 - u.0,
        ;
        assert(b == u.0 * d - q.0 * d) by (nonlinear_arith)
            requires
                b == (v.1 - u.1) * (q.0 - u.0),
                d == u.1 - v.1,
        ;
        lemma_order(x, hx);
        lemma_order(hx, x);
        assert(x.num * hx.den == x.num && hx.num * x.den == q.0 * d);
        if x.num == q.0 * d {
            assert(tri(u, v, q) == 0);
            assert(q.1 < u.1 || q.1 == u.1);
            lemma_level(u, v, q);
        }
        lemma_between(u.0, v.0, d, t, x.num as int);
        let m = if u.0 < v.0 {
            u.0
        } else {
            v.0
        };
        if x.num < q.0 * d {
            assert(m < q.0) by (nonlinear_arith)
                requires
                    m * d < q.0 * d,
                    d > 0,
            ;
        }
    }
}

/// A point on the line of a segment that is not level, at a height between those of its ends, is on
/// the segment.
pub(crate) proof fn lemma_level(u: (int, int), v: (int, int), q: (int, int))
    requires
        tri(u, v, q) == 0,
        v.1 < u.1,
        v.1 <= q.1 <= u.1,
    ensures
        on(u, v, q),
{
    lemma_differences(v.0, u.0, q.1, u.1);
    lemma_differences(v.1, u.1, q.0, u.0);
    lemma_differences(u.0, v.0, q.1, v.1);
    lemma_differences(u.1, v.1, q.0, v.0);
    lemma_tri(u, v, q);
    let (a, b) = (v.1 - u.1, q.0 - u.0);
    if q.1 == u.1 {
        assert(q.0 == u.0) by (nonlinear_arith)
            requires
                (v.0 - u.0) * (q.1 - u.1) == (v.1 - u.1) * (q.0 - u.0),
                q.1 == u.1,
                v.1 < u.1,
        ;
    }
    if q.1 == v.1 {
        assert(q.0 == v.0) by (nonlinear_arith)
            requires
                (u.0 - v.0) * (q.1 - v.1) == (u.1 - v.1) * (q.0 - v.0),
                q.1 == v.1,
                v.1 < u.1,
        ;
    }
}

/// The ray cast at edges that its start is not on.
pub(crate) proof fn lemma_over_leftward(
    pts: Seq<Pt<Exact>>,
    r: Seq<int>,
    hole: int,
    nodes: Seq<int>,
    s: Ray<Exact>,
)
    requires
        moderate_table(pts),
        is_ring(r, pts.len() as int),
        0 <= hole < pts.len(),
        off_ring(spots(integer(), pts, r), spot(integer(), pts, hole)),
        leftward(pts, pts[hole].x, s),
    ensures
        leftward(pts, pts[hole].x, ray_over(pts, r, pts[hole].x, pts[hole].y, nodes, s)),
    decreases nodes.len(),
{
    let (hx, hy) = (pts[hole].x, pts[hole].y);
    if nodes.len() > 0 {
        let first = nodes.drop_last();
        lemma_over_leftward(pts, r, hole, first, s);
        let t = ray_over(pts, r, hx, hy, first, s);
        let p = nodes.last();
        if r.contains(p) {
            let k = r.index_of(p);
            let j = after(k, r.len() as int);
            assert(r[k] == p && 0 <= k < r.len());
            assert(0 <= r[k] < pts.len() && 0 <= r[j] < pts.len());
            let z = spots(integer(), pts, r);
            assert(!on(z[k], next(z, k), spot(integer(), pts, hole)));
            assert(moderate_node(pts[hole]) && moderate_node(pts[p]) && moderate_node(pts[r[j]]));
            lemma_edge_leftward(pts, hole, t, p, r[j]);
        }
    }
}

/// The ray cast at blocks of edges that its start is not on.
proof fn lemma_blocks_leftward(o: Outline<Exact>, hole: int, k: int)
    requires
        moderate_table(o.pts),
        is_ring(o.ring, o.pts.len() as int),
        0 <= hole < o.pts.len(),
        off_ring(spots(integer(), o.pts, o.ring), spot(integer(), o.pts, hole)),
    ensures
        leftward(o.pts, o.pts[hole].x, ray_blocks(o, o.pts[hole].x, o.pts[hole].y, k)),
    decreases k,
{
    if k > 0 {
        lemma_blocks_leftward(o, hole, k - 1);
        let s = ray_blocks(o, o.pts[hole].x, o.pts[hole].y, k - 1);
        lemma_over_leftward(o.pts, o.ring, hole, o.lists[k - 1], s);
    }
}

/// The best node to connect lies to the left.
proof fn lemma_lean_leftward(
    pts: Seq<Pt<Exact>>,
    r: Seq<int>,
    hole: int,
    qx: Exact,
    m0: int,
    nodes: Seq<int>,
    s: Lean<Exact>,
)
    requires
        moderate_table(pts),
        is_ring(r, pts.len() as int),
        0 <= hole < pts.len(),
        pts[s.m].x.num < pts[hole].x.num,
    ensures
        pts[lean_over(pts, r, hole, qx, m0, nodes, s).m].x.num < pts[hole].x.num,
    decreases nodes.len(),
{
    if nodes.len() > 0 {
        lemma_lean_leftward(pts, r, hole, qx, m0, nodes.drop_last(), s);
        let p = nodes.last();
        if r.contains(p) {
            let k = r.index_of(p);
            assert(r[k] == p && 0 <= k < r.len());
            assert(0 <= r[k] < pts.len());
            assert(moderate_node(pts[p]) && moderate_node(pts[hole]));
            lemma_order(pts[p].x, pts[hole].x);
            lemma_order(pts[hole].x, pts[p].x);
        }
    }
}

/// The best node of the blocks to connect lies to the left.
proof fn lemma_lean_blocks_leftward(o: Outline<Exact>, hole: int, qx: Exact, m0: int, k: int)
    requires
        moderate_table(o.pts),
        is_ring(o.ring, o.pts.len() as int),
        0 <= hole < o.pts.len(),
        o.pts[m0].x.num < o.pts[hole].x.num,
    ensures
        o.pts[lean_blocks(o, hole, qx, m0, k).m].x.num < o.pts[hole].x.num,
    decreases k,
{
    if k > 0 {
        lemma_lean_blocks_leftward(o, hole, qx, m0, k - 1);
        let s = lean_blocks(o, hole, qx, m0, k - 1);
        lemma_lean_leftward(o.pts, o.ring, hole, qx, m0, o.lists[k - 1], s);
    }
}

/// A node that is not on the ring is connected to a node strictly to its left.
pub proof fn lemma_bridge_leftward(o: Outline<Exact>, hole: int)
    requires
        moderate_table(o.pts),
        is_ring(o.ring, o.pts.len() as int),
        0 <= hole < o.pts.len(),
        off_ring(spots(integer(), o.pts, o.ring), spot(integer(), o.pts, hole)),
    ensures
        bridge(o, hole) matches Some(b) ==> o.pts[b].x.num < o.pts[hole].x.num,
{
    let p = spots(integer(), o.pts, o.ring);
    let q = spot(integer(), o.pts, hole);
    let (hx, hy) = (o.pts[hole].x, o.pts[hole].y);
    assert(0 <= o.ring[0] < o.pts.len());
    assert(moderate_node(o.pts[hole]) && moderate_node(o.pts[o.ring[0]]));
    assert(!coincide(o.pts, hole, o.ring[0])) by {
        let u = p[0];
        assert(hx == whole(q.0) && hy == whole(q.1) && o.pts[o.ring[0]].x == whole(u.0)
            && o.pts[o.ring[0]].y == whole(u.1));
        lemma_whole(q.0, u.0);
        lemma_whole(q.1, u.1);
        lemma_tri(u, next(p, 0), u);
        assert(!on(p[0], next(p, 0), q));
    }
    lemma_over_leftward(o.pts, o.ring, hole, o.ring, ray_start());
    lemma_blocks_leftward(o, hole, o.boxes.len() as int);
    let ray = ray_cast(o, hx, hy);
    if ray.m is Some {
        let m0 = ray.m->0;
        lemma_lean_leftward(
            o.pts,
            o.ring,
            hole,
            ray.qx,
            m0,
            o.ring,
            Lean { m: m0, tan: Exact::infinity_spec() },
        );
        lemma_lean_blocks_leftward(o, hole, ray.qx, m0, o.boxes.len() as int);
    }
}

/// A slit that leads to the left holds no point further right but its end.
proof fn lemma_off_slit(b: (int, int), h: (int, int), z: (int, int))
    requires
        b.0 < h.0 <= z.0,
        z != h,
    ensures
        !on(b, h, z),
        !on(h, b, z),
{
    lemma_tri(b, h, z);
    lemma_differences(h.0, b.0, z.1, b.1);
    lemma_differences(h.1, b.1, z.0, b.0);
    lemma_differences(b.0, h.0, z.1, h.1);
    lemma_differences(b.1, h.1, z.0, h.0);
    if tri(b, h, z) == 0 {
        let (x, y) = (h.0 - b.0, h.1 - b.1);
        let (s, t) = (z.0 - h.0, z.1 - h.1);
        assert(x * t == y * s) by (nonlinear_arith)
            requires
                tri(h, b, z) == (b.0 - h.0) * (z.1 - h.1) - (b.1 - h.1) * (z.0 - h.0),
                tri(h, b, z) == 0,
                x == h.0 - b.0,
                y == h.1 - b.1,
                s == z.0 - h.0,
                t == z.1 - h.1,
        ;
        assert(y > 0 ==> t >= 0) by (nonlinear_arith)
            requires
                x * t == y * s,
                x > 0,
                s >= 0,
        ;
        assert(y < 0 ==> t <= 0) by (nonlinear_arith)
            requires
                x * t == y * s,
                x > 0,
                s >= 0,
        ;
        assert(y == 0 ==> t == 0) by (nonlinear_arith)
            requires
                x * t == y * s,
                x > 0,
        ;
        assert(s == 0 ==> t == 0) by (nonlinear_arith)
            requires
                x * t == y * s,
                x > 0,
        ;
        assert(t == 0 && y != 0 ==> s == 0) by (nonlinear_arith)
            requires
                x * t == y * s,
        ;
    }
}

// ---------------------------------------------------------------------------------------------
// Points that stay off the ring
// ---------------------------------------------------------------------------------------------
/// The point is on no edge of the ring of nodes.
spec fn clear(pts: Seq<Pt<Exact>>, r: Seq<int>, z: (int, int)) -> bool {
    off_ring(spots(integer(), pts, r), z)
}

/// A table with integer coordinates of moderate size is computed with exactly.
proof fn lemma_moderate_exact(pts: Seq<Pt<Exact>>)
    requires
        moderate_table(pts),
    ensures
        exact(integer(), pts),
{
    let val = integer();
    assert forall|h: int| 0 <= h < pts.len() implies (#[trigger] pts[h]).x == whole(
        spot(val, pts, h).0,
    ) && pts[h].y == whole(spot(val, pts, h).1) by {
        assert(moderate_node(pts[h]));
    }
    assert forall|p: int, q: int, r: int|
        0 <= p < pts.len() && 0 <= q < pts.len() && 0 <= r < pts.len() implies ((#[trigger] area(
        pts,
        p,
        q,
        r,
    )).less_spec(zero::<Exact>()) ==> tri(spot(val, pts, p), spot(val, pts, q), spot(val, pts, r))
        > 0) && (area(pts, p, q, r).same_spec(zero::<Exact>()) ==> tri(
        spot(val, pts, p),
        spot(val, pts, q),
        spot(val, pts, r),
    ) == 0) by {
        let (a, b, c) = (spot(val, pts, p), spot(val, pts, q), spot(val, pts, r));
        assert(moderate_node(pts[p]) && moderate_node(pts[q]) && moderate_node(pts[r]));
        lemma_corner_area(a.0, a.1, b.0, b.1, c.0, c.1);
        lemma_whole(-tri(a, b, c), 0);
    }
    assert forall|p: int, q: int|
        0 <= p < pts.len() && 0 <= q < pts.len() && #[trigger] coincide(pts, p, q) implies spot(
        val,
        pts,
        p,
    ) == spot(val, pts, q) by {
        let (a, b) = (spot(val, pts, p), spot(val, pts, q));
        assert(moderate_node(pts[p]) && moderate_node(pts[q]));
        lemma_whole(a.0, b.0);
        lemma_whole(a.1, b.1);
    }
}

/// Points on a line through two different points turn nowhere.
pub(crate) proof fn lemma_in_line(a: (int, int), b: (int, int), c: (int, int), z: (int, int))
    requires
        a != c,
        tri(a, b, c) == 0,
        tri(a, c, z) == 0,
    ensures
        tri(a, b, z) == 0,
        tri(b, c, z) == 0,
{
    lemma_tri(a, b, c);
    lemma_tri(a, c, z);
    lemma_tri(b, c, z);
    lemma_differences(c.0, a.0, b.1, a.1);
    lemma_differences(c.1, a.1, b.0, a.0);
    lemma_differences(c.0, a.0, z.1, a.1);
    lemma_differences(c.1, a.1, z.0, a.0);
    lemma_differences(b.0, a.0, z.1, a.1);
    lemma_differences(b.1, a.1, z.0, a.0);
    let (u, v, w) = (
        (c.0 - a.0, c.1 - a.1),
        (b.0 - a.0, b.1 - a.1),
        (z.0 - a.0, z.1 - a.1),
    );
    let k = v.0 * w.1 - v.1 * w.0;
    assert(u.0 * v.1 - u.1 * v.0 == 0 && u.0 * w.1 - u.1 * w.0 == 0);
    assert(u.0 * k == 0 && u.1 * k == 0) by (nonlinear_arith)
        requires
            k == v.0 * w.1 - v.1 * w.0,
            u.0 * v.1 == u.1 * v.0,
            u.0 * w.1 == u.1 * w.0,
    ;
    assert(k == 0) by (nonlinear_arith)
        requires
            u.0 * k == 0,
            u.1 * k == 0,
            u.0 != 0 || u.1 != 0,
    ;
    lemma_sum(a, b, c, z);
    lemma_tri(c, a, z);
}

/// What is off two edges in line is off the edge that they make together.
proof fn lemma_off_both(a: (int, int), b: (int, int), c: (int, int), z: (int, int))
    requires
        tri(a, b, c) == 0,
        !on(a, b, z),
        !on(b, c, z),
    ensures
        !on(a, c, z),
{
    if on(a, c, z) {
        if a == c {
            lemma_tri(a, b, a);
        } else {
            lemma_in_line(a, b, c, z);
        }
    }
}

/// Dropping a degenerate node keeps a point off the ring.
proof fn lemma_clear_dropped(pts: Seq<Pt<Exact>>, r: Seq<int>, z: (int, int))
    requires
        moderate_table(pts),
        is_ring(r, pts.len() as int),
        degenerate(pts, r),
        clear(pts, r, z),
    ensures
        clear(pts, dropped_back(r), z),
{
    let n = r.len() as int;
    let d = dropped_back(r);
    let p = spots(integer(), pts, r);
    let q = spots(integer(), pts, d);
    lemma_moderate_exact(pts);
    assert(0 <= r[0] < pts.len() && 0 <= r[1] < pts.len() && 0 <= r[n - 1] < pts.len());
    let (a, b, c) = (p[n - 1], p[0], p[1]);
    assert(!on(p[n - 1], next(p, n - 1), z) && !on(p[0], next(p, 0), z));
    assert(next(p, n - 1) == b && next(p, 0) == c);
    assert forall|k: int| 0 <= k < q.len() implies !on(#[trigger] q[k], next(q, k), z) by {
        if k == 0 {
            assert(q[0] == a);
            if n > 2 {
                assert(next(q, 0) == c);
                if coincide(pts, r[0], r[1]) {
                    assert(b == c);
                } else {
                    lemma_off_both(a, b, c, z);
                }
            } else {
                assert(next(q, 0) == a);
                lemma_tri(a, a, z);
                lemma_tri(a, b, a);
                lemma_off_point(a, b, z);
            }
        } else {
            assert(q[k] == p[k]);
            assert(!on(p[k], next(p, k), z));
            if k + 1 < n - 1 {
                assert(next(q, k) == next(p, k));
            } else {
                assert(next(q, k) == a && next(p, k) == a);
            }
        }
    }
}

/// What is not on an edge is not at its start.
proof fn lemma_off_point(a: (int, int), b: (int, int), z: (int, int))
    requires
        !on(a, b, z),
    ensures
        !on(a, a, z),
{
    lemma_tri(a, b, a);
}

/// Dropping nodes backwards keeps a point off the ring.
proof fn lemma_clear_backtracked(pts: Seq<Pt<Exact>>, r: Seq<int>, z: (int, int))
    requires
        moderate_table(pts),
        is_ring(r, pts.len() as int),
        clear(pts, r, z),
    ensures
        clear(pts, backtracked(pts, r), z),
    decreases r.len(),
{
    if degenerate(pts, r) {
        lemma_clear_dropped(pts, r, z);
        lemma_dropped_ring(r, pts.len() as int);
        lemma_clear_backtracked(pts, dropped_back(r), z);
    }
}

/// Turning a ring keeps a point off it.
proof fn lemma_clear_turned(pts: Seq<Pt<Exact>>, r: Seq<int>, m: int, z: (int, int))
    requires
        clear(pts, r, z),
        0 <= m < r.len(),
    ensures
        clear(pts, turned_to(r, m), z),
{
    let p = spots(integer(), pts, r);
    assert(spots(integer(), pts, turned_to(r, m)) =~= seen_at(p, m));
    lemma_off_seen(p, m, z);
}

/// Healing keeps a point off the ring.
proof fn lemma_clear_healed(pts: Seq<Pt<Exact>>, r: Seq<int>, z: (int, int))
    requires
        moderate_table(pts),
        is_ring(r, pts.len() as int),
        clear(pts, r, z),
    ensures
        clear(pts, healed(pts, r), z),
{
    let n = pts.len() as int;
    let b = backtracked(pts, r);
    lemma_clear_backtracked(pts, r, z);
    lemma_backtracked_ring(pts, r, n);
    lemma_turned_ring(b, n);
    if b.len() > 1 {
        assert(turned(b) =~= turned_to(b, 1));
        lemma_clear_turned(pts, b, 1, z);
    } else {
        assert(turned(b) =~= b);
    }
    lemma_clear_backtracked(pts, turned(b), z);
}

/// Joining a hole keeps a point off the ring that is neither on the hole nor on the slit.
proof fn lemma_clear_joined(
    pts: Seq<Pt<Exact>>,
    r: Seq<int>,
    s: Seq<int>,
    z: (int, int),
)
    requires
        is_ring(r, pts.len() as int),
        is_ring(s, pts.len() as int),
        clear(pts, r, z),
        clear(pts, s, z),
        !on(spot(integer(), pts, r[0]), spot(integer(), pts, s[0]), z),
        !on(spot(integer(), pts, s[0]), spot(integer(), pts, r[0]), z),
    ensures
        clear(bridged(pts, r[0], s[0]), joined(r, s, pts.len() as int), z),
{
    let n = pts.len() as int;
    let all = bridged(pts, r[0], s[0]);
    let j = joined(r, s, n);
    let (p, q) = (spots(integer(), pts, r), spots(integer(), pts, s));
    let t = spots(integer(), all, j);
    let (a, b) = (r.len() as int, s.len() as int);
    assert(0 <= r[0] < n && 0 <= s[0] < n);
    assert forall|k: int| 0 <= k < t.len() implies #[trigger] t[k] == (if k == 0 {
        q[0]
    } else if k == 1 {
        p[0]
    } else if k < a + 1 {
        p[k - 1]
    } else if k == a + 1 {
        p[0]
    } else {
        q[k - a - 2]
    }) by {
        if 2 <= k < a + 2 {
            assert(j[k] == turned(r)[k - 2]);
            if k < a + 1 {
                assert(j[k] == r[k - 1]);
                assert(0 <= r[k - 1] < n);
            }
        } else if k >= a + 2 {
            assert(j[k] == s[k - a - 2]);
            assert(0 <= s[k - a - 2] < n);
        }
    }
    assert forall|k: int| 0 <= k < t.len() implies !on(#[trigger] t[k], next(t, k), z) by {
        if k == 0 {
            assert(next(t, 0) == t[1]);
        } else if k <= a {
            let i = k - 1;
            assert(t[k] == p[i]);
            assert(next(t, k) == t[k + 1]);
            assert(next(t, k) == next(p, i));
            assert(!on(p[i], next(p, i), z));
        } else if k == a + 1 {
            assert(next(t, k) == t[k + 1]);
            assert(t[k + 1] == q[0]);
        } else {
            let i = k - a - 2;
            assert(t[k] == q[i]);
            assert(!on(q[i], next(q, i), z));
            if i + 1 < b {
                assert(next(t, k) == t[k + 1]);
            } else {
                assert(next(t, k) == t[0]);
            }
        }
    }
}

/// Merging a hole keeps a point off the ring that is not on the hole and lies further right than
/// its first node, or beside it.
proof fn lemma_clear_merged(o: Outline<Exact>, hole: Seq<int>, z: (int, int))
    requires
        moderate_table(o.pts),
        is_ring(o.ring, o.pts.len() as int),
        is_ring(hole, o.pts.len() as int),
        apart_from(o.ring, hole),
        clear(o.pts, o.ring, z),
        clear(o.pts, hole, z),
        clear(o.pts, o.ring, spot(integer(), o.pts, hole[0])),
        spot(integer(), o.pts, hole[0]).0 <= z.0,
    ensures
        clear(merged(o, hole).pts, merged(o, hole).ring, z),
{
    let n = o.pts.len() as int;
    let h = spot(integer(), o.pts, hole[0]);
    assert(0 <= hole[0] < n);
    lemma_bridge_leftward(o, hole[0]);
    lemma_bridge(o, hole[0]);
    match bridge(o, hole[0]) {
        None => {},
        Some(b) => {
            let i = o.ring.index_of(b);
            assert(0 <= i < o.ring.len() && o.ring[i] == b);
            assert(0 <= o.ring[i] < n);
            let r = seen_from(o.ring, b);
            lemma_turned_to_ring(o.ring, i, n);
            lemma_clear_turned(o.pts, o.ring, i, z);
            assert(r[0] == b);
            let q = spots(integer(), o.pts, hole);
            assert(!on(q[0], next(q, 0), z));
            assert(h != z) by {
                lemma_tri(q[0], next(q, 0), q[0]);
            }
            lemma_off_slit(spot(integer(), o.pts, b), h, z);
            lemma_clear_joined(o.pts, r, hole, z);
            assert forall|x: int| #[trigger] hole.contains(x) implies !r.contains(x) by {
                assert(!o.ring.contains(x));
            }
            lemma_joined_ring(r, hole, n);
            let c = connected(o, hole, b);
            assert(c.pts == bridged(o.pts, b, hole[0]) && c.ring == joined(r, hole, n));
            assert(moderate_table(c.pts)) by {
                assert forall|x: int| 0 <= x < c.pts.len() implies moderate_node(
                    #[trigger] c.pts[x],
                ) by {
                    assert(moderate_node(o.pts[b]) && moderate_node(o.pts[hole[0]]));
                    if x < n {
                        assert(moderate_node(o.pts[x]));
                    }
                }
            }
            lemma_clear_slit(c, b, z);
        },
    }
}

/// Healing a slit keeps a point off the ring.
proof fn lemma_clear_slit(c: Outline<Exact>, b: int, z: (int, int))
    requires
        moderate_table(c.pts),
        is_ring(c.ring, c.pts.len() as int),
        clear(c.pts, c.ring, z),
    ensures
        clear(slit_healed(c, b).pts, slit_healed(c, b).ring, z),
{
    let n = c.pts.len() as int;
    lemma_clear_healed(c.pts, c.ring, z);
    lemma_healed_ring(c.pts, c.ring, n);
    let one = healed_outline(c);
    lemma_clear_healed(one.pts, one.ring, z);
    if one.ring.contains(b) {
        let i = one.ring.index_of(b);
        assert(0 <= i < one.ring.len() && one.ring[i] == b);
        lemma_clear_turned(one.pts, one.ring, i, z);
        lemma_turned_to_ring(one.ring, i, n);
        lemma_clear_healed(one.pts, seen_from(one.ring, b), z);
    }
}

// ---------------------------------------------------------------------------------------------
// The order of holes
// ---------------------------------------------------------------------------------------------
/// The holes start from left to right.
pub(crate) open spec fn rightward(pts: Seq<Pt<Exact>>, q: Seq<Seq<int>>) -> bool {
    forall|i: int, j: int|
        0 <= i < j < q.len() ==> pts[(#[trigger] q[i])[0]].x.num <= pts[(#[trigger] q[j])[0]].x.num
}

/// The first nodes of the holes have integer coordinates of moderate size.
pub(crate) open spec fn starts_moderate(pts: Seq<Pt<Exact>>, q: Seq<Seq<int>>) -> bool {
    forall|i: int| 0 <= i < q.len() ==> moderate_node(pts[(#[trigger] q[i])[0]])
}

/// Putting a hole in its place keeps the order.
proof fn lemma_put_in_rightward(pts: Seq<Pt<Exact>>, q: Seq<Seq<int>>, hole: Seq<int>)
    requires
        rightward(pts, q),
        starts_moderate(pts, q),
        moderate_node(pts[hole[0]]),
    ensures
        rightward(pts, put_in(pts, q, hole)),
        starts_moderate(pts, put_in(pts, q, hole)),
        put_in(pts, q, hole).len() == q.len() + 1,
        forall|i: int|
            0 <= i < q.len() + 1 ==> (#[trigger] put_in(pts, q, hole)[i]) == hole || q.contains(
                put_in(pts, q, hole)[i],
            ),
    decreases q.len(),
{
    let t = put_in(pts, q, hole);
    if q.len() > 0 {
        let n = q.len() - 1;
        let l = q[n];
        assert(moderate_node(pts[l[0]]));
        let (p, s) = (pts[l[0]], pts[hole[0]]);
        lemma_order(p.x, s.x);
        lemma_order(s.x, p.x);
        if comes_after(pts, l, hole) {
            let d = q.drop_last();
            assert forall|i: int| 0 <= i < d.len() implies moderate_node(
                pts[(#[trigger] d[i])[0]],
            ) by {
                assert(d[i] == q[i]);
            }
            assert forall|i: int, j: int| 0 <= i < j < d.len() implies pts[(
                #[trigger] d[i])[0]].x.num <= pts[(#[trigger] d[j])[0]].x.num by {
                assert(d[i] == q[i] && d[j] == q[j]);
            }
            lemma_put_in_rightward(pts, d, hole);
            let u = put_in(pts, d, hole);
            assert(t == u.push(l));
            assert forall|i: int| 0 <= i < t.len() implies (#[trigger] t[i]) == hole || q.contains(
                t[i],
            ) by {
                if i < u.len() {
                    assert(t[i] == u[i]);
                    if u[i] != hole {
                        let k = choose|k: int| 0 <= k < d.len() && d[k] == u[i];
                        assert(q[k] == u[i]);
                    }
                } else {
                    assert(q[n] == t[i]);
                }
            }
            assert forall|i: int, j: int| 0 <= i < j < t.len() implies pts[(
                #[trigger] t[i])[0]].x.num <= pts[(#[trigger] t[j])[0]].x.num by {
                if j < u.len() {
                    assert(t[i] == u[i] && t[j] == u[j]);
                } else {
                    assert(t[i] == u[i] && t[j] == l);
                    if u[i] != hole {
                        let k = choose|k: int| 0 <= k < d.len() && d[k] == u[i];
                        assert(q[k] == u[i]);
                    }
                }
            }
            assert forall|i: int| 0 <= i < t.len() implies moderate_node(
                pts[(#[trigger] t[i])[0]],
            ) by {
                if i < u.len() {
                    assert(t[i] == u[i]);
                }
            }
        } else {
            assert forall|i: int| 0 <= i < t.len() implies (#[trigger] t[i]) == hole || q.contains(
                t[i],
            ) by {
                if i <= n {
                    assert(q[i] == t[i]);
                }
            }
            assert forall|i: int, j: int| 0 <= i < j < t.len() implies pts[(
                #[trigger] t[i])[0]].x.num <= pts[(#[trigger] t[j])[0]].x.num by {
                assert(t[i] == q[i]);
                if j <= n {
                    assert(t[j] == q[j]);
                } else {
                    assert(pts[q[i][0]].x.num <= pts[q[n][0]].x.num);
                }
            }
        }
    }
}

/// Holes are merged from left to right, and no others than those that have been read.
pub(crate) proof fn lemma_rightward(pts: Seq<Pt<Exact>>, q: Seq<Seq<int>>)
    requires
        starts_moderate(pts, q),
    ensures
        rightward(pts, in_order(pts, q)),
        starts_moderate(pts, in_order(pts, q)),
        in_order(pts, q).len() == q.len(),
        forall|i: int| 0 <= i < q.len() ==> q.contains(#[trigger] in_order(pts, q)[i]),
    decreases q.len(),
{
    if q.len() > 0 {
        let d = q.drop_last();
        assert forall|i: int| 0 <= i < d.len() implies moderate_node(pts[(#[trigger] d[i])[0]]) by {
            assert(d[i] == q[i]);
        }
        lemma_rightward(pts, d);
        let l = q[q.len() - 1];
        assert(moderate_node(pts[l[0]]));
        lemma_put_in_rightward(pts, in_order(pts, d), q.last());
        let (e, t) = (in_order(pts, d), in_order(pts, q));
        assert forall|i: int| 0 <= i < q.len() implies q.contains(#[trigger] t[i]) by {
            if t[i] == q.last() {
                assert(q[q.len() - 1] == t[i]);
            } else {
                let j = choose|j: int| 0 <= j < e.len() && e[j] == t[i];
                assert(d.contains(e[j]));
                let k = choose|k: int| 0 <= k < d.len() && d[k] == e[j];
                assert(q[k] == t[i]);
            }
        }
    }
}

// ---------------------------------------------------------------------------------------------
// All holes
// ---------------------------------------------------------------------------------------------
/// The outer ring runs around the leftmost node of hole number `j`, which is on none of its edges.
pub open spec fn inside_outer(data: Seq<Exact>, holes: Seq<usize>, dim: int, j: int) -> bool {
    let l = outer_ring(data, holes, dim);
    let z = hole_spot(data, holes, dim, j);
    &&& off_ring(spots(integer(), l.pts, l.ring), z)
    &&& winding(spots(integer(), l.pts, l.ring), z) > 0
}

/// Hole number `i` does not run around the leftmost node of hole number `j`, which is on none of
/// its edges.
pub open spec fn outside_hole(
    data: Seq<Exact>,
    holes: Seq<usize>,
    dim: int,
    i: int,
    j: int,
) -> bool {
    let q = queued(outer_ring(data, holes, dim).pts, data, dim, holes, holes.len() as int);
    let z = hole_spot(data, holes, dim, j);
    let p = spots(integer(), q.pts, merging_order(data, holes, dim)[i]);
    off_ring(p, z) && winding(p, z) == 0
}

/// All holes, as they are read from the data, are inside the outer ring and apart from each other.
pub open spec fn holes_apart(data: Seq<Exact>, holes: Seq<usize>, dim: int) -> bool {
    let n = merging_order(data, holes, dim).len() as int;
    &&& forall|j: int| 0 <= j < n ==> #[trigger] inside_outer(data, holes, dim, j)
    &&& forall|i: int, j: int|
        0 <= i < n && 0 <= j < n && i != j ==> #[trigger] outside_hole(data, holes, dim, i, j)
}

/// What is known of the polygon before its holes are merged.
pub(crate) proof fn lemma_before_merging(data: Seq<Exact>, holes: Seq<usize>, dim: int)
    requires
        is_flat(data, holes, dim),
        integral(data),
        outer_ring(data, holes, dim).ring.len() > 2,
    ensures
        ({
            let l = outer_ring(data, holes, dim);
            let o = merged_outline(data, holes, dim, 0);
            let s = merging_order(data, holes, dim);
            let n = o.pts.len() as int;
            &&& o.ring == l.ring
            &&& drawn(o.pts, data, dim)
            &&& moderate_table(o.pts)
            &&& is_ring(o.ring, n)
            &&& rings_apart(o.ring, s, n)
            &&& rightward(o.pts, s)
            &&& forall|h: int|
                0 <= h < l.pts.len() ==> (#[trigger] o.pts[h]).x == l.pts[h].x && o.pts[h].y
                    == l.pts[h].y
            &&& in_table(l.ring, l.pts.len() as int)
        }),
{
    let val = integer();
    let count = data.len() as int / dim;
    let outer = outer_count(holes, count);
    let l = outer_ring(data, holes, dim);
    let q = queued(l.pts, data, dim, holes, holes.len() as int);
    let o = merged_outline(data, holes, dim, 0);
    let s = merging_order(data, holes, dim);
    let z = (0int, 0int);
    let m = by_winding(z);
    let n = q.pts.len() as int;
    lemma_by_winding(z);
    lemma_outer_drawn(data, holes, dim);
    lemma_integral(data, holes, dim);
    lemma_queued_sum(m, val, l.pts, data, holes, dim, holes.len() as int);
    let none = Seq::<Pt<Exact>>::empty();
    lemma_listed_ring(none, data, dim, 0, outer, true);
    lemma_queued_rings(l.pts, data, dim, holes, holes.len() as int, l.ring);
    lemma_in_order_apart(q.pts, l.ring, q.holes, n);
    assert(o.ring == l.ring && o.pts == q.pts);
    assert(is_ring(o.ring, n)) by {
        assert forall|k: int| 0 <= k < l.ring.len() implies 0 <= #[trigger] l.ring[k] < n by {}
    }
    lemma_drawn_moderate(o.pts, data, dim);
    assert(starts_moderate(q.pts, q.holes)) by {
        assert forall|i: int| 0 <= i < q.holes.len() implies moderate_node(
            q.pts[(#[trigger] q.holes[i])[0]],
        ) by {
            assert(is_ring(q.holes[i], n));
            assert(0 <= q.holes[i][0] < n);
        }
    }
    lemma_rightward(q.pts, q.holes);
}

/// The leftmost node of a hole stays off the ring until its turn comes.
#[verifier::spinoff_prover]
proof fn lemma_stays_clear(data: Seq<Exact>, holes: Seq<usize>, dim: int, k: int, j: int)
    requires
        is_flat(data, holes, dim),
        integral(data),
        outer_ring(data, holes, dim).ring.len() > 2,
        holes_apart(data, holes, dim),
        0 <= k <= j < merging_order(data, holes, dim).len(),
    ensures
        ({
            let w = merged_outline(data, holes, dim, k);
            clear(w.pts, w.ring, hole_spot(data, holes, dim, j))
        }),
    decreases k,
{
    let l = outer_ring(data, holes, dim);
    let o = merged_outline(data, holes, dim, 0);
    let s = merging_order(data, holes, dim);
    let n = o.pts.len() as int;
    let z = hole_spot(data, holes, dim, j);
    lemma_before_merging(data, holes, dim);
    assert(is_ring(s[j], n));
    assert(0 <= s[j][0] < n);
    if k == 0 {
        assert(inside_outer(data, holes, dim, j));
        assert(spots(integer(), o.pts, o.ring) =~= spots(integer(), l.pts, l.ring)) by {
            assert forall|i: int| 0 <= i < l.ring.len() implies spot(
                integer(),
                o.pts,
                #[trigger] l.ring[i],
            ) == spot(integer(), l.pts, l.ring[i]) by {
                assert(0 <= l.ring[i] < l.pts.len());
                assert(o.pts[l.ring[i]].x == l.pts[l.ring[i]].x);
            }
        }
    } else {
        let w = merged_outline(data, holes, dim, k - 1);
        let hole = s[k - 1];
        lemma_stays_clear(data, holes, dim, k - 1, j);
        lemma_stays_clear(data, holes, dim, k - 1, k - 1);
        lemma_merged_all_ring(o, s, k - 1);
        lemma_merging_drawn(o, s, k - 1, data, dim);
        lemma_drawn_moderate(w.pts, data, dim);
        lemma_kept_prefix(o, s, k - 1);
        assert(w == merged_all(o, s, k - 1));
        assert(is_ring(hole, n) && is_ring(s[k - 1], n));
        assert(is_ring(hole, w.pts.len() as int)) by {
            assert forall|i: int| 0 <= i < hole.len() implies 0 <= #[trigger] hole[i]
                < w.pts.len() by {}
        }
        assert(apart_from(w.ring, s[k - 1]));
        assert(outside_hole(data, holes, dim, k - 1, j));
        assert(spots(integer(), w.pts, hole) =~= spots(integer(), o.pts, hole)) by {
            assert forall|i: int| 0 <= i < hole.len() implies spot(
                integer(),
                w.pts,
                #[trigger] hole[i],
            ) == spot(integer(), o.pts, hole[i]) by {
                assert(0 <= hole[i] < n);
                assert(w.pts[hole[i]] == o.pts[hole[i]]);
            }
        }
        assert(0 <= hole[0] < n);
        assert(w.pts[hole[0]] == o.pts[hole[0]]);
        assert(o.pts[s[k - 1][0]].x.num <= o.pts[s[j][0]].x.num);
        lemma_clear_merged(w, hole, z);
    }
}

/// Merging holes only adds nodes to the table.
proof fn lemma_kept_prefix<C: Scalar>(o: Outline<C>, q: Seq<Seq<int>>, k: int)
    requires
        0 <= k <= q.len(),
    ensures
        o.pts.is_prefix_of(merged_all(o, q, k).pts),
    decreases k,
{
    if k > 0 {
        lemma_kept_prefix(o, q, k - 1);
        let m = merged_all(o, q, k - 1);
        match bridge(m, q[k - 1][0]) {
            None => {},
            Some(b) => {
                assert(merged(m, q[k - 1]).pts == bridged(m.pts, b, q[k - 1][0]));
            },
        }
    }
}

/// Rings that do not run around a point add nothing to what is measured.
proof fn lemma_none_around(pts: Seq<Pt<Exact>>, s: Seq<Seq<int>>, z: (int, int), k: int)
    requires
        0 <= k <= s.len(),
        forall|i: int|
            0 <= i < k ==> (#[trigger] s[i]).len() > 0 && winding(
                spots(integer(), pts, s[i]),
                z,
            ) == 0,
    ensures
        rings_sum(by_winding(z), integer(), pts, s, k) == 0,
    decreases k,
{
    if k > 0 {
        lemma_none_around(pts, s, z, k - 1);
        assert(s[k - 1].len() > 0);
        lemma_ring_winding(pts, s[k - 1], z);
    }
}

/// A hole that is inside the outer ring and outside the others is inside when its turn comes.
proof fn lemma_inside_in_turn(data: Seq<Exact>, holes: Seq<usize>, dim: int, j: int)
    requires
        is_flat(data, holes, dim),
        integral(data),
        outer_ring(data, holes, dim).ring.len() > 2,
        holes_apart(data, holes, dim),
        0 <= j < merging_order(data, holes, dim).len(),
    ensures
        hole_inside(data, holes, dim, j),
{
    let val = integer();
    let count = data.len() as int / dim;
    let outer = outer_count(holes, count);
    let l = outer_ring(data, holes, dim);
    let o = merged_outline(data, holes, dim, 0);
    let s = merging_order(data, holes, dim);
    let z = hole_spot(data, holes, dim, j);
    let m = by_winding(z);
    let none = Seq::<Pt<Exact>>::empty();
    lemma_before_merging(data, holes, dim);
    lemma_stays_clear(data, holes, dim, j, j);
    lemma_by_winding(z);
    lemma_outer_drawn(data, holes, dim);
    lemma_integral(data, holes, dim);
    assert(sign_found(val, data, dim, 0, outer));
    lemma_listed_sum(m, val, none, data, holes, dim, 0, outer, true);
    lemma_ring_winding(l.pts, l.ring, z);
    assert(inside_outer(data, holes, dim, j));
    assert forall|i: int| 0 <= i < j implies (#[trigger] s[i]).len() > 0 && winding(
        spots(integer(), o.pts, s[i]),
        z,
    ) == 0 by {
        assert(is_ring(s[i], o.pts.len() as int));
        assert(outside_hole(data, holes, dim, i, j));
    }
    lemma_none_around(o.pts, s, z, j);
}

/// Every hole of a polygon with integer coordinates of moderate size gets connected if all of them
/// are inside the outer ring and apart from each other.
pub proof fn lemma_all_holes_connected(data: Seq<Exact>, holes: Seq<usize>, dim: int)
    requires
        is_flat(data, holes, dim),
        integral(data),
        outer_ring(data, holes, dim).ring.len() > 2,
        holes_apart(data, holes, dim),
    ensures
        all_connected(
            merged_outline(data, holes, dim, 0),
            merging_order(data, holes, dim),
            merging_order(data, holes, dim).len() as int,
        ),
{
    let n = merging_order(data, holes, dim).len() as int;
    assert forall|j: int| 0 <= j < n implies #[trigger] hole_inside(data, holes, dim, j) by {
        lemma_inside_in_turn(data, holes, dim, j);
    }
    lemma_holes_connected(data, holes, dim, n);
}

} // verus!
