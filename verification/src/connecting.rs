//! Holes inside the ring get connected to it.
use vstd::prelude::*;
use crate::areas::{path_sum, ring_sum, spot, tri};
use crate::bounds::in_table;
use crate::covering::{covered, edge_covered, lemma_boxes_cover, valued};
use crate::diagonals::off_ring;
use crate::exact::Exact;
use crate::exact_areas::{integer, integral, lemma_integral, lemma_vertex_coordinates};
use crate::exact_polygons::{lemma_outer_drawn, lemma_plain_ranked, plain_rank, plain_values};
use crate::fresh_index::{
    edge_in, lemma_edge_skipped, lemma_hit, lemma_order, lemma_over_sound, moderate_node,
    moderate_table, sound,
};
use crate::hole_model::{
    bridge, in_order, merged_all, outline, queued, ray_blocks, ray_cast, ray_edge, ray_hit,
    ray_over, ray_skips, ray_start, Outline, Ray, BLOCK_INDEX_MIN_NODES,
};
use crate::model::{after, Pt};
use crate::polygon_areas::{
    all_connected, corners, drawn, hole_connected, left_sum, lemma_listed_sum, lemma_merged_all_sum,
    lemma_queued_sum, lemma_ring_same, rings_sum, sign_found,
};
use crate::rings::{
    apart_from, is_ring, lemma_in_order_apart, lemma_listed_ring, lemma_merged_all_ring,
    lemma_queued_rings, rings_apart,
};
use crate::scalar::Scalar;
use crate::segments::{lemma_differences, lemma_signs, on, under};
use crate::simple_polygons::spots;
use crate::tiling::{by_winding, lemma_by_winding};
use crate::triangulation::{is_flat, outer_count, outer_ring};
use crate::winding::{next, passes, passings, winding};

verus! {

// ---------------------------------------------------------------------------------------------
// Edges to the left
// ---------------------------------------------------------------------------------------------
/// The edge from `u` to `v` runs downwards past `q`, and has it on its left side.
pub open spec fn falls(u: (int, int), v: (int, int), q: (int, int)) -> bool {
    under(q, u) && !under(q, v) && tri(u, v, q) >= 0
}

/// Whether the point comes above `q`.
spec fn above(q: (int, int), v: (int, int)) -> int {
    if under(q, v) {
        1
    } else {
        0
    }
}

/// Where none of the first `k` edges falls past a point, they pass the ray from it no more often
/// than the way from their start to their end does.
proof fn lemma_no_fall(p: Seq<(int, int)>, q: (int, int), k: int)
    requires
        0 <= k <= p.len(),
        p.len() > 0,
        forall|i: int| 0 <= i < p.len() ==> !falls(#[trigger] p[i], next(p, i), q),
    ensures
        passings(p, q, k) <= above(
            q,
            if k < p.len() {
                p[k]
            } else {
                p[0]
            },
        ) - above(q, p[0]),
    decreases k,
{
    if k > 0 {
        lemma_no_fall(p, q, k - 1);
        assert(!falls(p[k - 1], next(p, k - 1), q));
    }
}

/// A ring that runs around a point counterclockwise has an edge that falls past it.
pub(crate) proof fn lemma_some_fall(p: Seq<(int, int)>, q: (int, int)) -> (i: int)
    requires
        p.len() > 0,
        winding(p, q) > 0,
    ensures
        0 <= i < p.len(),
        falls(p[i], next(p, i), q),
{
    if forall|i: int| 0 <= i < p.len() ==> !falls(#[trigger] p[i], next(p, i), q) {
        lemma_no_fall(p, q, p.len() as int);
    }
    choose|i: int| 0 <= i < p.len() && falls(#[trigger] p[i], next(p, i), q)
}

/// An edge that falls past a point which is not on it is not level.
proof fn lemma_fall_steep(u: (int, int), v: (int, int), q: (int, int))
    requires
        falls(u, v, q),
        !on(u, v, q),
    ensures
        v.1 < u.1,
        v.1 <= q.1 <= u.1,
{
    if v.1 == u.1 {
        lemma_differences(v.0, u.0, q.1, u.1);
        lemma_differences(v.1, u.1, q.0, u.0);
        lemma_signs(v.0 - u.0, q.1 - u.1);
        lemma_signs(v.1 - u.1, q.0 - u.0);
    }
}

// ---------------------------------------------------------------------------------------------
// The ray meets them
// ---------------------------------------------------------------------------------------------
/// A ray that has met nothing goes on, from as far away as can be.
spec fn unmet(s: Ray<Exact>) -> bool {
    s.m is None ==> s.qx == Exact::neg_infinity_spec() && !s.done
}

/// Casting the ray at an edge forgets nothing that was met.
proof fn lemma_edge_unmet(
    pts: Seq<Pt<Exact>>,
    hx: Exact,
    hy: Exact,
    s: Ray<Exact>,
    p: int,
    n: int,
)
    requires
        unmet(s),
    ensures
        unmet(ray_edge(pts, hx, hy, s, p, n)),
        s.m is Some ==> ray_edge(pts, hx, hy, s, p, n).m is Some,
{
}

/// The ray meets an edge that falls past its start.
proof fn lemma_fall_met(
    pts: Seq<Pt<Exact>>,
    hole: int,
    s: Ray<Exact>,
    p: int,
    n: int,
)
    requires
        moderate_node(pts[hole]),
        moderate_node(pts[p]),
        moderate_node(pts[n]),
        unmet(s),
        ({
            let val = integer();
            let (u, v, q) = (spot(val, pts, p), spot(val, pts, n), spot(val, pts, hole));
            falls(u, v, q) && !on(u, v, q)
        }),
    ensures
        ray_edge(pts, pts[hole].x, pts[hole].y, s, p, n).m is Some,
{
    let val = integer();
    let (u, v, q) = (spot(val, pts, p), spot(val, pts, n), spot(val, pts, hole));
    let (hx, hy) = (pts[hole].x, pts[hole].y);
    lemma_fall_steep(u, v, q);
    lemma_order(hy, pts[p].y);
    lemma_order(pts[p].y, hy);
    lemma_order(pts[n].y, hy);
    lemma_order(hy, pts[n].y);
    lemma_order(pts[n].y, pts[p].y);
    lemma_order(pts[p].y, pts[n].y);
    lemma_hit(pts, hy, p, n);
    let x = ray_hit(pts, hy, p, n);
    let (d, t, f) = (u.1 - v.1, u.1 - q.1, v.0 - u.0);
    assert(x.num == u.0 * d + t * f && x.den == d);
    lemma_differences(v.0, u.0, q.1, u.1);
    lemma_differences(v.1, u.1, q.0, u.0);
    let (a, b) = ((v.0 - u.0) * (q.1 - u.1), (v.1 - u.1) * (q.0 - u.0));
    assert(tri(u, v, q) == a - b);
    assert(a == -(t * f)) by (nonlinear_arith)
        requires
            a == (v.0 - u.0) * (q.1 - u.1),
            t == u.1 - q.1,
            f == v.0 - u.0,
    ;
    assert(b == u.0 * d - q.0 * d) by (nonlinear_arith)
        requires
            b == (v.1 - u.1) * (q.0 - u.0),
            d == u.1 - v.1,
    ;
    assert(x.num <= q.0 * d);
    lemma_order(x, hx);
    lemma_order(hx, x);
    assert(x.num * hx.den == x.num && hx.num * x.den == q.0 * d);
    if s.m is None {
        lemma_order(s.qx, x);
    }
}

/// The ray meets one of the edges if one of them falls past its start.
proof fn lemma_over_met(
    pts: Seq<Pt<Exact>>,
    r: Seq<int>,
    hole: int,
    nodes: Seq<int>,
    s: Ray<Exact>,
    i: int,
)
    requires
        moderate_table(pts),
        is_ring(r, pts.len() as int),
        0 <= hole < pts.len(),
        unmet(s),
        0 <= i < r.len(),
        ({
            let p = spots(integer(), pts, r);
            let q = spot(integer(), pts, hole);
            falls(p[i], next(p, i), q) && !on(p[i], next(p, i), q)
        }),
    ensures
        unmet(ray_over(pts, r, pts[hole].x, pts[hole].y, nodes, s)),
        s.m is Some || nodes.contains(r[i]) ==> ray_over(
            pts,
            r,
            pts[hole].x,
            pts[hole].y,
            nodes,
            s,
        ).m is Some,
    decreases nodes.len(),
{
    let (hx, hy) = (pts[hole].x, pts[hole].y);
    if nodes.len() > 0 {
        let first = nodes.drop_last();
        lemma_over_met(pts, r, hole, first, s, i);
        let t = ray_over(pts, r, hx, hy, first, s);
        let p = nodes.last();
        if nodes.contains(r[i]) && !first.contains(r[i]) {
            let k = choose|k: int| 0 <= k < nodes.len() && nodes[k] == r[i];
            if k < nodes.len() - 1 {
                assert(first[k] == r[i]);
            }
            assert(p == r[i]);
        }
        if !t.done && r.contains(p) {
            let k = r.index_of(p);
            assert(r[k] == p && 0 <= k < r.len());
            assert(0 <= r[k] < pts.len());
            let j = after(k, r.len() as int);
            assert(0 <= r[j] < pts.len());
            lemma_edge_unmet(pts, hx, hy, t, p, r[j]);
            if p == r[i] {
                assert(k == i);
                assert(moderate_node(pts[hole]) && moderate_node(pts[p]) && moderate_node(
                    pts[r[j]],
                ));
                lemma_fall_met(pts, hole, t, p, r[j]);
            }
        } else if p == r[i] {
            assert(r.contains(r[i]));
        }
    }
}

/// The ray meets one of the edges in the first blocks if one of them falls past its start.
proof fn lemma_blocks_met(o: Outline<Exact>, hole: int, i: int, k: int)
    requires
        moderate_table(o.pts),
        is_ring(o.ring, o.pts.len() as int),
        covered(plain_rank(), plain_values(), o),
        0 <= hole < o.pts.len(),
        0 <= i < o.ring.len(),
        ({
            let p = spots(integer(), o.pts, o.ring);
            let q = spot(integer(), o.pts, hole);
            falls(p[i], next(p, i), q) && !on(p[i], next(p, i), q)
        }),
        0 <= k <= o.boxes.len(),
    ensures
        ({
            let s = ray_blocks(o, o.pts[hole].x, o.pts[hole].y, k);
            &&& unmet(s)
            &&& sound(s, o.pts[hole].x)
            &&& k > o.owner[o.ring[i]] ==> s.m is Some
        }),
    decreases k,
{
    let (hx, hy) = (o.pts[hole].x, o.pts[hole].y);
    assert(moderate_node(o.pts[hole]));
    let start = ray_start::<Exact>();
    lemma_order(start.qx, hx);
    assert(edge_covered(plain_rank(), o, i));
    if k > 0 {
        lemma_blocks_met(o, hole, i, k - 1);
        let s = ray_blocks(o, hx, hy, k - 1);
        let h = o.ring[i];
        let j = after(i, o.ring.len() as int);
        let nodes = o.lists[k - 1];
        lemma_over_met(o.pts, o.ring, hole, nodes, s, i);
        lemma_over_sound(o.pts, o.ring, hx, hy, nodes, s);
        if o.owner[h] == k - 1 && s.m is None && ray_skips(o.boxes[k - 1], hx, hy, s.qx) {
            assert(0 <= h < o.pts.len() && 0 <= o.ring[j] < o.pts.len());
            assert(moderate_node(o.pts[h]) && moderate_node(o.pts[o.ring[j]]));
            assert(edge_in(o.boxes[k - 1], o.pts[h], o.pts[o.ring[j]]));
            lemma_edge_skipped(o.pts, o.boxes[k - 1], hx, hy, s, h, o.ring[j]);
            lemma_fall_met(o.pts, hole, s, h, o.ring[j]);
        }
    }
}

/// A node that the ring runs around counterclockwise, and that is not on it, gets connected to the
/// ring: without an index as well as with one whose blocks cover the edges.
pub proof fn lemma_inside_connected(o: Outline<Exact>, hole: int)
    requires
        moderate_table(o.pts),
        is_ring(o.ring, o.pts.len() as int),
        o.boxes.len() == 0 || covered(plain_rank(), plain_values(), o),
        0 <= hole < o.pts.len(),
        off_ring(spots(integer(), o.pts, o.ring), spot(integer(), o.pts, hole)),
        winding(spots(integer(), o.pts, o.ring), spot(integer(), o.pts, hole)) > 0,
    ensures
        bridge(o, hole) is Some,
{
    let p = spots(integer(), o.pts, o.ring);
    let q = spot(integer(), o.pts, hole);
    let (hx, hy) = (o.pts[hole].x, o.pts[hole].y);
    let i = lemma_some_fall(p, q);
    assert(!on(p[i], next(p, i), q));
    if o.boxes.len() == 0 {
        assert(o.ring.contains(o.ring[i]));
        lemma_over_met(o.pts, o.ring, hole, o.ring, ray_start(), i);
    } else {
        assert(edge_covered(plain_rank(), o, i));
        lemma_blocks_met(o, hole, i, o.boxes.len() as int);
    }
    assert(ray_cast(o, hx, hy).m is Some);
}

// ---------------------------------------------------------------------------------------------
// All holes
// ---------------------------------------------------------------------------------------------
/// What is measured along a path of windings.
proof fn lemma_path_winding(
    pts: Seq<Pt<Exact>>,
    r: Seq<int>,
    q: (int, int),
    k: int,
)
    requires
        0 <= k < r.len(),
    ensures
        path_sum(by_winding(q), integer(), pts, r.take(k + 1)) == passings(
            spots(integer(), pts, r),
            q,
            k,
        ),
    decreases k,
{
    let p = spots(integer(), pts, r);
    let s = r.take(k + 1);
    if k > 0 {
        lemma_path_winding(pts, r, q, k - 1);
        assert(s.drop_last() =~= r.take(k));
        assert(next(p, k - 1) == p[k]);
        assert(s[s.len() - 2] == r[k - 1] && s.last() == r[k]);
    }
}

/// What is measured of windings around a ring is how often it runs around the point.
pub(crate) proof fn lemma_ring_winding(pts: Seq<Pt<Exact>>, r: Seq<int>, q: (int, int))
    requires
        r.len() > 0,
    ensures
        ring_sum(by_winding(q), integer(), pts, r) == winding(spots(integer(), pts, r), q),
{
    let n = r.len() as int;
    let p = spots(integer(), pts, r);
    lemma_path_winding(pts, r, q, n - 1);
    assert(r.take(n) =~= r);
    assert(next(p, n - 1) == p[0]);
    assert(passings(p, q, n) == passings(p, q, n - 1) + passes(p[n - 1], next(p, n - 1), q));
}

/// Points drawn from integer data have coordinates of moderate size.
pub(crate) proof fn lemma_drawn_moderate(pts: Seq<Pt<Exact>>, data: Seq<Exact>, dim: int)
    requires
        integral(data),
        dim >= 2,
        drawn(pts, data, dim),
    ensures
        moderate_table(pts),
        valued(pts, plain_values()),
{
    assert forall|h: int| 0 <= h < pts.len() implies moderate_node(#[trigger] pts[h])
        && plain_values().contains(pts[h].x) && plain_values().contains(pts[h].y) by {
        lemma_vertex_coordinates(data, dim, pts[h].i as int);
    }
}

/// The holes of the polygon, in the order in which they are merged.
pub open spec fn merging_order(data: Seq<Exact>, holes: Seq<usize>, dim: int) -> Seq<Seq<int>> {
    let q = queued(outer_ring(data, holes, dim).pts, data, dim, holes, holes.len() as int);
    in_order(q.pts, q.holes)
}

/// The outline of the polygon with the first `k` holes merged into it.
pub open spec fn merged_outline(
    data: Seq<Exact>,
    holes: Seq<usize>,
    dim: int,
    k: int,
) -> Outline<Exact> {
    let l = outer_ring(data, holes, dim);
    let q = queued(l.pts, data, dim, holes, holes.len() as int);
    merged_all(
        outline(q.pts, l.ring, data.len() as int / dim),
        merging_order(data, holes, dim),
        k,
    )
}

/// Where the first node of hole number `j`, in the order in which they are merged, is.
pub open spec fn hole_spot(data: Seq<Exact>, holes: Seq<usize>, dim: int, j: int) -> (int, int) {
    spot(
        integer(),
        merged_outline(data, holes, dim, 0).pts,
        merging_order(data, holes, dim)[j][0],
    )
}

/// The hole is inside the polygon, when its turn comes: it is on no edge of the ring that the holes
/// before it have been merged into, and the outer ring runs around it more often than they do.
pub open spec fn hole_inside(data: Seq<Exact>, holes: Seq<usize>, dim: int, j: int) -> bool {
    let o = merged_outline(data, holes, dim, 0);
    let w = merged_outline(data, holes, dim, j);
    let s = merging_order(data, holes, dim);
    let q = hole_spot(data, holes, dim, j);
    &&& off_ring(spots(integer(), w.pts, w.ring), q)
    &&& left_sum(
        by_winding(q),
        corners(integer(), data, dim),
        0,
        outer_count(holes, data.len() as int / dim),
    ) + rings_sum(by_winding(q), integer(), o.pts, s, j) > 0
}

/// Every hole of a polygon with integer coordinates that is inside gets connected: what is left in
/// the end is a single ring.
#[verifier::spinoff_prover]
pub proof fn lemma_holes_connected(data: Seq<Exact>, holes: Seq<usize>, dim: int, k: int)
    requires
        is_flat(data, holes, dim),
        integral(data),
        outer_ring(data, holes, dim).ring.len() > 2,
        0 <= k <= merging_order(data, holes, dim).len(),
        forall|j: int| 0 <= j < k ==> #[trigger] hole_inside(data, holes, dim, j),
    ensures
        all_connected(
            merged_outline(data, holes, dim, 0),
            merging_order(data, holes, dim),
            k,
        ),
    decreases k,
{
    if k > 0 {
        lemma_holes_connected(data, holes, dim, k - 1);
        lemma_next_connected(data, holes, dim, k - 1);
        lemma_one_more(
            merged_outline(data, holes, dim, 0),
            merging_order(data, holes, dim),
            k - 1,
        );
    }
}

/// One more hole is connected.
proof fn lemma_one_more(o: Outline<Exact>, s: Seq<Seq<int>>, k: int)
    requires
        all_connected(o, s, k),
        hole_connected(o, s, k),
    ensures
        all_connected(o, s, k + 1),
{
}

/// The hole whose turn comes gets connected if it is inside.
#[verifier::spinoff_prover]
proof fn lemma_next_connected(data: Seq<Exact>, holes: Seq<usize>, dim: int, j: int)
    requires
        is_flat(data, holes, dim),
        integral(data),
        outer_ring(data, holes, dim).ring.len() > 2,
        0 <= j < merging_order(data, holes, dim).len(),
        hole_inside(data, holes, dim, j),
        all_connected(
            merged_outline(data, holes, dim, 0),
            merging_order(data, holes, dim),
            j,
        ),
    ensures
        hole_connected(
            merged_outline(data, holes, dim, 0),
            merging_order(data, holes, dim),
            j,
        ),
{
    let val = integer();
    let count = data.len() as int / dim;
    let outer = outer_count(holes, count);
    let l = outer_ring(data, holes, dim);
    let q = queued(l.pts, data, dim, holes, holes.len() as int);
    let o = merged_outline(data, holes, dim, 0);
    let s = merging_order(data, holes, dim);
    let w = merged_outline(data, holes, dim, j);
    let z = hole_spot(data, holes, dim, j);
    let m = by_winding(z);
    let n = q.pts.len() as int;
    lemma_by_winding(z);
    lemma_outer_drawn(data, holes, dim);
    lemma_integral(data, holes, dim);
    assert(sign_found(val, data, dim, 0, outer));
    let none = Seq::<Pt<Exact>>::empty();
    lemma_listed_sum(m, val, none, data, holes, dim, 0, outer, true);
    lemma_queued_sum(m, val, l.pts, data, holes, dim, holes.len() as int);
    lemma_listed_ring(none, data, dim, 0, outer, true);
    lemma_queued_rings(l.pts, data, dim, holes, holes.len() as int, l.ring);
    lemma_in_order_apart(q.pts, l.ring, q.holes, n);
    assert(o.ring == l.ring && o.pts == q.pts);
    assert(is_ring(o.ring, n)) by {
        assert forall|k: int| 0 <= k < l.ring.len() implies 0 <= #[trigger] l.ring[k] < n by {}
    }
    assert(rings_apart(o.ring, s, n));
    assert forall|i: int| 0 <= i < s.len() implies in_table(#[trigger] s[i], n) && s[i].len()
        > 0 by {
        assert(is_ring(s[i], n));
    }
    lemma_merged_all_ring(o, s, j);
    lemma_merged_all_sum(m, val, o, s, j, data, holes, dim);
    assert(w == merged_all(o, s, j));
    lemma_drawn_moderate(w.pts, data, dim);
    lemma_drawn_moderate(o.pts, data, dim);
    lemma_ring_same(m, val, l.pts, o.pts, l.ring);
    lemma_ring_winding(w.pts, w.ring, z);
    let h = s[j][0];
    assert(0 <= h < n) by {
        assert(in_table(s[j], n));
    }
    assert(w.pts[h] == o.pts[h]);
    lemma_index_kept(data, holes, dim, j);
    lemma_inside_connected(w, h);
    reveal(hole_connected);
}

/// Whatever holes have been merged, there is no index, or its boxes cover the edges of the ring.
pub(crate) proof fn lemma_index_kept(data: Seq<Exact>, holes: Seq<usize>, dim: int, j: int)
    requires
        moderate_table(merged_outline(data, holes, dim, 0).pts),
        rings_apart(
            merged_outline(data, holes, dim, 0).ring,
            merging_order(data, holes, dim),
            merged_outline(data, holes, dim, 0).pts.len() as int,
        ),
        is_ring(
            merged_outline(data, holes, dim, 0).ring,
            merged_outline(data, holes, dim, 0).pts.len() as int,
        ),
        0 <= j <= merging_order(data, holes, dim).len(),
    ensures
        ({
            let w = merged_outline(data, holes, dim, j);
            w.boxes.len() == 0 || covered(plain_rank(), plain_values(), w)
        }),
{
    let count = data.len() as int / dim;
    let l = outer_ring(data, holes, dim);
    let o = merged_outline(data, holes, dim, 0);
    let s = merging_order(data, holes, dim);
    let n = o.pts.len() as int;
    let q = queued(l.pts, data, dim, holes, holes.len() as int);
    assert(o.ring == l.ring && o.pts == q.pts);
    if count >= BLOCK_INDEX_MIN_NODES {
        lemma_plain_ranked();
        assert forall|i: int| 0 <= i < s.len() implies is_ring(#[trigger] s[i], n) && apart_from(
            o.ring,
            s[i],
        ) by {}
        assert(valued(q.pts, plain_values())) by {
            assert forall|h: int| 0 <= h < q.pts.len() implies plain_values().contains(
                (#[trigger] q.pts[h]).x,
            ) && plain_values().contains(q.pts[h].y) by {
                assert(moderate_node(q.pts[h]));
            }
        }
        lemma_boxes_cover(plain_rank(), plain_values(), q.pts, l.ring, count, s, j);
    } else {
        lemma_bare_merged(o, s, j);
    }
}

/// Merging holes makes no index.
proof fn lemma_bare_merged(o: Outline<Exact>, q: Seq<Seq<int>>, k: int)
    requires
        o.boxes.len() == 0,
        0 <= k,
    ensures
        merged_all(o, q, k).boxes.len() == 0,
    decreases k,
{
    if k > 0 {
        lemma_bare_merged(o, q, k - 1);
    }
}

} // verus!
