//! The node to which a hole is connected is seen from the hole.
use vstd::prelude::*;
use crate::areas::{abs, spot, tri};
use crate::connecting::{
    hole_spot, lemma_index_kept, lemma_inside_connected, merged_outline, merging_order,
};
use crate::covering::{covered, edge_covered};
use crate::diagonals::{in_angle, lemma_off_seen, lemma_once_around, no_three_in_line, off_ring};
use crate::exact::{whole, Exact};
use crate::exact_areas::{integer, integral, lemma_whole};
use crate::exact_diagonals::{lemma_corner, lemma_turn_found};
use crate::exact_polygons::{plain_rank, plain_values};
use crate::exact_simple::{lemma_moderate_places, lemma_outer_read, outer_corners};
use crate::fresh_index::{
    edge_in, lemma_between, lemma_edge_skipped, lemma_hit, lemma_node_skipped, lemma_order,
    lemma_transitive, moderate_node, moderate_table, value,
};
use crate::geometry::zero;
use crate::hole_model::{
    bridge, in_reach, lean_blocks, lean_node, lean_over, lean_skips, ray_blocks, ray_cast, ray_edge,
    ray_hit, ray_over, ray_skips, ray_start, Lean, Outline, Ray,
};
use crate::holes_apart::{
    leftward, lemma_before_merging, lemma_bridge_leftward, lemma_edge_leftward, lemma_level,
};
use crate::model::{after, area, before, coincide, locally_inside_spec, succ, Pt};
use crate::rings::is_ring;
use crate::scalar::Scalar;
use crate::scaling_holes::{lemma_reach_found, lemma_tan, reached};
use crate::segments::{affine, apart, lemma_differences, lemma_in_box, lemma_signs, lemma_tri, on};
use crate::sight::{
    edge_apart, falls_past, general, in_reach_of, lemma_level_side, lemma_seen_faced,
    lemma_sees_level, lemma_sees_lowest, lemma_zoom_inside, lemma_zoom_sees, lower_than, nearest,
    sees, within_edge,
};
use crate::simple::{lemma_reversed_at, lemma_seen_at, off_edge, place, seen_at, simple};
use crate::simple_polygons::spots;
use crate::tiling::{lemma_reversed_winding, lemma_turned_winding};
use crate::triangulation::{is_flat, outer_ring};
use crate::weak::{bent, faces, lemma_faces_once, scattered, weakly_left, weakly_simple};
use crate::weak_joins::lemma_simple_weak;
use crate::weak_slices::lemma_faces_angle;
use crate::winding::{lemma_apart_swapped, next, prev, winding};
use crate::zooming::{
    lemma_zoom_order, lemma_zoom_tri, lemma_zoom_under, lemma_zoomed_at, zoom, zoomed,
};

verus! {

// ---------------------------------------------------------------------------------------------
// Where the ray meets the ring
// ---------------------------------------------------------------------------------------------
/// The numerator of the place where an edge is at the height of a point.
spec fn hit_num(u: (int, int), v: (int, int), q: (int, int)) -> int {
    u.0 * (u.1 - v.1) + (u.1 - q.1) * (v.0 - u.0)
}

/// Which side of an edge a point is on, told by where the edge is at its height.
proof fn lemma_hit_side(u: (int, int), v: (int, int), q: (int, int), d: int, x: int)
    requires
        d > 0,
    ensures
        tri(u, v, q) == q.0 * (u.1 - v.1) - hit_num(u, v, q),
        tri(zoom(u, d), zoom(v, d), (x, d * q.1)) == d * (x * (u.1 - v.1) - d * hit_num(u, v, q)),
{
    let (e, t, f) = (u.1 - v.1, u.1 - q.1, v.0 - u.0);
    lemma_differences(v.0, u.0, q.1, u.1);
    lemma_differences(v.1, u.1, q.0, u.0);
    assert((v.0 - u.0) * (q.1 - u.1) == -(t * f)) by (nonlinear_arith)
        requires
            t == u.1 - q.1,
            f == v.0 - u.0,
    ;
    assert((v.1 - u.1) * (q.0 - u.0) == u.0 * e - q.0 * e) by (nonlinear_arith)
        requires
            e == u.1 - v.1,
    ;
    let (a, b, p) = (zoom(u, d), zoom(v, d), (x, d * q.1));
    lemma_differences(b.0, a.0, p.1, a.1);
    lemma_differences(b.1, a.1, p.0, a.0);
    assert(b.0 - a.0 == d * f && p.1 - a.1 == -(d * t) && b.1 - a.1 == -(d * e)) by (
    nonlinear_arith)
        requires
            a == (d * u.0, d * u.1),
            b == (d * v.0, d * v.1),
            p.1 == d * q.1,
            e == u.1 - v.1,
            t == u.1 - q.1,
            f == v.0 - u.0,
    ;
    let h = u.0 * e + t * f;
    assert((d * f) * (-(d * t)) == -(d * (d * (t * f)))) by (nonlinear_arith);
    assert((-(d * e)) * (x - d * u.0) == d * (d * (u.0 * e)) - d * (x * e)) by (nonlinear_arith);
    assert(d * (x * e - d * h) == d * (x * e) - d * (d * h)) by (nonlinear_arith);
    assert(d * (d * h) == d * (d * (u.0 * e)) + d * (d * (t * f))) by (nonlinear_arith)
        requires
            h == u.0 * e + t * f,
    ;
}

/// The edge that starts at place `k` does not fall to the right of where the ray has met the ring,
/// up to its start.
spec fn passed_by(pts: Seq<Pt<Exact>>, r: Seq<int>, hole: int, qx: Exact, k: int) -> bool {
    let p = spots(integer(), pts, r);
    let q = spot(integer(), pts, hole);
    falls_past(p[k], next(p, k), q.1) && tri(p[k], next(p, k), q) > 0 ==> !qx.less_spec(
        ray_hit(pts, pts[hole].y, r[k], succ(r, k)),
    )
}

/// No edge falls to the right of where the ray has met the ring, up to its start.
spec fn met_nearest(pts: Seq<Pt<Exact>>, r: Seq<int>, hole: int, qx: Exact) -> bool {
    forall|k: int| 0 <= k < r.len() ==> #[trigger] passed_by(pts, r, hole, qx, k)
}

/// The ray has met the edge that starts at place `e`.
spec fn met_at(pts: Seq<Pt<Exact>>, r: Seq<int>, hole: int, s: Ray<Exact>, e: int) -> bool {
    let p = spots(integer(), pts, r);
    let q = spot(integer(), pts, hole);
    &&& 0 <= e < r.len()
    &&& falls_past(p[e], next(p, e), q.1)
    &&& tri(p[e], next(p, e), q) > 0
    &&& s.qx == ray_hit(pts, pts[hole].y, r[e], succ(r, e))
    &&& s.m == Some(
        if p[e].0 < next(p, e).0 {
            r[e]
        } else {
            succ(r, e)
        },
    )
}

/// The ray has met nothing, or the edge that starts at place `e`.
spec fn ray_state(pts: Seq<Pt<Exact>>, r: Seq<int>, hole: int, s: Ray<Exact>, e: int) -> bool {
    &&& leftward(pts, pts[hole].x, s)
    &&& value(s.qx)
    &&& s.qx.less_spec(pts[hole].x)
    &&& s.m is None ==> s.qx == Exact::neg_infinity_spec()
    &&& s.m is Some ==> met_at(pts, r, hole, s, e) && s.qx.den > 0
}

/// The ray cast at one more edge.
#[verifier::spinoff_prover]
proof fn lemma_one_edge(
    pts: Seq<Pt<Exact>>,
    r: Seq<int>,
    hole: int,
    s: Ray<Exact>,
    j: int,
    e: int,
) -> (f: int)
    requires
        moderate_table(pts),
        is_ring(r, pts.len() as int),
        0 <= hole < pts.len(),
        off_ring(spots(integer(), pts, r), spot(integer(), pts, hole)),
        0 <= j < r.len(),
        ray_state(pts, r, hole, s, e),
    ensures
        ({
            let t = ray_edge(pts, pts[hole].x, pts[hole].y, s, r[j], succ(r, j));
            &&& ray_state(pts, r, hole, t, f)
            &&& passed_by(pts, r, hole, t.qx, j)
            &&& forall|k: int|
                0 <= k < r.len() && #[trigger] passed_by(pts, r, hole, s.qx, k) ==> passed_by(
                    pts,
                    r,
                    hole,
                    t.qx,
                    k,
                )
        }),
{
    let n = r.len() as int;
    let p = spots(integer(), pts, r);
    let q = spot(integer(), pts, hole);
    let (hx, hy) = (pts[hole].x, pts[hole].y);
    let (g, h) = (r[j], succ(r, j));
    let l = after(j, n);
    assert(0 <= r[j] < pts.len() && 0 <= r[l] < pts.len());
    assert(moderate_node(pts[hole]) && moderate_node(pts[g]) && moderate_node(pts[h]));
    let (u, v) = (p[j], next(p, j));
    assert(!on(p[j], next(p, j), q));
    lemma_edge_leftward(pts, hole, s, g, h);
    let t = ray_edge(pts, hx, hy, s, g, h);
    assert(hx == whole(q.0) && hy == whole(q.1) && pts[g].x == whole(u.0) && pts[g].y == whole(u.1)
        && pts[h].x == whole(v.0) && pts[h].y == whole(v.1));
    lemma_order(hy, pts[g].y);
    lemma_order(pts[g].y, hy);
    lemma_order(pts[h].y, hy);
    lemma_order(hy, pts[h].y);
    lemma_order(pts[h].y, pts[g].y);
    lemma_order(pts[g].y, pts[h].y);
    lemma_order(pts[g].x, pts[h].x);
    lemma_whole(q.0, v.0);
    lemma_whole(q.1, v.1);
    lemma_tri(u, v, v);
    assert(on(u, v, v));
    let past = falls_past(u, v, q.1);
    let x = ray_hit(pts, hy, g, h);
    if past {
        lemma_hit(pts, hy, g, h);
        assert(x.num == hit_num(u, v, q) && x.den == u.1 - v.1);
        lemma_hit_side(u, v, q, 1, 0);
        lemma_order(x, hx);
        lemma_order(hx, x);
        lemma_order(s.qx, x);
        lemma_order(x, s.qx);
        assert(x.num * hx.den == x.num && hx.num * x.den == q.0 * (u.1 - v.1));
        if tri(u, v, q) == 0 {
            lemma_level(u, v, q);
        }
    }
    if t == s {
        e
    } else {
        assert(t.qx == x);
        lemma_order(x, x);
        assert forall|k: int|
            0 <= k < n && #[trigger] passed_by(pts, r, hole, s.qx, k) implies passed_by(
            pts,
            r,
            hole,
            t.qx,
            k,
        ) by {
            if falls_past(p[k], next(p, k), q.1) && tri(p[k], next(p, k), q) > 0 {
                let i = after(k, n);
                assert(0 <= r[k] < pts.len() && 0 <= r[i] < pts.len());
                assert(moderate_node(pts[r[k]]) && moderate_node(pts[r[i]]));
                lemma_hit(pts, hy, r[k], r[i]);
                let y = ray_hit(pts, hy, r[k], succ(r, k));
                lemma_transitive(y, s.qx, x);
                lemma_order(x, y);
                lemma_order(y, x);
            }
        }
        j
    }
}

/// What the ray has met once it is cast at more edges.
proof fn lemma_over_state(
    pts: Seq<Pt<Exact>>,
    r: Seq<int>,
    hole: int,
    nodes: Seq<int>,
    s: Ray<Exact>,
    e: int,
) -> (f: int)
    requires
        moderate_table(pts),
        is_ring(r, pts.len() as int),
        0 <= hole < pts.len(),
        off_ring(spots(integer(), pts, r), spot(integer(), pts, hole)),
        ray_state(pts, r, hole, s, e),
    ensures
        ({
            let t = ray_over(pts, r, pts[hole].x, pts[hole].y, nodes, s);
            &&& ray_state(pts, r, hole, t, f)
            &&& forall|k: int|
                #![trigger passed_by(pts, r, hole, t.qx, k)]
                0 <= k < r.len() && (nodes.contains(r[k]) || passed_by(pts, r, hole, s.qx, k))
                    ==> passed_by(pts, r, hole, t.qx, k)
        }),
    decreases nodes.len(),
{
    let (hx, hy) = (pts[hole].x, pts[hole].y);
    if nodes.len() == 0 {
        e
    } else {
        let first = nodes.drop_last();
        let g = lemma_over_state(pts, r, hole, first, s, e);
        let p = nodes.last();
        let t = ray_over(pts, r, hx, hy, first, s);
        let w = ray_over(pts, r, hx, hy, nodes, s);
        if r.contains(p) {
            let j = r.index_of(p);
            assert(r[j] == p && 0 <= j < r.len());
            let f = lemma_one_edge(pts, r, hole, t, j, g);
            assert forall|k: int|
                #![trigger passed_by(pts, r, hole, w.qx, k)]
                0 <= k < r.len() && (nodes.contains(r[k]) || passed_by(
                    pts,
                    r,
                    hole,
                    s.qx,
                    k,
                )) implies passed_by(pts, r, hole, w.qx, k) by {
                if k != j {
                    lemma_earlier(nodes, r[k]);
                    assert(passed_by(pts, r, hole, t.qx, k));
                }
            }
            f
        } else {
            assert forall|k: int|
                #![trigger passed_by(pts, r, hole, w.qx, k)]
                0 <= k < r.len() && (nodes.contains(r[k]) || passed_by(
                    pts,
                    r,
                    hole,
                    s.qx,
                    k,
                )) implies passed_by(pts, r, hole, w.qx, k) by {
                assert(r.contains(r[k]));
                lemma_earlier(nodes, r[k]);
            }
            g
        }
    }
}

/// What is in a sequence, and is not its last item, comes before that.
proof fn lemma_earlier(nodes: Seq<int>, x: int)
    requires
        nodes.len() > 0,
    ensures
        nodes.contains(x) && x != nodes.last() ==> nodes.drop_last().contains(x),
{
    if nodes.contains(x) && x != nodes.last() {
        let k = choose|k: int| 0 <= k < nodes.len() && nodes[k] == x;
        assert(nodes.drop_last()[k] == x);
    }
}

/// What the ray has met of the edges in the first `b` blocks.
proof fn lemma_blocks_state(o: Outline<Exact>, hole: int, b: int) -> (f: int)
    requires
        moderate_table(o.pts),
        covered(plain_rank(), plain_values(), o),
        0 <= hole < o.pts.len(),
        off_ring(spots(integer(), o.pts, o.ring), spot(integer(), o.pts, hole)),
        0 <= b <= o.boxes.len(),
    ensures
        ({
            let s = ray_blocks(o, o.pts[hole].x, o.pts[hole].y, b);
            &&& ray_state(o.pts, o.ring, hole, s, f)
            &&& forall|k: int|
                #![trigger passed_by(o.pts, o.ring, hole, s.qx, k)]
                0 <= k < o.ring.len() && o.owner[o.ring[k]] < b ==> passed_by(
                    o.pts,
                    o.ring,
                    hole,
                    s.qx,
                    k,
                )
        }),
    decreases b,
{
    let (hx, hy) = (o.pts[hole].x, o.pts[hole].y);
    assert(moderate_node(o.pts[hole]));
    if b == 0 {
        lemma_order(ray_start::<Exact>().qx, hx);
        assert forall|k: int| 0 <= k < o.ring.len() implies o.owner[#[trigger] o.ring[k]] >= 0 by {
            assert(edge_covered(plain_rank(), o, k));
        }
        0
    } else {
        let e = lemma_blocks_state(o, hole, b - 1);
        let s = ray_blocks(o, hx, hy, b - 1);
        let t = ray_blocks(o, hx, hy, b);
        let nodes = o.lists[b - 1];
        if ray_skips(o.boxes[b - 1], hx, hy, s.qx) {
            assert forall|k: int|
                #![trigger passed_by(o.pts, o.ring, hole, t.qx, k)]
                0 <= k < o.ring.len() && o.owner[o.ring[k]] < b implies passed_by(
                o.pts,
                o.ring,
                hole,
                t.qx,
                k,
            ) by {
                if o.owner[o.ring[k]] == b - 1 {
                    let h = o.ring[k];
                    let j = after(k, o.ring.len() as int);
                    assert(edge_covered(plain_rank(), o, k));
                    assert(0 <= h < o.pts.len() && 0 <= o.ring[j] < o.pts.len());
                    assert(moderate_node(o.pts[h]) && moderate_node(o.pts[o.ring[j]]));
                    assert(edge_in(o.boxes[b - 1], o.pts[h], o.pts[o.ring[j]]));
                    lemma_edge_skipped(o.pts, o.boxes[b - 1], hx, hy, s, h, o.ring[j]);
                    lemma_one_edge(o.pts, o.ring, hole, s, k, e);
                }
            }
            e
        } else {
            let f = lemma_over_state(o.pts, o.ring, hole, nodes, s, e);
            assert forall|k: int|
                #![trigger passed_by(o.pts, o.ring, hole, t.qx, k)]
                0 <= k < o.ring.len() && o.owner[o.ring[k]] < b implies passed_by(
                o.pts,
                o.ring,
                hole,
                t.qx,
                k,
            ) by {
                assert(edge_covered(plain_rank(), o, k));
                if o.owner[o.ring[k]] < b - 1 {
                    assert(passed_by(o.pts, o.ring, hole, s.qx, k));
                }
            }
            f
        }
    }
}

/// What the ray cast at a ring meets, with an index or without.
proof fn lemma_cast_state(o: Outline<Exact>, hole: int) -> (e: int)
    requires
        moderate_table(o.pts),
        is_ring(o.ring, o.pts.len() as int),
        o.boxes.len() == 0 || covered(plain_rank(), plain_values(), o),
        0 <= hole < o.pts.len(),
        off_ring(spots(integer(), o.pts, o.ring), spot(integer(), o.pts, hole)),
    ensures
        ({
            let s = ray_cast(o, o.pts[hole].x, o.pts[hole].y);
            &&& ray_state(o.pts, o.ring, hole, s, e)
            &&& met_nearest(o.pts, o.ring, hole, s.qx)
        }),
{
    let (hx, hy) = (o.pts[hole].x, o.pts[hole].y);
    let s = ray_cast(o, hx, hy);
    assert(moderate_node(o.pts[hole]));
    if o.boxes.len() == 0 {
        lemma_order(ray_start::<Exact>().qx, hx);
        let e = lemma_over_state(o.pts, o.ring, hole, o.ring, ray_start(), 0);
        assert forall|k: int| 0 <= k < o.ring.len() implies #[trigger] passed_by(
            o.pts,
            o.ring,
            hole,
            s.qx,
            k,
        ) by {
            assert(o.ring.contains(o.ring[k]));
        }
        e
    } else {
        let e = lemma_blocks_state(o, hole, o.boxes.len() as int);
        assert forall|k: int| 0 <= k < o.ring.len() implies #[trigger] passed_by(
            o.pts,
            o.ring,
            hole,
            s.qx,
            k,
        ) by {
            assert(edge_covered(plain_rank(), o, k));
        }
        e
    }
}

// ---------------------------------------------------------------------------------------------
// The nodes in reach
// ---------------------------------------------------------------------------------------------
/// The tangent of the angle under which a node is seen.
spec fn tan_of(pts: Seq<Pt<Exact>>, hole: int, p: int) -> Exact {
    let (h, a) = (pts[hole], pts[p]);
    h.y.minus_spec(a.y).magnitude_spec().over_spec(h.x.minus_spec(a.x))
}

/// A node in reach lies to the left, and its tangent can be compared.
proof fn lemma_reach_left(
    pts: Seq<Pt<Exact>>,
    hole: int,
    qx: Exact,
    m0: int,
    p: int,
)
    requires
        moderate_node(pts[hole]),
        moderate_node(pts[m0]),
        moderate_node(pts[p]),
        value(qx),
        qx.den > 0,
    ensures
        ({
            let val = integer();
            let (h, m, a) = (spot(val, pts, hole), spot(val, pts, m0), spot(val, pts, p));
            &&& in_reach(pts, hole, qx, m0, p) <==> m.0 <= a.0 < h.0 && reached(h, m, a, qx)
            &&& in_reach(pts, hole, qx, m0, p) ==> value(tan_of(pts, hole, p)) && tan_of(
                pts,
                hole,
                p,
            ).num == abs(h.1 - a.1) && tan_of(pts, hole, p).den == h.0 - a.0
        }),
{
    let val = integer();
    let (h, m, a) = (spot(val, pts, hole), spot(val, pts, m0), spot(val, pts, p));
    assert(pts[hole].x == whole(h.0) && pts[hole].y == whole(h.1) && pts[m0].x == whole(m.0)
        && pts[m0].y == whole(m.1) && pts[p].x == whole(a.0) && pts[p].y == whole(a.1));
    lemma_order(pts[p].x, pts[hole].x);
    lemma_order(pts[hole].x, pts[p].x);
    lemma_order(pts[m0].x, pts[p].x);
    lemma_order(pts[p].x, pts[m0].x);
    lemma_reach_found(h, m, a, qx);
    if a.0 < h.0 {
        lemma_tan(h, a);
    }
}

/// The products that tell what is in reach are the sides of the triangle, magnified.
#[verifier::spinoff_prover]
proof fn lemma_reached_sides(h: (int, int), m: (int, int), a: (int, int), q: Exact)
    requires
        q.den > 0,
        q.num < h.0 * q.den,
        m.1 != h.1,
    ensures
        ({
            let d = q.den as int;
            reached(h, m, a, q) <==> in_reach_of(
                (q.num as int, d * h.1),
                zoom(h, d),
                zoom(m, d),
                zoom(a, d),
            )
        }),
{
    let d = q.den as int;
    let x = (q.num as int, d * h.1);
    let (zh, zm, za) = (zoom(h, d), zoom(m, d), zoom(a, d));
    let (t, s, f, g) = (h.1 - a.1, m.1 - a.1, h.0 - a.0, m.0 - a.0);
    let e = q.num - a.0 * d;
    lemma_zoom_order(d, h.1, m.1);
    lemma_zoom_order(d, m.1, h.1);
    // x and h, seen from a
    lemma_tri(x, zh, za);
    lemma_tri(zh, x, za);
    lemma_tri(za, x, zh);
    lemma_differences(x.0, za.0, zh.1, za.1);
    lemma_differences(x.1, za.1, zh.0, za.0);
    assert(x.0 - za.0 == e && zh.1 - za.1 == d * t && x.1 - za.1 == d * t && zh.0 - za.0 == d * f)
        by (nonlinear_arith)
        requires
            x == (q.num as int, d * h.1),
            za == (d * a.0, d * a.1),
            zh == (d * h.0, d * h.1),
            e == q.num - a.0 * d,
            t == h.1 - a.1,
            f == h.0 - a.0,
    ;
    assert(e * (d * t) - (d * t) * (d * f) == d * (e * t - (f * t) * d)) by (nonlinear_arith);
    lemma_signs(d, e * t - (f * t) * d);
    assert(tri(za, x, zh) == d * (e * t - (f * t) * d));
    // h and m, seen from a
    lemma_zoom_tri(d, h, m, a);
    lemma_zoom_tri(d, m, h, a);
    lemma_tri(h, m, a);
    lemma_tri(m, h, a);
    lemma_tri(a, h, m);
    lemma_differences(h.0, a.0, m.1, a.1);
    lemma_differences(h.1, a.1, m.0, a.0);
    assert(t * g == g * t) by (nonlinear_arith);
    assert(tri(a, h, m) == f * s - g * t);
    // m and x, seen from a
    lemma_tri(zm, x, za);
    lemma_tri(x, zm, za);
    lemma_tri(za, zm, x);
    lemma_differences(zm.0, za.0, x.1, za.1);
    lemma_differences(zm.1, za.1, x.0, za.0);
    assert(zm.0 - za.0 == d * g && zm.1 - za.1 == d * s) by (nonlinear_arith)
        requires
            za == (d * a.0, d * a.1),
            zm == (d * m.0, d * m.1),
            g == m.0 - a.0,
            s == m.1 - a.1,
    ;
    assert((d * g) * (d * t) - (d * s) * e == d * ((g * t) * d - e * s)) by (nonlinear_arith);
    lemma_signs(d, (g * t) * d - e * s);
    assert(tri(za, zm, x) == d * ((g * t) * d - e * s));
}

/// The nearer of two nodes to the level, told by their tangents.
proof fn lemma_tangents(h: (int, int), m: (int, int), a: (int, int), b: (int, int))
    requires
        a.0 < h.0,
        b.0 < h.0,
        m.1 != h.1,
        m.1 > h.1 ==> a.1 >= h.1 && b.1 >= h.1,
        m.1 < h.1 ==> a.1 <= h.1 && b.1 <= h.1,
    ensures
        lower_than(h, m, b, a) <==> abs(h.1 - b.1) * (h.0 - a.0) < abs(h.1 - a.1) * (h.0 - b.0),
        tri(h, a, b) == 0 <==> abs(h.1 - b.1) * (h.0 - a.0) == abs(h.1 - a.1) * (h.0 - b.0),
{
    lemma_differences(a.0, h.0, b.1, h.1);
    lemma_differences(a.1, h.1, b.0, h.0);
    let (f, g) = (h.0 - a.0, h.0 - b.0);
    let (s, t) = (a.1 - h.1, b.1 - h.1);
    assert((a.0 - h.0) * (b.1 - h.1) == -(t * f)) by (nonlinear_arith)
        requires
            f == h.0 - a.0,
            t == b.1 - h.1,
    ;
    assert((a.1 - h.1) * (b.0 - h.0) == -(s * g)) by (nonlinear_arith)
        requires
            g == h.0 - b.0,
            s == a.1 - h.1,
    ;
    assert(tri(h, a, b) == s * g - t * f);
    lemma_signs(t, f);
    lemma_signs(s, g);
}

/// Of the first `j` nodes that are in reach, one under the smallest angle; the one at place `c` is.
proof fn lemma_lowest_angle(
    pts: Seq<Pt<Exact>>,
    r: Seq<int>,
    hole: int,
    qx: Exact,
    m0: int,
    j: int,
    c: int,
) -> (i: int)
    requires
        moderate_table(pts),
        is_ring(r, pts.len() as int),
        0 <= hole < pts.len(),
        0 <= m0 < pts.len(),
        value(qx),
        qx.den > 0,
        0 <= j <= r.len(),
        0 <= c < r.len(),
        in_reach(pts, hole, qx, m0, r[c]),
    ensures
        0 <= i < r.len(),
        in_reach(pts, hole, qx, m0, r[i]),
        forall|k: int|
            0 <= k < j && in_reach(pts, hole, qx, m0, #[trigger] r[k]) ==> !tan_of(
                pts,
                hole,
                r[k],
            ).less_spec(tan_of(pts, hole, r[i])),
    decreases j,
{
    if j == 0 {
        c
    } else {
        let i = lemma_lowest_angle(pts, r, hole, qx, m0, j - 1, c);
        let b = j - 1;
        assert(0 <= r[i] < pts.len() && 0 <= r[b] < pts.len());
        assert(moderate_node(pts[hole]) && moderate_node(pts[m0]) && moderate_node(pts[r[i]])
            && moderate_node(pts[r[b]]));
        lemma_reach_left(pts, hole, qx, m0, r[i]);
        lemma_reach_left(pts, hole, qx, m0, r[b]);
        let (t, u) = (tan_of(pts, hole, r[i]), tan_of(pts, hole, r[b]));
        if in_reach(pts, hole, qx, m0, r[b]) && u.less_spec(t) {
            lemma_order(u, t);
            lemma_order(t, u);
            lemma_order(u, u);
            assert forall|k: int|
                0 <= k < j && in_reach(pts, hole, qx, m0, #[trigger] r[k]) implies !tan_of(
                pts,
                hole,
                r[k],
            ).less_spec(u) by {
                if k < b {
                    assert(0 <= r[k] < pts.len());
                    assert(moderate_node(pts[r[k]]));
                    lemma_reach_left(pts, hole, qx, m0, r[k]);
                    lemma_transitive(u, t, tan_of(pts, hole, r[k]));
                }
            }
            b
        } else {
            i
        }
    }
}

// ---------------------------------------------------------------------------------------------
// The best node
// ---------------------------------------------------------------------------------------------
/// The node at place `k` and the next are level with the hole's node, which is between them.
spec fn level_at(pts: Seq<Pt<Exact>>, r: Seq<int>, hole: int, k: int) -> bool {
    let (h, a, n) = (pts[hole], pts[r[k]], pts[succ(r, k)]);
    a.y.same_spec(h.y) && n.y.same_spec(h.y) && h.x.less_spec(n.x)
}

/// The node at place `k` can be chosen.
spec fn can_lean(pts: Seq<Pt<Exact>>, r: Seq<int>, hole: int, qx: Exact, m0: int, k: int) -> bool {
    &&& in_reach(pts, hole, qx, m0, r[k])
    &&& locally_inside_spec(pts, r, k, hole) || level_at(pts, r, hole, k)
}

/// The node at place `i` can be chosen, and no other under an angle that is as small.
spec fn only_lowest(
    pts: Seq<Pt<Exact>>,
    r: Seq<int>,
    hole: int,
    qx: Exact,
    m0: int,
    i: int,
) -> bool {
    let t = tan_of(pts, hole, r[i]);
    &&& can_lean(pts, r, hole, qx, m0, i)
    &&& value(t)
    &&& t.den > 0
    &&& forall|k: int|
        0 <= k < r.len() && k != i && #[trigger] can_lean(pts, r, hole, qx, m0, k) ==> value(
            tan_of(pts, hole, r[k]),
        ) && t.less_spec(tan_of(pts, hole, r[k]))
}

/// The node at place `i` is chosen, or worse ones so far.
spec fn lean_state(pts: Seq<Pt<Exact>>, r: Seq<int>, hole: int, i: int, s: Lean<Exact>) -> bool {
    let t = tan_of(pts, hole, r[i]);
    s == (Lean { m: r[i], tan: t }) || (value(s.tan) && t.less_spec(s.tan))
}

/// The only node under the smallest angle is chosen among nodes that hold it.
#[verifier::spinoff_prover]
proof fn lemma_over_chosen(
    pts: Seq<Pt<Exact>>,
    r: Seq<int>,
    hole: int,
    qx: Exact,
    m0: int,
    i: int,
    nodes: Seq<int>,
    s: Lean<Exact>,
)
    requires
        is_ring(r, pts.len() as int),
        0 <= i < r.len(),
        only_lowest(pts, r, hole, qx, m0, i),
        lean_state(pts, r, hole, i, s),
    ensures
        ({
            let w = lean_over(pts, r, hole, qx, m0, nodes, s);
            &&& lean_state(pts, r, hole, i, w)
            &&& nodes.contains(r[i]) || s.m == r[i] && s.tan == tan_of(pts, hole, r[i]) ==> w == (
            Lean { m: r[i], tan: tan_of(pts, hole, r[i]) })
        }),
    decreases nodes.len(),
{
    let t = tan_of(pts, hole, r[i]);
    if nodes.len() > 0 {
        let first = nodes.drop_last();
        lemma_over_chosen(pts, r, hole, qx, m0, i, first, s);
        let v = lean_over(pts, r, hole, qx, m0, first, s);
        let p = nodes.last();
        lemma_earlier(nodes, r[i]);
        assert(r.contains(r[i]));
        lemma_order(t, t);
        lemma_order(t, v.tan);
        lemma_order(v.tan, t);
        if r.contains(p) {
            let k = r.index_of(p);
            assert(r[k] == p && 0 <= k < r.len());
            let w = lean_node(pts, r, hole, qx, m0, v, p);
            if k != i && can_lean(pts, r, hole, qx, m0, k) {
                let u = tan_of(pts, hole, r[k]);
                lemma_order(t, u);
                lemma_order(u, t);
            }
        }
    }
}

/// The only node under the smallest angle is chosen among the first `b` blocks if one holds it.
proof fn lemma_blocks_chosen(o: Outline<Exact>, hole: int, qx: Exact, m0: int, i: int, b: int)
    requires
        moderate_table(o.pts),
        covered(plain_rank(), plain_values(), o),
        0 <= hole < o.pts.len(),
        0 <= m0 < o.pts.len(),
        value(qx),
        qx.den > 0,
        qx.less_spec(o.pts[hole].x),
        0 <= i < o.ring.len(),
        only_lowest(o.pts, o.ring, hole, qx, m0, i),
        0 <= b <= o.boxes.len(),
    ensures
        ({
            let w = lean_blocks(o, hole, qx, m0, b);
            &&& lean_state(o.pts, o.ring, hole, i, w)
            &&& o.owner[o.ring[i]] < b ==> w == (Lean {
                m: o.ring[i],
                tan: tan_of(o.pts, hole, o.ring[i]),
            })
        }),
    decreases b,
{
    let t = tan_of(o.pts, hole, o.ring[i]);
    assert(edge_covered(plain_rank(), o, i));
    if b == 0 {
        lemma_order(t, Exact::infinity_spec());
    } else {
        lemma_blocks_chosen(o, hole, qx, m0, i, b - 1);
        let s = lean_blocks(o, hole, qx, m0, b - 1);
        if lean_skips(o.boxes[b - 1], o.pts[hole], o.pts[m0]) {
            if o.owner[o.ring[i]] == b - 1 {
                let h = o.ring[i];
                assert(0 <= h < o.pts.len());
                assert(moderate_node(o.pts[hole]) && moderate_node(o.pts[m0]) && moderate_node(
                    o.pts[h],
                ));
                lemma_node_skipped(o.pts, o.boxes[b - 1], hole, qx, m0, h);
            }
        } else {
            lemma_over_chosen(o.pts, o.ring, hole, qx, m0, i, o.lists[b - 1], s);
        }
    }
}

/// A node is found to have the hole's node in its angle if it does.
proof fn lemma_seen_found(pts: Seq<Pt<Exact>>, r: Seq<int>, hole: int, i: int)
    requires
        moderate_table(pts),
        is_ring(r, pts.len() as int),
        r.len() >= 3,
        0 <= hole < pts.len(),
        0 <= i < r.len(),
    ensures
        locally_inside_spec(pts, r, i, hole) <==> in_angle(
            spots(integer(), pts, r),
            i,
            spot(integer(), pts, hole),
        ),
{
    let n = r.len() as int;
    let p = spots(integer(), pts, r);
    let q = spot(integer(), pts, hole);
    let (e, f) = (before(i, n), after(i, n));
    assert(0 <= r[e] < pts.len() && 0 <= r[f] < pts.len() && 0 <= r[i] < pts.len());
    lemma_moderate_places(pts);
    let (v, a, w) = (prev(p, i), p[i], next(p, i));
    lemma_tri(a, q, w);
    lemma_tri(a, w, q);
    lemma_tri(a, v, q);
    lemma_tri(a, q, v);
    assert(area(pts, r[e], r[i], r[f]).less_spec(zero::<Exact>()) <==> tri(v, a, w) > 0);
    assert(zero::<Exact>().at_most_spec(area(pts, r[i], hole, r[f])) <==> tri(a, q, w) <= 0);
    assert(zero::<Exact>().at_most_spec(area(pts, r[i], r[e], hole)) <==> tri(a, v, q) <= 0);
    assert(area(pts, r[i], hole, r[e]).less_spec(zero::<Exact>()) <==> tri(a, q, v) > 0);
    assert(area(pts, r[i], r[f], hole).less_spec(zero::<Exact>()) <==> tri(a, w, q) > 0);
}

/// Of the corners at a point of the ring that is seen, one faces the hole's node, and no other can
/// be chosen.
#[verifier::spinoff_prover]
proof fn lemma_one_faces(pts: Seq<Pt<Exact>>, r: Seq<int>, hole: int, i: int) -> (j: int)
    requires
        moderate_table(pts),
        is_ring(r, pts.len() as int),
        0 <= hole < pts.len(),
        weakly_left(spots(integer(), pts, r)),
        general(spots(integer(), pts, r), spot(integer(), pts, hole)),
        off_ring(spots(integer(), pts, r), spot(integer(), pts, hole)),
        winding(spots(integer(), pts, r), spot(integer(), pts, hole)) == 1,
        0 <= i < r.len(),
        sees(spots(integer(), pts, r), spot(integer(), pts, hole), i),
    ensures
        ({
            let p = spots(integer(), pts, r);
            let q = spot(integer(), pts, hole);
            &&& 0 <= j < r.len()
            &&& p[j] == p[i]
            &&& sees(p, q, j)
            &&& faces(p, j, q)
            &&& locally_inside_spec(pts, r, j, hole)
            &&& forall|k: int|
                0 <= k < r.len() && k != j && #[trigger] p[k] == p[j] ==> !locally_inside_spec(
                    pts,
                    r,
                    k,
                    hole,
                ) && !level_at(pts, r, hole, k)
        }),
{
    let n = r.len() as int;
    let p = spots(integer(), pts, r);
    let q = spot(integer(), pts, hole);
    let j = lemma_seen_faced(p, q, i);
    assert forall|k: int| 0 <= k < p.len() implies #[trigger] edge_apart(p, q, j, k) by {
        assert(edge_apart(p, q, i, k));
    }
    lemma_bent_rays(p, q, j);
    lemma_faces_angle(p, j, q);
    lemma_seen_found(pts, r, hole, j);
    assert forall|k: int| 0 <= k < r.len() && k != j && #[trigger] p[k] == p[j] implies
        !locally_inside_spec(pts, r, k, hole) && !level_at(pts, r, hole, k) by {
        lemma_bent_rays(p, q, k);
        lemma_faces_once(p, j, k, q);
        lemma_faces_angle(p, k, q);
        lemma_seen_found(pts, r, hole, k);
        if level_at(pts, r, hole, k) {
            let f = after(k, n);
            assert(0 <= r[k] < pts.len() && 0 <= r[f] < pts.len());
            assert(moderate_node(pts[hole]) && moderate_node(pts[r[k]]) && moderate_node(
                pts[r[f]],
            ));
            let (a, w) = (p[k], next(p, k));
            assert(pts[hole].y == whole(q.1) && pts[r[k]].y == whole(a.1) && pts[r[f]].y == whole(
                w.1,
            ));
            lemma_whole(a.1, q.1);
            lemma_whole(w.1, q.1);
            lemma_differences(w.0, a.0, q.1, a.1);
            lemma_differences(w.1, a.1, q.0, a.0);
            lemma_signs(w.0 - a.0, 0);
            lemma_signs(0, q.0 - a.0);
        }
    }
    j
}

/// The neighbours of a corner do not lie on its line with the hole's node, nor it on theirs.
proof fn lemma_bent_rays(p: Seq<(int, int)>, q: (int, int), k: int)
    requires
        weakly_simple(p),
        general(p, q),
        0 <= k < p.len(),
    ensures
        p[k] != next(p, k),
        tri(p[k], next(p, k), q) != 0,
        tri(p[k], prev(p, k), q) != 0,
        tri(prev(p, k), p[k], next(p, k)) != 0,
{
    let n = p.len() as int;
    let (e, f) = (before(k, n), after(k, n));
    assert(bent(p, k));
    assert(tri(p[k], p[f], q) != 0);
    assert(tri(p[k], p[e], q) != 0);
    assert(tri(p[e], p[k], p[f]) != 0);
}

// ---------------------------------------------------------------------------------------------
// The law
// ---------------------------------------------------------------------------------------------
/// The ray meets the ring nearest, in the ring magnified by the denominator of where it does so.
proof fn lemma_nearest_met(pts: Seq<Pt<Exact>>, r: Seq<int>, hole: int, s: Ray<Exact>, e: int)
    requires
        moderate_table(pts),
        is_ring(r, pts.len() as int),
        r.len() >= 3,
        0 <= hole < pts.len(),
        value(s.qx),
        met_at(pts, r, hole, s, e),
        met_nearest(pts, r, hole, s.qx),
    ensures
        ({
            let p = spots(integer(), pts, r);
            let q = spot(integer(), pts, hole);
            let d = s.qx.den as int;
            let x = (s.qx.num as int, d * q.1);
            let z = zoomed(p, d);
            &&& d == p[e].1 - next(p, e).1
            &&& s.qx.num == hit_num(p[e], next(p, e), q)
            &&& s.qx.num < q.0 * d
            &&& nearest(z, x, zoom(q, d))
            &&& falls_past(z[e], next(z, e), zoom(q, d).1)
            &&& tri(z[e], next(z, e), zoom(q, d)) > 0
            &&& on(z[e], next(z, e), x)
        }),
{
    let n = r.len() as int;
    let p = spots(integer(), pts, r);
    let q = spot(integer(), pts, hole);
    let hy = pts[hole].y;
    let (u, v) = (p[e], next(p, e));
    let f = after(e, n);
    assert(0 <= r[e] < pts.len() && 0 <= r[f] < pts.len());
    assert(moderate_node(pts[hole]) && moderate_node(pts[r[e]]) && moderate_node(pts[r[f]]));
    lemma_hit(pts, hy, r[e], r[f]);
    let d = s.qx.den as int;
    let x = (s.qx.num as int, d * q.1);
    let z = zoomed(p, d);
    lemma_hit_side(u, v, q, d, x.0);
    assert(x.0 * (u.1 - v.1) == d * hit_num(u, v, q)) by (nonlinear_arith)
        requires
            x.0 == hit_num(u, v, q),
            d == u.1 - v.1,
    ;
    lemma_signs(d, 0);
    lemma_zoomed_at(p, d, e);
    lemma_zoom_order(d, v.1, q.1);
    lemma_zoom_order(d, q.1, v.1);
    lemma_zoom_order(d, u.1, q.1);
    lemma_zoom_order(d, q.1, u.1);
    lemma_zoom_order(d, v.1, u.1);
    lemma_zoom_tri(d, u, v, q);
    lemma_level(z[e], next(z, e), x);
    assert(q.0 * d == d * q.0) by (nonlinear_arith);
    assert forall|k: int|
        0 <= k < z.len() && falls_past(#[trigger] z[k], next(z, k), zoom(q, d).1) && tri(
            z[k],
            next(z, k),
            zoom(q, d),
        ) > 0 implies tri(z[k], next(z, k), x) >= 0 by {
        let i = after(k, n);
        let (a, b) = (p[k], next(p, k));
        lemma_zoomed_at(p, d, k);
        lemma_zoom_order(d, b.1, q.1);
        lemma_zoom_order(d, q.1, b.1);
        lemma_zoom_order(d, a.1, q.1);
        lemma_zoom_order(d, q.1, a.1);
        lemma_zoom_order(d, b.1, a.1);
        lemma_zoom_tri(d, a, b, q);
        assert(falls_past(p[k], next(p, k), q.1));
        assert(0 <= r[k] < pts.len() && 0 <= r[i] < pts.len());
        assert(moderate_node(pts[r[k]]) && moderate_node(pts[r[i]]));
        lemma_hit(pts, hy, r[k], r[i]);
        let y = ray_hit(pts, hy, r[k], succ(r, k));
        assert(passed_by(pts, r, hole, s.qx, k));
        lemma_order(s.qx, y);
        lemma_hit_side(a, b, q, d, x.0);
        assert(y.num * d == d * y.num) by (nonlinear_arith);
        lemma_signs(d, x.0 * (a.1 - b.1) - d * hit_num(a, b, q));
    }
}

/// Where the ray ends at a corner of the ring, that is seen, and the only one under the smallest
/// angle.
#[verifier::spinoff_prover]
proof fn lemma_level_lowest(
    pts: Seq<Pt<Exact>>,
    r: Seq<int>,
    hole: int,
    s: Ray<Exact>,
    e: int,
    i: int,
) -> (j: int)
    requires
        moderate_table(pts),
        is_ring(r, pts.len() as int),
        r.len() >= 3,
        0 <= hole < pts.len(),
        weakly_left(spots(integer(), pts, r)),
        general(spots(integer(), pts, r), spot(integer(), pts, hole)),
        off_ring(spots(integer(), pts, r), spot(integer(), pts, hole)),
        winding(spots(integer(), pts, r), spot(integer(), pts, hole)) == 1,
        value(s.qx),
        met_at(pts, r, hole, s, e),
        met_nearest(pts, r, hole, s.qx),
        i == e || i == after(e, r.len() as int),
        spots(integer(), pts, r)[i].1 == spot(integer(), pts, hole).1,
    ensures
        0 <= j < r.len(),
        sees(spots(integer(), pts, r), spot(integer(), pts, hole), j),
        faces(spots(integer(), pts, r), j, spot(integer(), pts, hole)),
        only_lowest(pts, r, hole, s.qx, s.m->0, j),
{
    let n = r.len() as int;
    let p = spots(integer(), pts, r);
    let q = spot(integer(), pts, hole);
    let d = s.qx.den as int;
    let x = (s.qx.num as int, d * q.1);
    let z = zoomed(p, d);
    let (u, v) = (p[e], next(p, e));
    let m0 = s.m->0;
    lemma_nearest_met(pts, r, hole, s, e);
    lemma_zoomed_at(p, d, i);
    let (t, f) = (u.1 - q.1, v.0 - u.0);
    assert(x == z[i]) by {
        assert(u.0 * d + t * f == d * p[i].0) by (nonlinear_arith)
            requires
                d == u.1 - v.1,
                t == u.1 - q.1,
                f == v.0 - u.0,
                (p[i] == u && u.1 == q.1) || (p[i] == v && v.1 == q.1),
        ;
    }
    lemma_zoom_inside(p, q, d);
    lemma_sees_level(z, zoom(q, d), i);
    lemma_zoom_sees(p, q, i, d);
    let j = lemma_one_faces(pts, r, hole, i);
    let g = after(e, n);
    assert(0 <= r[e] < pts.len() && 0 <= r[g] < pts.len() && 0 <= r[j] < pts.len());
    assert(moderate_node(pts[hole]) && moderate_node(pts[m0]) && moderate_node(pts[r[j]]));
    lemma_reach_left(pts, hole, s.qx, m0, r[j]);
    let (m, a) = (spot(integer(), pts, m0), p[j]);
    lemma_zoom_order(d, a.0, q.0);
    assert(q.0 * d == d * q.0) by (nonlinear_arith);
    assert(in_reach(pts, hole, s.qx, m0, r[j])) by {
        let (o, w, b, c) = (q.1 - a.1, m.1 - a.1, q.0 - a.0, m.0 - a.0);
        let h = s.qx.num - a.0 * d;
        assert(h == 0) by (nonlinear_arith)
            requires
                h == s.qx.num - a.0 * d,
                s.qx.num == d * a.0,
        ;
        lemma_signs(b, o);
        lemma_signs(b * o, d);
        lemma_signs(h, o);
        lemma_signs(c, o);
        lemma_signs(c * o, d);
        lemma_signs(b, w);
        lemma_signs(h, w);
        assert(reached(q, m, a, s.qx));
    }
    let tan = tan_of(pts, hole, r[j]);
    assert(tan.num == 0);
    assert forall|k: int|
        0 <= k < r.len() && k != j && #[trigger] can_lean(pts, r, hole, s.qx, m0, k) implies value(
        tan_of(pts, hole, r[k]),
    ) && tan.less_spec(tan_of(pts, hole, r[k])) by {
        assert(0 <= r[k] < pts.len());
        assert(moderate_node(pts[r[k]]));
        lemma_reach_left(pts, hole, s.qx, m0, r[k]);
        let b = p[k];
        let y = tan_of(pts, hole, r[k]);
        assert(p[k] != p[j]);
        assert(tri(p[j], p[k], q) != 0);
        if b.1 == q.1 {
            lemma_differences(b.0, a.0, q.1, a.1);
            lemma_differences(b.1, a.1, q.0, a.0);
            lemma_signs(b.0 - a.0, q.1 - a.1);
            lemma_signs(b.1 - a.1, q.0 - a.0);
        }
        lemma_order(tan, y);
        lemma_signs(y.num as int, tan.den as int);
        lemma_signs(0, y.den as int);
    }
    j
}

/// A node in reach is on the side of the end of the edge that the ray meets.
proof fn lemma_reach_side(h: (int, int), m: (int, int), a: (int, int), q: Exact)
    requires
        q.den > 0,
        q.num < h.0 * q.den,
        m.1 != h.1,
        reached(h, m, a, q),
    ensures
        m.1 > h.1 ==> a.1 >= h.1,
        m.1 < h.1 ==> a.1 <= h.1,
{
    let d = q.den as int;
    let (t, f) = (h.1 - a.1, h.0 - a.0);
    let e = q.num - a.0 * d;
    assert(e * t - (f * t) * d == t * (q.num - h.0 * d)) by (nonlinear_arith)
        requires
            e == q.num - a.0 * d,
            f == h.0 - a.0,
    ;
    lemma_signs(t, q.num - h.0 * d);
}

/// Where the ray ends within an edge, the node in reach under the smallest angle is seen, and is
/// the only one.
#[verifier::spinoff_prover]
proof fn lemma_inner_lowest(
    pts: Seq<Pt<Exact>>,
    r: Seq<int>,
    hole: int,
    s: Ray<Exact>,
    e: int,
) -> (j: int)
    requires
        moderate_table(pts),
        is_ring(r, pts.len() as int),
        r.len() >= 3,
        0 <= hole < pts.len(),
        weakly_left(spots(integer(), pts, r)),
        general(spots(integer(), pts, r), spot(integer(), pts, hole)),
        off_ring(spots(integer(), pts, r), spot(integer(), pts, hole)),
        winding(spots(integer(), pts, r), spot(integer(), pts, hole)) == 1,
        value(s.qx),
        met_at(pts, r, hole, s, e),
        met_nearest(pts, r, hole, s.qx),
        pts[s.m->0].x.num < pts[hole].x.num,
        spots(integer(), pts, r)[e].1 != spot(integer(), pts, hole).1,
        next(spots(integer(), pts, r), e).1 != spot(integer(), pts, hole).1,
    ensures
        0 <= j < r.len(),
        sees(spots(integer(), pts, r), spot(integer(), pts, hole), j),
        faces(spots(integer(), pts, r), j, spot(integer(), pts, hole)),
        only_lowest(pts, r, hole, s.qx, s.m->0, j),
{
    let n = r.len() as int;
    let p = spots(integer(), pts, r);
    let q = spot(integer(), pts, hole);
    let d = s.qx.den as int;
    let x = (s.qx.num as int, d * q.1);
    let z = zoomed(p, d);
    let zq = zoom(q, d);
    let m0 = s.m->0;
    let f = after(e, n);
    let c = if p[e].0 < next(p, e).0 {
        e
    } else {
        f
    };
    assert(m0 == r[c]);
    let m = p[c];
    assert(0 <= r[e] < pts.len() && 0 <= r[f] < pts.len());
    assert(moderate_node(pts[hole]) && moderate_node(pts[m0]));
    lemma_nearest_met(pts, r, hole, s, e);
    lemma_zoom_inside(p, q, d);
    lemma_zoomed_at(p, d, e);
    lemma_zoomed_at(p, d, c);
    lemma_zoom_order(d, p[e].1, q.1);
    lemma_zoom_order(d, next(p, e).1, q.1);
    assert(within_edge(z[e], next(z, e), x));
    // the end of the edge is in reach
    lemma_reach_left(pts, hole, s.qx, m0, r[c]);
    lemma_corner_reached(q, m, s.qx);
    let i = lemma_lowest_angle(pts, r, hole, s.qx, m0, n, c);
    assert(0 <= r[i] < pts.len());
    assert(moderate_node(pts[r[i]]));
    lemma_reach_left(pts, hole, s.qx, m0, r[i]);
    lemma_reach_side(q, m, p[i], s.qx);
    lemma_reached_sides(q, m, p[i], s.qx);
    lemma_zoomed_at(p, d, i);
    let t = tan_of(pts, hole, r[i]);
    assert forall|k: int|
        0 <= k < z.len() && in_reach_of(x, zq, z[c], #[trigger] z[k]) implies !lower_than(
        zq,
        z[c],
        z[k],
        z[i],
    ) by {
        lemma_zoomed_at(p, d, k);
        lemma_in_reach(pts, r, hole, s, e, c, k);
        assert(0 <= r[k] < pts.len());
        assert(moderate_node(pts[r[k]]));
        lemma_reach_left(pts, hole, s.qx, m0, r[k]);
        lemma_reach_side(q, m, p[k], s.qx);
        lemma_tangents(q, m, p[i], p[k]);
        let u = tan_of(pts, hole, r[k]);
        lemma_order(u, t);
        lemma_zoom_tri(d, q, p[i], p[k]);
        lemma_zoom_order(d, q.1, m.1);
    }
    assert(z[i] != x) by {
        if z[i] == x {
            lemma_on_corner(p, q, x, e, i, d);
        }
    }
    lemma_sees_lowest(z, zq, x, e, c, i);
    lemma_zoom_sees(p, q, i, d);
    let j = lemma_one_faces(pts, r, hole, i);
    assert(0 <= r[j] < pts.len());
    assert(moderate_node(pts[r[j]]));
    lemma_reach_left(pts, hole, s.qx, m0, r[j]);
    assert(tan_of(pts, hole, r[j]) == t);
    assert forall|k: int|
        0 <= k < n && k != j && #[trigger] can_lean(pts, r, hole, s.qx, m0, k) implies value(
        tan_of(pts, hole, r[k]),
    ) && t.less_spec(tan_of(pts, hole, r[k])) by {
        assert(0 <= r[k] < pts.len());
        assert(moderate_node(pts[r[k]]));
        lemma_reach_left(pts, hole, s.qx, m0, r[k]);
        lemma_reach_side(q, m, p[k], s.qx);
        let u = tan_of(pts, hole, r[k]);
        lemma_order(t, u);
        lemma_order(u, t);
        lemma_tangents(q, m, p[i], p[k]);
        assert(p[k] != p[j]);
        assert(tri(p[i], p[k], q) != 0);
        lemma_tri(p[i], p[k], q);
    }
    j
}

/// No corner of a ring lies within an edge.
proof fn lemma_on_corner(
    p: Seq<(int, int)>,
    q: (int, int),
    x: (int, int),
    e: int,
    i: int,
    d: int,
)
    requires
        d > 0,
        scattered(zoomed(p, d)),
        0 <= e < p.len(),
        0 <= i < p.len(),
        within_edge(zoomed(p, d)[e], next(zoomed(p, d), e), x),
    ensures
        zoomed(p, d)[i] != x,
{
    let z = zoomed(p, d);
    let f = after(e, p.len() as int);
    if z[i] == x {
        lemma_tri(z[e], z[f], z[e]);
        assert(tri(z[e], z[f], z[i]) != 0);
    }
}

/// The end of the edge that the ray meets is in reach.
proof fn lemma_corner_reached(h: (int, int), m: (int, int), q: Exact)
    requires
        q.den > 0,
        q.num < h.0 * q.den,
        m.1 != h.1,
    ensures
        reached(h, m, m, q),
{
    let d = q.den as int;
    let (t, f) = (h.1 - m.1, h.0 - m.0);
    let e = q.num - m.0 * d;
    assert(e * t - (f * t) * d == t * (q.num - h.0 * d)) by (nonlinear_arith)
        requires
            e == q.num - m.0 * d,
            f == h.0 - m.0,
    ;
    lemma_signs(t, q.num - h.0 * d);
    lemma_signs(0, t);
    lemma_signs(f, 0);
    lemma_signs(e, 0);
    lemma_signs(0, d);
}

/// A corner in the triangle of the ray and the end of the edge that it meets is in reach.
proof fn lemma_in_reach(
    pts: Seq<Pt<Exact>>,
    r: Seq<int>,
    hole: int,
    s: Ray<Exact>,
    e: int,
    c: int,
    k: int,
)
    requires
        moderate_table(pts),
        is_ring(r, pts.len() as int),
        r.len() >= 3,
        0 <= hole < pts.len(),
        off_ring(spots(integer(), pts, r), spot(integer(), pts, hole)),
        value(s.qx),
        met_at(pts, r, hole, s, e),
        met_nearest(pts, r, hole, s.qx),
        s.m == Some(r[c]),
        c == (if spots(integer(), pts, r)[e].0 < next(spots(integer(), pts, r), e).0 {
            e
        } else {
            after(e, r.len() as int)
        }),
        0 <= k < r.len(),
        spots(integer(), pts, r)[c].1 != spot(integer(), pts, hole).1,
        spots(integer(), pts, r)[c].0 < spot(integer(), pts, hole).0,
        ({
            let q = spot(integer(), pts, hole);
            let d = s.qx.den as int;
            let z = zoomed(spots(integer(), pts, r), d);
            in_reach_of((s.qx.num as int, d * q.1), zoom(q, d), z[c], z[k])
        }),
    ensures
        in_reach(pts, hole, s.qx, r[c], r[k]),
{
    let n = r.len() as int;
    let p = spots(integer(), pts, r);
    let q = spot(integer(), pts, hole);
    let d = s.qx.den as int;
    let x = (s.qx.num as int, d * q.1);
    let z = zoomed(p, d);
    let (u, v) = (p[e], next(p, e));
    let (m, a) = (p[c], p[k]);
    let (zq, zm, za) = (zoom(q, d), zoom(m, d), zoom(a, d));
    let f = after(e, n);
    lemma_nearest_met(pts, r, hole, s, e);
    lemma_zoomed_at(p, d, c);
    lemma_zoomed_at(p, d, k);
    assert(0 <= r[k] < pts.len() && 0 <= r[c] < pts.len());
    assert(moderate_node(pts[hole]) && moderate_node(pts[r[c]]) && moderate_node(pts[r[k]]));
    lemma_reach_left(pts, hole, s.qx, r[c], r[k]);
    lemma_reached_sides(q, m, a, s.qx);
    lemma_zoom_order(d, q.1, m.1);
    lemma_zoom_order(d, m.1, q.1);
    // the box around the triangle
    assert(d * m.0 <= x.0) by {
        let (t, g) = (u.1 - q.1, v.0 - u.0);
        lemma_between(u.0, v.0, d, t, x.0);
        assert(d * m.0 == m.0 * d) by (nonlinear_arith);
    }
    assert(q.0 * d == d * q.0) by (nonlinear_arith);
    let l = (0int, 1int, 0int);
    assert(affine(l, x) == x.0 && affine(l, zq) == zq.0
        && affine(l, zm) == zm.0 && affine(l, za) == za.0) by (
    nonlinear_arith)
        requires
            l == (0int, 1int, 0int),
    ;
    lemma_level_side(x, zq, zm);
    lemma_tri(x, zq, zm);
    lemma_tri(zm, x, zq);
    lemma_tri(zq, x, zm);
    lemma_zoom_order(d, m.0, q.0);
    if m.1 > q.1 {
        lemma_in_box(l, zm, x, zq, za);
    } else {
        lemma_in_box(l, zq, x, zm, za);
    }
    lemma_zoom_order(d, m.0, a.0);
    lemma_zoom_order(d, a.0, m.0);
    lemma_zoom_order(d, q.0, a.0);
    lemma_zoom_order(d, a.0, q.0);
    assert(m.0 <= a.0 <= q.0);
    if a.0 == q.0 {
        lemma_far_corner(x, zq, zm, za);
        lemma_zoom_under(d, a, q);
        lemma_tri(p[k], next(p, k), p[k]);
        assert(!on(p[k], next(p, k), q));
    }
}

/// In a triangle whose corner `q` is furthest to the right, no other point is as far right.
proof fn lemma_far_corner(x: (int, int), q: (int, int), m: (int, int), z: (int, int))
    requires
        x.1 == q.1,
        x.0 < q.0,
        m.0 < q.0,
        m.1 != q.1,
        in_reach_of(x, q, m, z),
        z.0 == q.0,
    ensures
        z == q,
{
    let (a, b) = (z.1 - q.1, m.1 - q.1);
    lemma_differences(q.0, x.0, z.1, x.1);
    lemma_differences(q.1, x.1, z.0, x.0);
    lemma_differences(m.0, q.0, z.1, q.1);
    lemma_differences(m.1, q.1, z.0, q.0);
    lemma_tri(x, q, z);
    lemma_tri(q, x, z);
    lemma_tri(q, m, z);
    lemma_tri(m, q, z);
    lemma_signs(q.0 - x.0, z.1 - x.1);
    lemma_signs(q.1 - x.1, z.0 - x.0);
    lemma_signs(m.0 - q.0, z.1 - q.1);
    lemma_signs(m.1 - q.1, z.0 - q.0);
}

/// A node inside a ring with integer coordinates that runs counterclockwise and touches itself at
/// corners at most, no three of whose places and that node lie on one line, is connected to a node
/// of the ring that it sees, strictly to its left: all edges that do not end there are apart from
/// the segment between them, and of the corners at that place it is the one that faces it.
pub proof fn lemma_bridge_seen(o: Outline<Exact>, hole: int) -> (i: int)
    requires
        moderate_table(o.pts),
        is_ring(o.ring, o.pts.len() as int),
        o.boxes.len() == 0 || covered(plain_rank(), plain_values(), o),
        0 <= hole < o.pts.len(),
        weakly_left(spots(integer(), o.pts, o.ring)),
        general(spots(integer(), o.pts, o.ring), spot(integer(), o.pts, hole)),
        off_ring(spots(integer(), o.pts, o.ring), spot(integer(), o.pts, hole)),
        winding(spots(integer(), o.pts, o.ring), spot(integer(), o.pts, hole)) == 1,
    ensures
        0 <= i < o.ring.len(),
        bridge(o, hole) == Some(o.ring[i]),
        spots(integer(), o.pts, o.ring)[i].0 < spot(integer(), o.pts, hole).0,
        sees(spots(integer(), o.pts, o.ring), spot(integer(), o.pts, hole), i),
        faces(spots(integer(), o.pts, o.ring), i, spot(integer(), o.pts, hole)),
{
    let (pts, r) = (o.pts, o.ring);
    let n = r.len() as int;
    let p = spots(integer(), pts, r);
    let q = spot(integer(), pts, hole);
    let (hx, hy) = (pts[hole].x, pts[hole].y);
    lemma_inside_connected(o, hole);
    lemma_bridge_leftward(o, hole);
    let e = lemma_cast_state(o, hole);
    let s = ray_cast(o, hx, hy);
    assert(0 <= r[0] < pts.len());
    assert(!coincide(pts, hole, r[0])) by {
        let u = p[0];
        assert(moderate_node(pts[hole]) && moderate_node(pts[r[0]]));
        assert(hx == whole(q.0) && hy == whole(q.1) && pts[r[0]].x == whole(u.0) && pts[r[0]].y
            == whole(u.1));
        lemma_whole(q.0, u.0);
        lemma_whole(q.1, u.1);
        lemma_tri(u, next(p, 0), u);
        assert(!on(p[0], next(p, 0), q));
    }
    assert(s.m is Some);
    let f = after(e, n);
    assert(0 <= r[e] < pts.len() && 0 <= r[f] < pts.len());
    let i = if p[e].1 == q.1 {
        lemma_level_lowest(pts, r, hole, s, e, e)
    } else if next(p, e).1 == q.1 {
        lemma_level_lowest(pts, r, hole, s, e, f)
    } else {
        lemma_inner_lowest(pts, r, hole, s, e)
    };
    let m0 = s.m->0;
    assert(r.contains(r[i]));
    if o.boxes.len() == 0 {
        lemma_order(tan_of(pts, hole, r[i]), Exact::infinity_spec());
        let start = Lean::<Exact> { m: m0, tan: Exact::infinity_spec() };
        lemma_over_chosen(pts, r, hole, s.qx, m0, i, r, start);
    } else {
        assert(edge_covered(plain_rank(), o, i));
        lemma_blocks_chosen(o, hole, s.qx, m0, i, o.boxes.len() as int);
    }
    assert(0 <= r[i] < pts.len());
    i
}

/// What can be seen of a ring does not depend on where the ring starts.
proof fn lemma_sees_turned(p: Seq<(int, int)>, q: (int, int), m: int, i: int)
    requires
        0 <= m < p.len(),
        0 <= i < p.len(),
        sees(seen_at(p, m), q, i),
    ensures
        0 <= place(i, m, p.len() as int) < p.len(),
        sees(p, q, place(i, m, p.len() as int)),
{
    let n = p.len() as int;
    let s = seen_at(p, m);
    let l = place(i, m, n);
    lemma_seen_at(p, m, i);
    assert forall|k: int| 0 <= k < n implies #[trigger] edge_apart(p, q, l, k) by {
        let j = if k >= m {
            k - m
        } else {
            k - m + n
        };
        lemma_seen_at(p, m, j);
        assert(place(j, m, n) == k);
        assert(edge_apart(s, q, i, j));
    }
}

/// What can be seen of a ring does not depend on which way the ring runs.
proof fn lemma_sees_reversed(p: Seq<(int, int)>, q: (int, int), i: int)
    requires
        0 <= i < p.len(),
        sees(p.reverse(), q, i),
    ensures
        sees(p, q, p.len() - 1 - i),
{
    let n = p.len() as int;
    let s = p.reverse();
    let l = n - 1 - i;
    lemma_reversed_at(p, i);
    assert forall|k: int| 0 <= k < n implies #[trigger] edge_apart(p, q, l, k) by {
        let j = n - 1 - after(k, n);
        lemma_reversed_at(p, j);
        assert(before(after(k, n), n) == k);
        assert(s[j] == next(p, k) && next(s, j) == p[k]);
        assert(edge_apart(s, q, i, j));
        if apart(s[j], next(s, j), s[i], q) {
            lemma_apart_swapped(s[j], next(s, j), s[i], q);
        }
    }
}

/// Whether points lie on one line does not depend on where a ring starts, or which way it runs.
proof fn lemma_general_read(p: Seq<(int, int)>, q: (int, int), m: int)
    requires
        general(p, q),
        0 <= m < p.len(),
    ensures
        general(seen_at(p, m), q),
        general(seen_at(p.reverse(), m), q),
{
    let n = p.len() as int;
    let b = p.reverse();
    let (s, t) = (seen_at(p, m), seen_at(b, m));
    assert forall|i: int| 0 <= i < n implies (#[trigger] s[i]) == p[place(i, m, n)] by {
        lemma_seen_at(p, m, i);
    }
    assert forall|i: int| 0 <= i < n implies (#[trigger] t[i]) == p[n - 1 - place(i, m, n)] by {
        lemma_seen_at(b, m, i);
        lemma_reversed_at(p, place(i, m, n));
    }
    assert forall|i: int, j: int, k: int|
        0 <= i < s.len() && 0 <= j < s.len() && 0 <= k < s.len() && s[i] != s[j] && s[j] != s[k]
            && s[i] != s[k] implies #[trigger] tri(s[i], s[j], s[k]) != 0 by {
        assert(tri(p[place(i, m, n)], p[place(j, m, n)], p[place(k, m, n)]) != 0);
    }
    assert forall|i: int, j: int, k: int|
        0 <= i < t.len() && 0 <= j < t.len() && 0 <= k < t.len() && t[i] != t[j] && t[j] != t[k]
            && t[i] != t[k] implies #[trigger] tri(t[i], t[j], t[k]) != 0 by {
        let (a, d, e) = (n - 1 - place(i, m, n), n - 1 - place(j, m, n), n - 1 - place(k, m, n));
        assert(tri(p[a], p[d], p[e]) != 0);
    }
    assert forall|i: int, j: int|
        0 <= i < s.len() && 0 <= j < s.len() && s[i] != s[j] implies #[trigger] tri(s[i], s[j], q)
        != 0 by {
        assert(tri(p[place(i, m, n)], p[place(j, m, n)], q) != 0);
    }
    assert forall|i: int, j: int|
        0 <= i < t.len() && 0 <= j < t.len() && t[i] != t[j] implies #[trigger] tri(t[i], t[j], q)
        != 0 by {
        let (a, d) = (n - 1 - place(i, m, n), n - 1 - place(j, m, n));
        assert(tri(p[a], p[d], q) != 0);
    }
}

/// A point is on a ring if it is on the ring run backwards.
pub(crate) proof fn lemma_off_reversed(p: Seq<(int, int)>, q: (int, int))
    requires
        off_ring(p, q),
    ensures
        off_ring(p.reverse(), q),
{
    let n = p.len() as int;
    let s = p.reverse();
    assert forall|k: int| 0 <= k < s.len() implies !on(#[trigger] s[k], next(s, k), q) by {
        lemma_reversed_at(p, k);
        let j = before(n - 1 - k, n);
        assert(!on(p[j], next(p, j), q));
        lemma_tri(p[j], next(p, j), q);
        lemma_tri(next(p, j), p[j], q);
    }
}

/// The corners of a simple ring differ.
pub(crate) proof fn lemma_distinct(p: Seq<(int, int)>)
    requires
        simple(p),
    ensures
        forall|a: int, b: int|
            0 <= a < p.len() && 0 <= b < p.len() && a != b ==> #[trigger] p[a] != #[trigger] p[b],
{
    let n = p.len() as int;
    assert forall|a: int, b: int| 0 <= a < n && 0 <= b < n && a != b implies #[trigger] p[a]
        != #[trigger] p[b] by {
        if b != after(a, n) {
            assert(off_edge(p, a, b));
            lemma_tri(p[a], next(p, a), p[a]);
        } else {
            assert(off_edge(p, b, a));
            lemma_tri(p[b], next(p, b), p[b]);
        }
    }
}

/// The first hole to be connected, of a polygon with integer coordinates of moderate size whose
/// outer ring is simple, is connected to a corner of that ring that it sees, strictly to its left:
/// if its leftmost node is inside the ring, and no three of the corners of the ring and that node
/// lie on one line.
pub proof fn lemma_first_bridge_seen(data: Seq<Exact>, holes: Seq<usize>, dim: int) -> (i: int)
    requires
        is_flat(data, holes, dim),
        integral(data),
        simple(outer_corners(data, holes, dim)),
        merging_order(data, holes, dim).len() > 0,
        off_ring(outer_corners(data, holes, dim), hole_spot(data, holes, dim, 0)),
        winding(outer_corners(data, holes, dim), hole_spot(data, holes, dim, 0)) != 0,
        general(outer_corners(data, holes, dim), hole_spot(data, holes, dim, 0)),
    ensures
        ({
            let o = merged_outline(data, holes, dim, 0);
            let c = outer_corners(data, holes, dim);
            let q = hole_spot(data, holes, dim, 0);
            &&& 0 <= i < c.len()
            &&& bridge(o, merging_order(data, holes, dim)[0][0]) matches Some(b) && spot(
                integer(),
                o.pts,
                b,
            ) == c[i]
            &&& c[i].0 < q.0
            &&& sees(c, q, i)
        }),
{
    let l = outer_ring(data, holes, dim);
    let o = merged_outline(data, holes, dim, 0);
    let s = merging_order(data, holes, dim);
    let p = spots(integer(), l.pts, l.ring);
    let c = outer_corners(data, holes, dim);
    let n = c.len() as int;
    let q = hole_spot(data, holes, dim, 0);
    let hole = s[0][0];
    lemma_outer_read(data, holes, dim);
    lemma_before_merging(data, holes, dim);
    assert(is_ring(s[0], o.pts.len() as int) && s[0].len() > 0);
    assert(0 <= hole < o.pts.len());
    assert(spots(integer(), o.pts, l.ring) =~= p) by {
        assert forall|k: int| 0 <= k < l.ring.len() implies spots(integer(), o.pts, l.ring)[k]
            == p[k] by {
            assert(0 <= l.ring[k] < l.pts.len());
            assert(o.pts[l.ring[k]].x == l.pts[l.ring[k]].x);
        }
    }
    lemma_general_read(c, q, n - 1);
    lemma_off_reversed(c, q);
    lemma_off_seen(c, n - 1, q);
    lemma_off_seen(c.reverse(), n - 1, q);
    lemma_turned_winding(c, q, n - 1);
    lemma_turned_winding(c.reverse(), q, n - 1);
    lemma_reversed_winding(c, q);
    lemma_once_around(p, q);
    lemma_distinct(p);
    assert(no_three_in_line(p)) by {
        assert forall|a: int, b: int, d: int|
            0 <= a < p.len() && 0 <= b < p.len() && 0 <= d < p.len() && a != b && b != d && a
                != d implies #[trigger] tri(p[a], p[b], p[d]) != 0 by {
            assert(p[a] != p[b] && p[b] != p[d] && p[a] != p[d]);
        }
    }
    lemma_simple_weak(p);
    lemma_index_kept(data, holes, dim, 0);
    let k = lemma_bridge_seen(o, hole);
    if p == c {
        k
    } else if p == seen_at(c, n - 1) {
        lemma_sees_turned(c, q, n - 1, k);
        lemma_seen_at(c, n - 1, k);
        place(k, n - 1, n)
    } else {
        let b = c.reverse();
        lemma_sees_turned(b, q, n - 1, k);
        lemma_seen_at(b, n - 1, k);
        let j = place(k, n - 1, n);
        lemma_sees_reversed(c, q, j);
        lemma_reversed_at(c, j);
        n - 1 - j
    }
}

// ---------------------------------------------------------------------------------------------
// Any ring
// ---------------------------------------------------------------------------------------------
/// The ray cast to the left from a node that is not on the ring meets the nearest of the edges that
/// fall past the node to its left, if there is one: the edge at the place that is returned. What is
/// kept of it is the end that is further left.
pub proof fn lemma_nearest_edge(o: Outline<Exact>, hole: int) -> (e: int)
    requires
        moderate_table(o.pts),
        is_ring(o.ring, o.pts.len() as int),
        o.boxes.len() == 0 || covered(plain_rank(), plain_values(), o),
        0 <= hole < o.pts.len(),
        off_ring(spots(integer(), o.pts, o.ring), spot(integer(), o.pts, hole)),
    ensures
        ({
            let m = ray_cast(o, o.pts[hole].x, o.pts[hole].y).m;
            let p = spots(integer(), o.pts, o.ring);
            let q = spot(integer(), o.pts, hole);
            let (a, b) = (p[e], next(p, e));
            &&& m is Some <==> exists|k: int|
                0 <= k < p.len() && next(p, k).1 <= q.1 <= (#[trigger] p[k]).1 && next(p, k).1
                    < p[k].1 && tri(p[k], next(p, k), q) > 0
            &&& m is Some ==> {
                &&& 0 <= e < p.len()
                &&& b.1 <= q.1 <= a.1 && b.1 < a.1 && tri(a, b, q) > 0
                &&& m == Some(
                    if a.0 < b.0 {
                        o.ring[e]
                    } else {
                        succ(o.ring, e)
                    },
                )
                &&& forall|k: int|
                    #![trigger p[k]]
                    0 <= k < p.len() && next(p, k).1 <= q.1 <= p[k].1 && next(p, k).1 < p[k].1
                        && tri(p[k], next(p, k), q) > 0 ==> {
                        let (u, v) = (p[k], next(p, k));
                        (u.0 * (u.1 - v.1) + (u.1 - q.1) * (v.0 - u.0)) * (a.1 - b.1) <= (a.0 * (a.1
                            - b.1) + (a.1 - q.1) * (b.0 - a.0)) * (u.1 - v.1)
                    }
            }
        }),
{
    let (pts, r) = (o.pts, o.ring);
    let n = r.len() as int;
    let p = spots(integer(), pts, r);
    let q = spot(integer(), pts, hole);
    let e = lemma_cast_state(o, hole);
    let s = ray_cast(o, pts[hole].x, pts[hole].y);
    if s.m is Some {
        assert(p[e] == p[e]);
        assert(0 <= r[e] < pts.len() && 0 <= r[after(e, n)] < pts.len());
        assert(moderate_node(pts[hole]) && moderate_node(pts[r[e]]) && moderate_node(
            pts[succ(r, e)],
        ));
        lemma_hit(pts, pts[hole].y, r[e], succ(r, e));
    }
    assert forall|k: int|
        #![trigger p[k]]
        0 <= k < p.len() && next(p, k).1 <= q.1 <= p[k].1 && next(p, k).1 < p[k].1 && tri(
            p[k],
            next(p, k),
            q,
        ) > 0 implies s.m is Some && {
        let (a, b) = (p[e], next(p, e));
        let (u, v) = (p[k], next(p, k));
        (u.0 * (u.1 - v.1) + (u.1 - q.1) * (v.0 - u.0)) * (a.1 - b.1) <= (a.0 * (a.1 - b.1) + (a.1
            - q.1) * (b.0 - a.0)) * (u.1 - v.1)
    } by {
        assert(passed_by(pts, r, hole, s.qx, k));
        assert(0 <= r[k] < pts.len() && 0 <= r[after(k, n)] < pts.len());
        assert(moderate_node(pts[hole]) && moderate_node(pts[r[k]]) && moderate_node(
            pts[succ(r, k)],
        ));
        lemma_hit(pts, pts[hole].y, r[k], succ(r, k));
        lemma_order(s.qx, ray_hit(pts, pts[hole].y, r[k], succ(r, k)));
    }
    e
}

/// Nodes compared one after the other leave the best of those that can be chosen.
spec fn best_of(
    pts: Seq<Pt<Exact>>,
    r: Seq<int>,
    hole: int,
    qx: Exact,
    m0: int,
    nodes: Seq<int>,
    s: Lean<Exact>,
) -> bool {
    &&& value(s.tan)
    &&& s == (Lean { m: m0, tan: Exact::infinity_spec() }) || exists|i: int|
        0 <= i < r.len() && r[i] == s.m && s.tan == tan_of(pts, hole, s.m) && #[trigger] can_lean(
            pts,
            r,
            hole,
            qx,
            m0,
            i,
        )
    &&& forall|k: int|
        0 <= k < r.len() && nodes.contains(r[k]) && #[trigger] can_lean(pts, r, hole, qx, m0, k)
            ==> {
            let t = tan_of(pts, hole, r[k]);
            &&& !t.less_spec(s.tan)
            &&& t.same_spec(s.tan) ==> pts[r[k]].x.num <= pts[s.m].x.num
        }
}

/// One node after the other is compared.
#[verifier::spinoff_prover]
proof fn lemma_best_of(
    pts: Seq<Pt<Exact>>,
    r: Seq<int>,
    hole: int,
    qx: Exact,
    m0: int,
    nodes: Seq<int>,
)
    requires
        moderate_table(pts),
        is_ring(r, pts.len() as int),
        0 <= hole < pts.len(),
        0 <= m0 < pts.len(),
        value(qx),
        qx.den > 0,
    ensures
        best_of(
            pts,
            r,
            hole,
            qx,
            m0,
            nodes,
            lean_over(
                pts,
                r,
                hole,
                qx,
                m0,
                nodes,
                Lean { m: m0, tan: Exact::infinity_spec() },
            ),
        ),
    decreases nodes.len(),
{
    let start = Lean { m: m0, tan: Exact::infinity_spec() };
    if nodes.len() > 0 {
        let first = nodes.drop_last();
        let p = nodes.last();
        lemma_best_of(pts, r, hole, qx, m0, first);
        let s = lean_over(pts, r, hole, qx, m0, first, start);
        let w = lean_over(pts, r, hole, qx, m0, nodes, start);
        if r.contains(p) {
            let j = r.index_of(p);
            assert(r[j] == p && 0 <= j < r.len());
            assert(w == lean_node(pts, r, hole, qx, m0, s, p));
            assert(0 <= r[j] < pts.len());
            lemma_reach_left(pts, hole, qx, m0, p);
            let t = tan_of(pts, hole, p);
            assert(0 <= s.m < pts.len());
            assert(moderate_node(pts[s.m]) && moderate_node(pts[p]));
            lemma_order(pts[s.m].x, pts[p].x);
            lemma_order(pts[p].x, pts[s.m].x);
            if can_lean(pts, r, hole, qx, m0, j) {
                lemma_order(t, s.tan);
                lemma_order(s.tan, t);
                lemma_order(t, t);
            }
            if w != s {
                assert(can_lean(pts, r, hole, qx, m0, j));
                assert(w == (Lean { m: p, tan: t }));
            }
            assert forall|k: int|
                0 <= k < r.len() && nodes.contains(r[k]) && #[trigger] can_lean(
                    pts,
                    r,
                    hole,
                    qx,
                    m0,
                    k,
                ) implies {
                let u = tan_of(pts, hole, r[k]);
                &&& !u.less_spec(w.tan)
                &&& u.same_spec(w.tan) ==> pts[r[k]].x.num <= pts[w.m].x.num
            } by {
                let u = tan_of(pts, hole, r[k]);
                assert(0 <= r[k] < pts.len());
                lemma_reach_left(pts, hole, qx, m0, r[k]);
                lemma_earlier(nodes, r[k]);
                lemma_order(u, s.tan);
                lemma_order(s.tan, u);
                lemma_order(u, w.tan);
                lemma_order(w.tan, u);
                if first.contains(r[k]) && w != s {
                    lemma_transitive(t, s.tan, u);
                }
                if r[k] == p {
                    assert(k == j);
                }
            }
        } else {
            assert(w == s);
            assert forall|k: int|
                0 <= k < r.len() && nodes.contains(r[k]) && #[trigger] can_lean(
                    pts,
                    r,
                    hole,
                    qx,
                    m0,
                    k,
                ) implies first.contains(r[k]) by {
                assert(r.contains(r[k]));
                lemma_earlier(nodes, r[k]);
            }
        }
    }
}

/// A node that is not on the ring, connected without an index, is connected to a node in reach
/// under the least angle with the ray, of those under the same angle to one that is furthest right.
/// A node counts if the other lies in its angle, or if the edge from it leads level past the other.
/// Where none counts, the end of the edge that the ray has met is chosen.
pub proof fn lemma_least_angle(o: Outline<Exact>, hole: int, k: int)
    requires
        moderate_table(o.pts),
        is_ring(o.ring, o.pts.len() as int),
        o.boxes.len() == 0,
        0 <= hole < o.pts.len(),
        off_ring(spots(integer(), o.pts, o.ring), spot(integer(), o.pts, hole)),
        bridge(o, hole) is Some,
        0 <= k < o.ring.len(),
    ensures
        ({
            let ray = ray_cast(o, o.pts[hole].x, o.pts[hole].y);
            let (m0, b) = (ray.m->0, bridge(o, hole)->0);
            let p = spots(integer(), o.pts, o.ring);
            let (q, z, a) = (spot(integer(), o.pts, hole), spot(integer(), o.pts, b), p[k]);
            &&& ray.m is Some
            &&& b == m0 || in_reach(o.pts, hole, ray.qx, m0, b)
            &&& in_reach(o.pts, hole, ray.qx, m0, o.ring[k]) && (locally_inside_spec(
                o.pts,
                o.ring,
                k,
                hole,
            ) || (a.1 == q.1 && next(p, k).1 == q.1 && q.0 < next(p, k).0)) ==> {
                &&& abs(q.1 - z.1) * (q.0 - a.0) <= abs(q.1 - a.1) * (q.0 - z.0)
                &&& abs(q.1 - z.1) * (q.0 - a.0) == abs(q.1 - a.1) * (q.0 - z.0) ==> a.0 <= z.0
            }
        }),
{
    let (pts, r) = (o.pts, o.ring);
    let n = r.len() as int;
    let p = spots(integer(), pts, r);
    let q = spot(integer(), pts, hole);
    let (hx, hy) = (pts[hole].x, pts[hole].y);
    let e = lemma_cast_state(o, hole);
    let ray = ray_cast(o, hx, hy);
    assert(0 <= r[0] < pts.len());
    assert(!coincide(pts, hole, r[0])) by {
        let u = p[0];
        assert(moderate_node(pts[hole]) && moderate_node(pts[r[0]]));
        assert(hx == whole(q.0) && hy == whole(q.1) && pts[r[0]].x == whole(u.0) && pts[r[0]].y
            == whole(u.1));
        lemma_whole(q.0, u.0);
        lemma_whole(q.1, u.1);
        lemma_tri(u, next(p, 0), u);
        assert(!on(p[0], next(p, 0), q));
    }
    assert(ray.m is Some);
    let m0 = ray.m->0;
    assert(0 <= m0 < pts.len()) by {
        assert(0 <= r[e] < pts.len() && 0 <= r[after(e, n)] < pts.len());
    }
    lemma_best_of(pts, r, hole, ray.qx, m0, r);
    let s = lean_over(pts, r, hole, ray.qx, m0, r, Lean { m: m0, tan: Exact::infinity_spec() });
    let b = bridge(o, hole)->0;
    assert(b == s.m);
    assert(0 <= b < pts.len());
    assert(moderate_node(pts[hole]) && moderate_node(pts[m0]) && moderate_node(pts[b]));
    lemma_reach_left(pts, hole, ray.qx, m0, b);
    assert(0 <= r[k] < pts.len() && 0 <= r[after(k, n)] < pts.len());
    assert(moderate_node(pts[r[k]]) && moderate_node(pts[succ(r, k)]));
    lemma_reach_left(pts, hole, ray.qx, m0, r[k]);
    assert(level_at(pts, r, hole, k) <==> p[k].1 == q.1 && next(p, k).1 == q.1 && q.0 < next(
        p,
        k,
    ).0) by {
        lemma_order(pts[r[k]].y, hy);
        lemma_order(hy, pts[r[k]].y);
        lemma_order(pts[succ(r, k)].y, hy);
        lemma_order(hy, pts[succ(r, k)].y);
        lemma_order(hx, pts[succ(r, k)].x);
    }
    if can_lean(pts, r, hole, ray.qx, m0, k) {
        let t = tan_of(pts, hole, r[k]);
        assert(r.contains(r[k]));
        lemma_order(t, s.tan);
        lemma_order(s.tan, t);
    }
}

/// Of two nodes at the same place, the one that comes later replaces the other exactly if the ring
/// turns left from the node before the other over that place to the node before it, and from the
/// node after it over that place to the node after the other.
pub proof fn lemma_tie(
    pts: Seq<Pt<Exact>>,
    r: Seq<int>,
    hole: int,
    qx: Exact,
    m0: int,
    i: int,
    k: int,
)
    requires
        moderate_table(pts),
        is_ring(r, pts.len() as int),
        0 <= hole < pts.len(),
        0 <= m0 < pts.len(),
        0 < qx.den <= 0x8000_0000,
        -0x2000_0000_0000_0000 <= qx.num <= 0x2000_0000_0000_0000,
        0 <= i < r.len(),
        0 <= k < r.len(),
        i != k,
        in_reach(pts, hole, qx, m0, r[i]),
        in_reach(pts, hole, qx, m0, r[k]),
        locally_inside_spec(pts, r, k, hole),
        pts[r[i]].x.num == pts[r[k]].x.num,
        pts[r[i]].y.num == pts[r[k]].y.num,
    ensures
        ({
            let p = spots(integer(), pts, r);
            let s = Lean {
                m: r[i],
                tan: pts[hole].y.minus_spec(pts[r[i]].y).magnitude_spec().over_spec(
                    pts[hole].x.minus_spec(pts[r[i]].x),
                ),
            };
            lean_node(pts, r, hole, qx, m0, s, r[k]).m == r[k] <==> tri(
                prev(p, i),
                p[i],
                prev(p, k),
            ) > 0 && tri(next(p, k), p[i], next(p, i)) > 0
        }),
{
    let n = r.len() as int;
    let p = spots(integer(), pts, r);
    let (a, b) = (pts[r[i]], pts[r[k]]);
    assert(0 <= r[i] < pts.len() && 0 <= r[k] < pts.len());
    assert(moderate_node(a) && moderate_node(b));
    assert(a.x == b.x && a.y == b.y);
    assert(r.contains(r[i]) && r.contains(r[k]));
    assert(r.index_of(r[i]) == i && r.index_of(r[k]) == k);
    lemma_corner(pts, r, i);
    lemma_corner(pts, r, k);
    lemma_turn_found(pts, r, before(i, n), i, before(k, n));
    lemma_turn_found(pts, r, after(k, n), i, after(i, n));
    lemma_reach_left(pts, hole, qx, m0, r[i]);
    let t = tan_of(pts, hole, r[i]);
    assert(tan_of(pts, hole, r[k]) == t);
    lemma_order(t, t);
    lemma_order(a.x, b.x);
}

} // verus!
