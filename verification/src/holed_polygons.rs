//! Polygons with holes are triangulated completely where no three vertices lie on one line.
use vstd::prelude::*;
use crate::areas::{spot, tri};
use crate::bounds::{hole_vertices, in_table, lemma_in_order_ok, total_len};
use crate::bridge_sight::{lemma_bridge_seen, lemma_distinct};
use crate::connecting::{
    hole_spot, lemma_index_kept, lemma_some_fall, merged_outline, merging_order,
};
use crate::counting::full_count;
use crate::deviation::deviation_spec;
use crate::diagonals::{lemma_once_around, no_three_in_line, off_ring};
use crate::exact::{whole, Exact};
use crate::exact_areas::{
    integer, integral, lemma_no_deviation, lemma_rings_countable, lemma_vertex_coordinates,
    lemma_whole,
};
use crate::exact_polygons::{all_inside, lemma_integral_slices, vertex_xy};
use crate::exact_simple::{
    finer, lemma_extent_covers, lemma_integral_tiling, lemma_outer_read, lemma_picked,
    outer_corners, vertex_ring,
};
use crate::geometry::{hashed, zero, Grid};
use crate::hole_model::{bridge, hole_end, merged, queued, Outline};
use crate::holed_rings::{
    after_hole, awaits, drawn_from, hole_like, holes_ready, lemma_awaiting, lemma_merged_next,
    lemma_scattered, merged_well,
};
use crate::holes_apart::lemma_before_merging;
use crate::holes_given::{
    alike, hole_ring, hole_within, holes_beside, holes_filled, holes_in_place,
    lemma_given_holes_connected, lemma_holes_read, lemma_order_taken, lemma_within_outer,
};
use crate::model::{after, swept, Pt};
use crate::polygon_areas::{corners, net_sum, sliced_completely};
use crate::rings::{is_ring, lemma_merged_all_ring, lemma_queued_rings};
use crate::scalar::Scalar;
use crate::segments::{lemma_differences, lemma_signs, lemma_tri};
use crate::sight::sees;
use crate::simple::{left_handed, seen_at, simple};
use crate::simple_holes::{
    hole_corners, lemma_along_reversed, lemma_along_seen, lemma_along_through,
    lemma_along_uncrossed, lemma_corner_along, lemma_simple_holes, lemma_strangers, opened,
    read_well, runs_along, strangers,
};
use crate::simple_polygons::spots;
use crate::tiling::{by_winding, layers, off_sides};
use crate::triangulation::{
    ear_grid, extent, is_flat, lemma_count_fits, outer_count, outer_ring, single_ring,
    triangulation,
};
use crate::weak::{faces, scattered, weakly_left};
use crate::weak_joins::{lemma_simple_weak, uncrossing_rings};
use crate::weak_slices::{
    lemma_nodes_used, lemma_weak_sliced, lemma_weak_swept, ring_used, sound_table,
};
use crate::winding::{next, passes, passings, winding};

verus! {

/// No edge of one ring of the polygon crosses an edge of another.
pub open spec fn rings_uncrossed(data: Seq<Exact>, holes: Seq<usize>, dim: int) -> bool {
    &&& forall|j: int|
        0 <= j < holes.len() ==> uncrossing_rings(
            outer_corners(data, holes, dim),
            #[trigger] hole_ring(data, holes, dim, j),
        )
    &&& forall|i: int, j: int|
        0 <= i < holes.len() && 0 <= j < holes.len() && i != j ==> uncrossing_rings(
            #[trigger] hole_ring(data, holes, dim, i),
            #[trigger] hole_ring(data, holes, dim, j),
        )
}

/// All vertices of the polygon.
pub open spec fn all_vertices(data: Seq<Exact>, dim: int) -> Seq<(int, int)> {
    vertex_ring(data, dim, 0, data.len() as int / dim)
}

/// The polygon has integer coordinates of moderate size, its rings are simple, its holes are inside
/// the outer ring and beside each other, and no three of its vertices lie on one line unless two of
/// them are at the same place. The last vertex of a ring may repeat the first.
pub open spec fn well_placed(data: Seq<Exact>, holes: Seq<usize>, dim: int) -> bool {
    &&& is_flat(data, holes, dim)
    &&& integral(data)
    &&& simple(outer_corners(data, holes, dim))
    &&& holes_in_place(data, holes, dim)
    &&& forall|j: int|
        0 <= j < holes.len() ==> simple(opened(#[trigger] hole_ring(data, holes, dim, j)))
    &&& rings_uncrossed(data, holes, dim)
    &&& scattered(all_vertices(data, dim))
}

/// The node is in the outer ring or in a hole.
spec fn in_some_ring(o: Outline<Exact>, s: Seq<Seq<int>>, h: int) -> bool {
    o.ring.contains(h) || exists|j: int| 0 <= j < s.len() && (#[trigger] s[j]).contains(h)
}

/// The vertices of the nodes that are in the outer ring or in a hole.
spec fn in_use(o: Outline<Exact>, s: Seq<Seq<int>>) -> spec_fn(usize) -> bool {
    |i: usize| exists|h: int| #[trigger] in_some_ring(o, s, h) && o.pts[h].i == i
}

// ---------------------------------------------------------------------------------------------
// What is read
// ---------------------------------------------------------------------------------------------
/// Where no three vertices lie on one line, two of them differ.
proof fn lemma_two_differ(all: Seq<(int, int)>, a: int, b: int)
    requires
        no_three_in_line(all),
        all.len() >= 3,
        0 <= a < all.len(),
        0 <= b < all.len(),
        a != b,
    ensures
        all[a] != all[b],
{
    let c: int = if a != 0 && b != 0 {
        0
    } else if a != 1 && b != 1 {
        1
    } else {
        2
    };
    lemma_tri(all[a], all[b], all[c]);
    lemma_tri(all[a], all[a], all[c]);
    assert(tri(all[a], all[b], all[c]) != 0);
}

/// A ring that runs along vertices of the polygon.
proof fn lemma_drawn_along(
    data: Seq<Exact>,
    dim: int,
    p: Seq<(int, int)>,
    v: Seq<(int, int)>,
    from: int,
)
    requires
        0 <= from,
        from + v.len() <= data.len() as int / dim,
        forall|k: int| 0 <= k < v.len() ==> #[trigger] v[k] == corners(integer(), data, dim)(
            from + k,
        ),
        runs_along(p, v),
    ensures
        drawn_from(p, all_vertices(data, dim)),
{
    let all = all_vertices(data, dim);
    assert forall|k: int| 0 <= k < p.len() implies all.contains(#[trigger] p[k]) by {
        let i = lemma_corner_along(p, v, k);
        assert(v[i] == p[k]);
        assert(all[from + i] == v[i]);
    }
}

/// A simple ring of vertices of which no three lie on one line.
proof fn lemma_ring_weak(p: Seq<(int, int)>, all: Seq<(int, int)>)
    requires
        simple(p),
        drawn_from(p, all),
        scattered(all),
    ensures
        no_three_in_line(p),
        forall|k: int| 0 < k < p.len() ==> #[trigger] p[k] != p[0],
{
    lemma_distinct(p);
    lemma_scattered(p, all);
    assert forall|a: int, b: int, c: int|
        0 <= a < p.len() && 0 <= b < p.len() && 0 <= c < p.len() && a != b && b != c && a
            != c implies #[trigger] tri(p[a], p[b], p[c]) != 0 by {
        assert(p[a] != p[b] && p[b] != p[c] && p[a] != p[c]);
    }
}

/// The outer ring that is read runs along the corners that are given.
proof fn lemma_outer_along(data: Seq<Exact>, holes: Seq<usize>, dim: int)
    requires
        well_placed(data, holes, dim),
    ensures
        ({
            let o = merged_outline(data, holes, dim, 0);
            let p = spots(integer(), o.pts, o.ring);
            let all = all_vertices(data, dim);
            &&& o.ring.len() == outer_corners(data, holes, dim).len()
            &&& runs_along(p, outer_corners(data, holes, dim))
            &&& drawn_from(p, all)
            &&& left_handed(p)
            &&& weakly_left(p)
        }),
{
    let val = integer();
    let l = outer_ring(data, holes, dim);
    let o = merged_outline(data, holes, dim, 0);
    let c = outer_corners(data, holes, dim);
    let n = c.len() as int;
    let all = all_vertices(data, dim);
    assert(holes.len() > 0 ==> holes[0] <= data.len() as int / dim);
    lemma_outer_read(data, holes, dim);
    lemma_before_merging(data, holes, dim);
    let p = spots(val, l.pts, l.ring);
    assert(spots(val, o.pts, l.ring) =~= p) by {
        assert forall|k: int| 0 <= k < l.ring.len() implies spots(val, o.pts, l.ring)[k]
            == p[k] by {
            assert(0 <= l.ring[k] < l.pts.len());
            assert(o.pts[l.ring[k]].x == l.pts[l.ring[k]].x);
        }
    }
    lemma_along_reversed(c);
    lemma_along_seen(c, n - 1);
    lemma_along_seen(c.reverse(), n - 1);
    if p == seen_at(c.reverse(), n - 1) {
        lemma_along_through(p, c.reverse(), c);
    }
    lemma_drawn_along(data, dim, p, c, 0);
    lemma_ring_weak(p, all);
    lemma_simple_weak(p);
}

/// The hole that is merged at place `j` is one that is given.
proof fn lemma_hole_at(data: Seq<Exact>, holes: Seq<usize>, dim: int, j: int) -> (g: int)
    requires
        well_placed(data, holes, dim),
        0 <= j < merging_order(data, holes, dim).len(),
    ensures
        ({
            let o = merged_outline(data, holes, dim, 0);
            let s = merging_order(data, holes, dim);
            let h = spots(integer(), o.pts, s[j]);
            let q = queued(outer_ring(data, holes, dim).pts, data, dim, holes, holes.len() as int);
            &&& 0 <= g < holes.len()
            &&& q.holes.len() == holes.len()
            &&& s[j] == q.holes[g]
            &&& s[j].len() >= 3
            &&& ring_used(o.pts, in_use(o, s), s[j])
            &&& read_well(h, hole_ring(data, holes, dim, g))
            &&& alike(h, hole_ring(data, holes, dim, g))
            &&& hole_like(h, all_vertices(data, dim))
        }),
{
    let val = integer();
    let count = data.len() as int / dim;
    let l = outer_ring(data, holes, dim);
    let q = queued(l.pts, data, dim, holes, holes.len() as int);
    let o = merged_outline(data, holes, dim, 0);
    let s = merging_order(data, holes, dim);
    let all = all_vertices(data, dim);
    lemma_outer_read(data, holes, dim);
    lemma_before_merging(data, holes, dim);
    lemma_simple_holes(l.pts, data, dim, holes, holes.len() as int);
    lemma_holes_read(l.pts, data, dim, holes, holes.len() as int);
    lemma_order_taken(data, holes, dim);
    assert(o.pts == q.pts);
    assert(q.holes.contains(s[j]));
    let g = q.holes.index_of(s[j]);
    let v = hole_ring(data, holes, dim, g);
    let h = spots(val, q.pts, q.holes[g]);
    assert(q.holes[g].len() >= 3 && read_well(h, v));
    assert(alike(h, v));
    assert(is_ring(s[j], o.pts.len() as int));
    assert(holes[g] < hole_end(holes, count, g));
    assert(g + 1 < holes.len() ==> holes[g + 1] <= count);
    lemma_drawn_along(data, dim, h, v, holes[g] as int);
    lemma_ring_weak(h, all);
    lemma_simple_weak(h);
    assert forall|k: int| 0 <= k < s[j].len() implies 0 <= (#[trigger] s[j][k]) < o.pts.len()
        && in_use(o, s)(o.pts[s[j][k]].i) by {
        assert(s[j].contains(s[j][k]));
        assert(in_some_ring(o, s, s[j][k]));
    }
    g
}

/// The holes that are read run clockwise from their leftmost corners, beside each other, and the
/// outer ring runs around them.
#[verifier::spinoff_prover]
proof fn lemma_all_ready(data: Seq<Exact>, holes: Seq<usize>, dim: int)
    requires
        well_placed(data, holes, dim),
    ensures
        ({
            let o = merged_outline(data, holes, dim, 0);
            let s = merging_order(data, holes, dim);
            let all = all_vertices(data, dim);
            &&& holes_ready(o.pts, in_use(o, s), s, all)
            &&& merged_well(o, in_use(o, s), o.pts, s, all, 0)
        }),
{
    let val = integer();
    let o = merged_outline(data, holes, dim, 0);
    let s = merging_order(data, holes, dim);
    let all = all_vertices(data, dim);
    lemma_outer_along(data, holes, dim);
    lemma_outer_read(data, holes, dim);
    lemma_before_merging(data, holes, dim);
    assert forall|j: int| 0 <= j < s.len() implies ring_used(
        o.pts,
        in_use(o, s),
        #[trigger] s[j],
    ) && hole_like(spots(val, o.pts, s[j]), all) by {
        let g = lemma_hole_at(data, holes, dim, j);
    }
    assert forall|k: int| 0 <= k < o.ring.len() implies 0 <= (#[trigger] o.ring[k]) < o.pts.len()
        && in_use(o, s)(o.pts[o.ring[k]].i) by {
        assert(o.ring.contains(o.ring[k]));
        assert(in_some_ring(o, s, o.ring[k]));
    }
    lemma_rings_sound(data, holes, dim);
    assert forall|i: int, j: int| 0 <= i < j < s.len() implies after_hole(
        spots(val, o.pts, #[trigger] s[i]),
        spots(val, o.pts, #[trigger] s[j]),
    ) by {
        lemma_after_hole(data, holes, dim, i, j);
    }
    let p = spots(val, o.pts, o.ring);
    assert forall|j: int| 0 <= j < s.len() implies awaits(
        p,
        spots(val, o.pts, #[trigger] s[j]),
    ) by {
        lemma_outer_awaits(data, holes, dim, j);
    }
}

/// No two nodes of the rings are at the same place.
#[verifier::spinoff_prover]
proof fn lemma_node_alone(data: Seq<Exact>, holes: Seq<usize>, dim: int, x: int, y: int)
    requires
        well_placed(data, holes, dim),
        ({
            let o = merged_outline(data, holes, dim, 0);
            let s = merging_order(data, holes, dim);
            &&& in_some_ring(o, s, x)
            &&& in_some_ring(o, s, y)
            &&& spot(integer(), o.pts, x) == spot(integer(), o.pts, y)
        }),
    ensures
        x == y,
{
    let val = integer();
    let o = merged_outline(data, holes, dim, 0);
    let s = merging_order(data, holes, dim);
    lemma_outer_along(data, holes, dim);
    let p = spots(val, o.pts, o.ring);
    if o.ring.contains(x) && o.ring.contains(y) {
        let (a, b) = (o.ring.index_of(x), o.ring.index_of(y));
        assert(o.ring[a] == x && o.ring[b] == y && 0 <= a < o.ring.len() && 0 <= b < o.ring.len());
        assert(p[a] == p[b]);
        lemma_distinct(p);
    } else if o.ring.contains(x) {
        let j = choose|j: int| 0 <= j < s.len() && (#[trigger] s[j]).contains(y);
        lemma_outer_awaits(data, holes, dim, j);
        lemma_met(o.pts, o.ring, s[j], x, y);
    } else if o.ring.contains(y) {
        let j = choose|j: int| 0 <= j < s.len() && (#[trigger] s[j]).contains(x);
        lemma_outer_awaits(data, holes, dim, j);
        lemma_met(o.pts, o.ring, s[j], y, x);
    } else {
        let i = choose|i: int| 0 <= i < s.len() && (#[trigger] s[i]).contains(x);
        let j = choose|j: int| 0 <= j < s.len() && (#[trigger] s[j]).contains(y);
        if i < j {
            lemma_after_hole(data, holes, dim, i, j);
            lemma_met(o.pts, s[i], s[j], x, y);
        } else if j < i {
            lemma_after_hole(data, holes, dim, j, i);
            lemma_met(o.pts, s[j], s[i], y, x);
        } else {
            lemma_hole_at(data, holes, dim, i);
            let h = spots(val, o.pts, s[i]);
            let (a, b) = (s[i].index_of(x), s[i].index_of(y));
            assert(s[i][a] == x && s[i][b] == y && 0 <= a < s[i].len() && 0 <= b < s[i].len());
            assert(h[a] == h[b]);
            lemma_distinct(h);
        }
    }
}

/// Rings without a common corner do not meet at a node.
proof fn lemma_met(pts: Seq<Pt<Exact>>, r: Seq<int>, t: Seq<int>, x: int, y: int)
    requires
        strangers(spots(integer(), pts, r), spots(integer(), pts, t)),
        r.contains(x),
        t.contains(y),
    ensures
        spot(integer(), pts, x) != spot(integer(), pts, y),
{
    let (p, h) = (spots(integer(), pts, r), spots(integer(), pts, t));
    let (a, b) = (r.index_of(x), t.index_of(y));
    assert(r[a] == x && t[b] == y && 0 <= a < r.len() && 0 <= b < t.len());
    assert(p[a] != h[b]);
}

/// The table that is read is sound for the vertices in use.
#[verifier::spinoff_prover]
proof fn lemma_rings_sound(data: Seq<Exact>, holes: Seq<usize>, dim: int)
    requires
        well_placed(data, holes, dim),
    ensures
        ({
            let o = merged_outline(data, holes, dim, 0);
            sound_table(o.pts, in_use(o, merging_order(data, holes, dim)))
        }),
{
    let val = integer();
    let o = merged_outline(data, holes, dim, 0);
    let s = merging_order(data, holes, dim);
    let pts = o.pts;
    let used = in_use(o, s);
    lemma_outer_read(data, holes, dim);
    lemma_before_merging(data, holes, dim);
    assert forall|h: int, k: int|
        0 <= h < pts.len() && 0 <= k < pts.len() && used((#[trigger] pts[h]).i) && used(
            (#[trigger] pts[k]).i,
        ) implies (pts[h].i == pts[k].i <==> spot(val, pts, h) == spot(val, pts, k)) by {
        let x = choose|x: int| #[trigger] in_some_ring(o, s, x) && pts[x].i == pts[h].i;
        let y = choose|y: int| #[trigger] in_some_ring(o, s, y) && pts[y].i == pts[k].i;
        lemma_ring_node(data, holes, dim, x);
        lemma_ring_node(data, holes, dim, y);
        assert(spot(val, pts, x) == spot(val, pts, h));
        assert(spot(val, pts, y) == spot(val, pts, k));
        if spot(val, pts, h) == spot(val, pts, k) {
            lemma_node_alone(data, holes, dim, x, y);
        }
    }
}

/// The nodes of the rings are nodes of the table.
proof fn lemma_ring_node(data: Seq<Exact>, holes: Seq<usize>, dim: int, x: int)
    requires
        well_placed(data, holes, dim),
        in_some_ring(
            merged_outline(data, holes, dim, 0),
            merging_order(data, holes, dim),
            x,
        ),
    ensures
        0 <= x < merged_outline(data, holes, dim, 0).pts.len(),
{
    let o = merged_outline(data, holes, dim, 0);
    let s = merging_order(data, holes, dim);
    lemma_outer_read(data, holes, dim);
    lemma_before_merging(data, holes, dim);
    if o.ring.contains(x) {
        let a = o.ring.index_of(x);
        assert(o.ring[a] == x && 0 <= a < o.ring.len());
    } else {
        let j = choose|j: int| 0 <= j < s.len() && (#[trigger] s[j]).contains(x);
        assert(is_ring(s[j], o.pts.len() as int));
        let a = s[j].index_of(x);
        assert(s[j][a] == x && 0 <= a < s[j].len());
    }
}

/// A hole that is merged before another.
#[verifier::spinoff_prover]
proof fn lemma_after_hole(data: Seq<Exact>, holes: Seq<usize>, dim: int, i: int, j: int)
    requires
        well_placed(data, holes, dim),
        0 <= i < j < merging_order(data, holes, dim).len(),
    ensures
        ({
            let o = merged_outline(data, holes, dim, 0);
            let s = merging_order(data, holes, dim);
            after_hole(spots(integer(), o.pts, s[i]), spots(integer(), o.pts, s[j]))
        }),
{
    let val = integer();
    let o = merged_outline(data, holes, dim, 0);
    let s = merging_order(data, holes, dim);
    lemma_outer_read(data, holes, dim);
    lemma_before_merging(data, holes, dim);
    let f = lemma_hole_at(data, holes, dim, i);
    let g = lemma_hole_at(data, holes, dim, j);
    let (u, v) = (hole_ring(data, holes, dim, f), hole_ring(data, holes, dim, g));
    let (h, k) = (spots(val, o.pts, s[i]), spots(val, o.pts, s[j]));
    assert(f != g) by {
        if f == g {
            assert(s[i].contains(s[i][0]) && s[j].contains(s[i][0]));
        }
    }
    assert(holes_beside(data, holes, dim, f, g));
    assert(uncrossing_rings(u, v));
    lemma_strangers(h, u, k, v);
    lemma_along_uncrossed(h, u, k, v);
    let a = lemma_corner_along(k, v, 0);
    assert(off_ring(u, v[a]) && winding(u, v[a]) == 0);
    assert(winding(h, k[0]) == winding(u, k[0]) || winding(h, k[0]) == -winding(u, k[0]));
}

/// A hole that awaits its turn in the outer ring.
#[verifier::spinoff_prover]
proof fn lemma_outer_awaits(data: Seq<Exact>, holes: Seq<usize>, dim: int, j: int)
    requires
        well_placed(data, holes, dim),
        0 <= j < merging_order(data, holes, dim).len(),
    ensures
        ({
            let o = merged_outline(data, holes, dim, 0);
            let s = merging_order(data, holes, dim);
            awaits(spots(integer(), o.pts, o.ring), spots(integer(), o.pts, s[j]))
        }),
{
    let val = integer();
    let l = outer_ring(data, holes, dim);
    let o = merged_outline(data, holes, dim, 0);
    let s = merging_order(data, holes, dim);
    let c = outer_corners(data, holes, dim);
    lemma_outer_along(data, holes, dim);
    lemma_outer_read(data, holes, dim);
    lemma_before_merging(data, holes, dim);
    let g = lemma_hole_at(data, holes, dim, j);
    let v = hole_ring(data, holes, dim, g);
    let (p, h) = (spots(val, o.pts, o.ring), spots(val, o.pts, s[j]));
    assert(hole_within(data, holes, dim, g));
    assert(uncrossing_rings(c, v));
    lemma_strangers(p, c, h, v);
    lemma_along_uncrossed(p, c, h, v);
    let a = lemma_corner_along(h, v, 0);
    let z = v[a];
    assert(off_ring(c, v[a]) && winding(c, v[a]) != 0);
    lemma_within_outer(data, holes, dim, z);
    assert(spots(val, l.pts, l.ring) =~= p) by {
        assert forall|k: int| 0 <= k < l.ring.len() implies spots(val, l.pts, l.ring)[k]
            == p[k] by {
            assert(0 <= l.ring[k] < l.pts.len());
            assert(o.pts[l.ring[k]].x == l.pts[l.ring[k]].x);
        }
    }
    lemma_once_around(p, z);
}

// ---------------------------------------------------------------------------------------------
// One hole after the other
// ---------------------------------------------------------------------------------------------
/// The bridge of the hole whose turn it is.
proof fn lemma_next_bridge(data: Seq<Exact>, holes: Seq<usize>, dim: int, j: int) -> (i: int)
    requires
        well_placed(data, holes, dim),
        0 <= j < merging_order(data, holes, dim).len(),
        merged_well(
            merged_outline(data, holes, dim, j),
            in_use(merged_outline(data, holes, dim, 0), merging_order(data, holes, dim)),
            merged_outline(data, holes, dim, 0).pts,
            merging_order(data, holes, dim),
            all_vertices(data, dim),
            j,
        ),
    ensures
        ({
            let w = merged_outline(data, holes, dim, j);
            let p = spots(integer(), w.pts, w.ring);
            let q = hole_spot(data, holes, dim, j);
            &&& is_ring(w.ring, w.pts.len() as int)
            &&& 0 <= i < w.ring.len()
            &&& bridge(w, merging_order(data, holes, dim)[j][0]) == Some(w.ring[i])
            &&& p[i].0 < q.0
            &&& sees(p, q, i)
            &&& faces(p, i, q)
        }),
{
    let val = integer();
    let o = merged_outline(data, holes, dim, 0);
    let w = merged_outline(data, holes, dim, j);
    let s = merging_order(data, holes, dim);
    let all = all_vertices(data, dim);
    let hole = s[j][0];
    lemma_outer_read(data, holes, dim);
    lemma_before_merging(data, holes, dim);
    lemma_all_ready(data, holes, dim);
    lemma_merged_all_ring(o, s, j);
    lemma_index_kept(data, holes, dim, j);
    let h = spots(val, o.pts, s[j]);
    assert(ring_used(o.pts, in_use(o, s), s[j]) && hole_like(h, all));
    let p = spots(val, w.pts, w.ring);
    lemma_awaiting(p, h, all);
    assert(0 <= hole < o.pts.len());
    assert(o.pts[hole] == w.pts[hole]);
    assert(spot(val, w.pts, hole) == h[0]);
    lemma_bridge_seen(w, hole)
}

/// The outline with the first `k` holes merged into it.
proof fn lemma_holes_merged(data: Seq<Exact>, holes: Seq<usize>, dim: int, k: int)
    requires
        well_placed(data, holes, dim),
        0 <= k <= merging_order(data, holes, dim).len(),
    ensures
        merged_well(
            merged_outline(data, holes, dim, k),
            in_use(merged_outline(data, holes, dim, 0), merging_order(data, holes, dim)),
            merged_outline(data, holes, dim, 0).pts,
            merging_order(data, holes, dim),
            all_vertices(data, dim),
            k,
        ),
        merged_outline(data, holes, dim, k).ring.len() == outer_corners(data, holes, dim).len()
            + total_len(merging_order(data, holes, dim), k) + 2 * k,
    decreases k,
{
    let o = merged_outline(data, holes, dim, 0);
    let s = merging_order(data, holes, dim);
    let all = all_vertices(data, dim);
    lemma_all_ready(data, holes, dim);
    lemma_outer_along(data, holes, dim);
    if k > 0 {
        lemma_holes_merged(data, holes, dim, k - 1);
        let w = merged_outline(data, holes, dim, k - 1);
        let i = lemma_next_bridge(data, holes, dim, k - 1);
        lemma_hole_at(data, holes, dim, k - 1);
        lemma_merged_next(w, in_use(o, s), o.pts, s, all, k - 1, i);
        assert(merged_outline(data, holes, dim, k) == merged(w, s[k - 1]));
    }
}

/// Every hole of a polygon no three of whose vertices lie on one line, unless two of them are at
/// the same place, is connected, when its turn comes, to a node that it sees, strictly to its left:
/// all edges of the ring that the outer ring and the holes before it have become, and that do not
/// end there, are apart from the bridge. Of the nodes at that place, it is the one whose angle the
/// bridge leads into. The last vertex of a ring may repeat the first.
pub proof fn lemma_bridge_in_turn(data: Seq<Exact>, holes: Seq<usize>, dim: int, j: int) -> (i: int)
    requires
        is_flat(data, holes, dim),
        integral(data),
        simple(outer_corners(data, holes, dim)),
        holes_in_place(data, holes, dim),
        forall|k: int|
            0 <= k < holes.len() ==> simple(opened(#[trigger] hole_ring(data, holes, dim, k))),
        rings_uncrossed(data, holes, dim),
        scattered(vertex_ring(data, dim, 0, data.len() as int / dim)),
        0 <= j < merging_order(data, holes, dim).len(),
    ensures
        ({
            let w = merged_outline(data, holes, dim, j);
            let p = spots(integer(), w.pts, w.ring);
            let q = hole_spot(data, holes, dim, j);
            &&& 0 <= i < w.ring.len()
            &&& bridge(w, merging_order(data, holes, dim)[j][0]) == Some(w.ring[i])
            &&& p[i].0 < q.0
            &&& sees(p, q, i)
            &&& faces(p, i, q)
        }),
{
    lemma_holes_merged(data, holes, dim, j);
    lemma_next_bridge(data, holes, dim, j)
}

// ---------------------------------------------------------------------------------------------
// The grid
// ---------------------------------------------------------------------------------------------
/// Where none of the first `k` edges passes a point on the right upwards, the ring does not run
/// around it.
proof fn lemma_no_rise(p: Seq<(int, int)>, z: (int, int), k: int)
    requires
        0 <= k <= p.len(),
        forall|i: int| 0 <= i < p.len() ==> passes(#[trigger] p[i], next(p, i), z) <= 0,
    ensures
        passings(p, z, k) <= 0,
    decreases k,
{
    if k > 0 {
        lemma_no_rise(p, z, k - 1);
        assert(passes(p[k - 1], next(p, k - 1), z) <= 0);
    }
}

/// The point `v` is not to the right of `z`, not to its left, not above or not below it.
spec fn beyond(v: (int, int), z: (int, int), side: int) -> bool {
    if side == 0 {
        v.0 <= z.0
    } else if side == 1 {
        v.0 >= z.0
    } else if side == 2 {
        v.1 <= z.1
    } else {
        v.1 >= z.1
    }
}

/// A ring that runs around a point has corners on all sides of it.
#[verifier::spinoff_prover]
proof fn lemma_all_sides(p: Seq<(int, int)>, z: (int, int), side: int) -> (a: int)
    requires
        p.len() > 0,
        winding(p, z) > 0,
    ensures
        0 <= a < p.len(),
        beyond(p[a], z, side),
{
    let n = p.len() as int;
    let i = if side == 1 {
        if forall|i: int| 0 <= i < p.len() ==> passes(#[trigger] p[i], next(p, i), z) <= 0 {
            lemma_no_rise(p, z, n);
        }
        choose|i: int| 0 <= i < p.len() && passes(#[trigger] p[i], next(p, i), z) > 0
    } else {
        lemma_some_fall(p, z)
    };
    let (u, v) = (p[i], next(p, i));
    lemma_tri(u, v, z);
    lemma_differences(u.0, z.0, v.1, z.1);
    lemma_differences(u.1, z.1, v.0, z.0);
    lemma_signs(u.0 - z.0, v.1 - z.1);
    lemma_signs(u.1 - z.1, v.0 - z.0);
    assert(tri(z, u, v) == (u.0 - z.0) * (v.1 - z.1) - (u.1 - z.1) * (v.0 - z.0));
    if beyond(u, z, side) {
        i
    } else {
        assert(beyond(v, z, side));
        after(i, n)
    }
}

/// The hole that holds a vertex.
proof fn lemma_hole_of(holes: Seq<usize>, count: int, v: int, k: int) -> (j: int)
    requires
        0 <= k < holes.len(),
        holes[k] <= v < count,
    ensures
        0 <= j < holes.len(),
        holes[j] <= v < hole_end(holes, count, j),
    decreases holes.len() - k,
{
    if k + 1 < holes.len() && holes[k + 1] <= v {
        lemma_hole_of(holes, count, v, k + 1)
    } else {
        k
    }
}

/// A vertex of a hole lies between vertices of the outer ring.
#[verifier::spinoff_prover]
proof fn lemma_between_outer(
    data: Seq<Exact>,
    holes: Seq<usize>,
    dim: int,
    v: int,
    side: int,
) -> (a: int)
    requires
        well_placed(data, holes, dim),
        0 <= v < data.len() as int / dim,
    ensures
        0 <= a < outer_count(holes, data.len() as int / dim),
        beyond(
            corners(integer(), data, dim)(a),
            corners(integer(), data, dim)(v),
            side,
        ),
{
    let val = integer();
    let count = data.len() as int / dim;
    let at = corners(val, data, dim);
    let outer = outer_count(holes, count);
    if v < outer {
        v
    } else {
        let j = lemma_hole_of(holes, count, v, 0);
        let h = hole_ring(data, holes, dim, j);
        let c = outer_corners(data, holes, dim);
        let l = outer_ring(data, holes, dim);
        let o = merged_outline(data, holes, dim, 0);
        let z = at(v);
        assert(h[v - holes[j]] == z);
        assert(hole_within(data, holes, dim, j));
        assert(off_ring(c, h[v - holes[j]]) && winding(c, h[v - holes[j]]) != 0);
        lemma_outer_read(data, holes, dim);
        lemma_within_outer(data, holes, dim, z);
        let p = spots(val, l.pts, l.ring);
        let k = lemma_all_sides(p, z, side);
        let n = c.len() as int;
        lemma_along_reversed(c);
        lemma_along_seen(c, n - 1);
        lemma_along_seen(c.reverse(), n - 1);
        if p == seen_at(c.reverse(), n - 1) {
            lemma_along_through(p, c.reverse(), c);
        }
        lemma_corner_along(p, c, k)
    }
}

/// All vertices are inside the box around the outer ring.
#[verifier::spinoff_prover]
proof fn lemma_inside_extent(data: Seq<Exact>, holes: Seq<usize>, dim: int)
    requires
        well_placed(data, holes, dim),
    ensures
        all_inside(data, dim, outer_count(holes, data.len() as int / dim)),
{
    let count = data.len() as int / dim;
    let at = corners(integer(), data, dim);
    let outer = outer_count(holes, count);
    let b = extent(data, dim, outer);
    assert(holes.len() > 0 ==> holes[0] <= count);
    assert forall|v: int| 0 <= v < count implies {
        &&& b.min_x.at_most_spec((#[trigger] vertex_xy(data, dim, v)).0)
        &&& vertex_xy(data, dim, v).0.at_most_spec(b.max_x)
        &&& b.min_y.at_most_spec(vertex_xy(data, dim, v).1)
        &&& vertex_xy(data, dim, v).1.at_most_spec(b.max_y)
    } by {
        let z = at(v);
        lemma_vertex_coordinates(data, dim, v);
        let (e, f) = (
            lemma_between_outer(data, holes, dim, v, 0),
            lemma_between_outer(data, holes, dim, v, 1),
        );
        let (g, h) = (
            lemma_between_outer(data, holes, dim, v, 2),
            lemma_between_outer(data, holes, dim, v, 3),
        );
        lemma_extent_covers(data, dim, outer, e);
        lemma_extent_covers(data, dim, outer, f);
        lemma_extent_covers(data, dim, outer, g);
        lemma_extent_covers(data, dim, outer, h);
        lemma_vertex_coordinates(data, dim, e);
        lemma_vertex_coordinates(data, dim, f);
        lemma_vertex_coordinates(data, dim, g);
        lemma_vertex_coordinates(data, dim, h);
        let (x0, y0) = (b.min_x.num as int, b.min_y.num as int);
        let (x1, y1) = (b.max_x.num as int, b.max_y.num as int);
        assert(b.min_x == whole(x0) && b.max_x == whole(x1) && b.min_y == whole(y0) && b.max_y
            == whole(y1));
        lemma_picked(x0, at(e).0);
        lemma_picked(at(f).0, x1);
        lemma_picked(y0, at(g).1);
        lemma_picked(at(h).1, y1);
        lemma_picked(x0, z.0);
        lemma_picked(z.0, x1);
        lemma_picked(y0, z.1);
        lemma_picked(z.1, y1);
    }
}

// ---------------------------------------------------------------------------------------------
// The law
// ---------------------------------------------------------------------------------------------
/// The number of corners of the outer ring and of the holes.
pub open spec fn corner_total(data: Seq<Exact>, holes: Seq<usize>, dim: int) -> nat {
    outer_corners(data, holes, dim).len() + hole_corners(data, holes, dim, holes.len() as int)
}

/// The single ring that merging the holes gives.
#[verifier::spinoff_prover]
proof fn lemma_single_weak(data: Seq<Exact>, holes: Seq<usize>, dim: int)
    requires
        well_placed(data, holes, dim),
    ensures
        ({
            let w = single_ring(data, holes, dim);
            let used = in_use(
                merged_outline(data, holes, dim, 0),
                merging_order(data, holes, dim),
            );
            &&& sound_table(w.pts, used)
            &&& ring_used(w.pts, used, w.ring)
            &&& weakly_left(spots(integer(), w.pts, w.ring))
            &&& w.ring.len() == corner_total(data, holes, dim) + 2 * holes.len()
        }),
{
    let l = outer_ring(data, holes, dim);
    let q = queued(l.pts, data, dim, holes, holes.len() as int);
    let s = merging_order(data, holes, dim);
    let used = in_use(merged_outline(data, holes, dim, 0), s);
    let n = q.pts.len() as int;
    lemma_outer_read(data, holes, dim);
    lemma_before_merging(data, holes, dim);
    lemma_simple_holes(l.pts, data, dim, holes, holes.len() as int);
    lemma_queued_rings(l.pts, data, dim, holes, holes.len() as int, l.ring);
    assert forall|j: int| 0 <= j < q.holes.len() implies in_table(#[trigger] q.holes[j], n)
        && q.holes[j].len() > 0 by {
        assert(is_ring(q.holes[j], n));
    }
    lemma_in_order_ok(q.pts, q.holes, n);
    assert(s.len() == holes.len());
    let o = merged_outline(data, holes, dim, s.len() as int);
    lemma_holes_merged(data, holes, dim, s.len() as int);
    lemma_weak_swept(o.pts, o.ring, 0);
    lemma_nodes_used(o.pts, used, o.ring, swept(o.pts, o.ring, 0));
    if holes.len() == 0 {
        assert(o.pts == l.pts && o.ring == l.ring);
    }
}

/// The triangulation of a polygon with integer coordinates of moderate size, which may have holes,
/// is complete: `n` corners and `h` holes give `n + 2 * h - 2` triangles, without deviation. The
/// rings are simple and may run either way, and the last vertex of each may repeat the first; the
/// holes are inside the outer ring and beside each other, no edges of different rings cross, and no
/// three vertices lie on one line, unless two of them are at the same place.
///
/// Where vertices lie on one line, this can fail: the outer ring `(1, 3)`, `(0, 4)`, `(0, 5)`,
/// `(3, 6)`, `(4, 5)`, `(6, 2)`, `(6, 1)`, `(3, 0)` with the holes `(4, 3)`, `(4, 4)`, `(5, 3)` and
/// `(3, 1)`, `(3, 2)`, `(2, 2)` and `(5, 2)`, `(4, 2)`, `(3, 3)` is triangulated with a deviation
/// of 1 / 39.
pub proof fn lemma_holed_polygon(data: Seq<Exact>, holes: Seq<usize>, dim: int)
    requires
        is_flat(data, holes, dim),
        integral(data),
        simple(outer_corners(data, holes, dim)),
        holes_in_place(data, holes, dim),
        forall|j: int|
            0 <= j < holes.len() ==> simple(opened(#[trigger] hole_ring(data, holes, dim, j))),
        rings_uncrossed(data, holes, dim),
        scattered(vertex_ring(data, dim, 0, data.len() as int / dim)),
    ensures
        sliced_completely(data, holes, dim),
        triangulation(data, holes, dim).len() == 3 * (corner_total(data, holes, dim) + 2
            * holes.len() - 2),
        deviation_spec(data, holes, dim, triangulation(data, holes, dim)).same_spec(
            zero::<Exact>(),
        ),
{
    let count = data.len() as int / dim;
    let outer = outer_count(holes, count);
    let w = single_ring(data, holes, dim);
    let g = ear_grid(data, dim, outer);
    let used = in_use(merged_outline(data, holes, dim, 0), merging_order(data, holes, dim));
    lemma_outer_read(data, holes, dim);
    lemma_single_weak(data, holes, dim);
    lemma_whole(0, 0);
    let plain = if hashed(g) {
        Grid { inv_size: zero::<Exact>(), ..g }
    } else {
        g
    };
    assert(!hashed(plain));
    lemma_weak_sliced(w.pts, w.ring, plain, used);
    if hashed(g) {
        lemma_inside_extent(data, holes, dim);
        lemma_integral_slices(data, holes, dim, plain);
    }
    lemma_given_holes_connected(data, holes, dim);
    assert forall|i: int| 0 <= i < holes.len() implies #[trigger] holes[i] <= hole_end(
        holes,
        count,
        i,
    ) by {}
    lemma_count_fits(data.len() as int, dim);
    lemma_rings_countable(holes, count, holes.len() as int);
    lemma_no_deviation(data, holes, dim);
}

/// A ring whose vertices all differ repeats none.
proof fn lemma_open(data: Seq<Exact>, dim: int, from: int, to: int)
    requires
        0 <= from < to <= data.len() as int / dim,
        no_three_in_line(all_vertices(data, dim)),
        all_vertices(data, dim).len() >= 3,
    ensures
        opened(vertex_ring(data, dim, from, to)) == vertex_ring(data, dim, from, to),
        to >= from + 2 ==> corners(integer(), data, dim)(to - 1) != corners(integer(), data, dim)(
            from,
        ),
{
    let all = all_vertices(data, dim);
    let at = corners(integer(), data, dim);
    let v = vertex_ring(data, dim, from, to);
    if to >= from + 2 {
        assert(all[from] == at(0 + from) && all[to - 1] == at(0 + (to - 1)));
        assert(v[0] == at(from + 0) && v.last() == at(from + (to - from - 1)));
        lemma_two_differ(all, from, to - 1);
    }
}

/// Holes whose vertices all differ have as many corners.
proof fn lemma_all_open(data: Seq<Exact>, holes: Seq<usize>, dim: int, k: int)
    requires
        is_flat(data, holes, dim),
        holes_filled(holes, data.len() as int / dim),
        no_three_in_line(all_vertices(data, dim)),
        all_vertices(data, dim).len() >= 3,
        0 <= k <= holes.len(),
    ensures
        forall|j: int|
            0 <= j < k ==> opened(#[trigger] hole_ring(data, holes, dim, j)) == hole_ring(
                data,
                holes,
                dim,
                j,
            ),
        hole_corners(data, holes, dim, k) == hole_vertices(holes, data.len() as int / dim, k),
    decreases k,
{
    if k > 0 {
        let count = data.len() as int / dim;
        lemma_all_open(data, holes, dim, k - 1);
        assert(holes[k - 1] < hole_end(holes, count, k - 1));
        assert(k < holes.len() ==> holes[k] <= count);
        lemma_open(data, dim, holes[k - 1] as int, hole_end(holes, count, k - 1));
    }
}

/// The triangulation of a polygon with integer coordinates of moderate size, which may have holes,
/// has as many triangles as it can have: `n` vertices and `h` holes give `n + 2 * h - 2` triangles,
/// without deviation. The rings are simple and may run either way, the holes are inside the outer
/// ring and beside each other, no edges of different rings cross, and no three vertices lie on one
/// line. Where vertices lie on one line, this can fail, as the example at [`lemma_holed_polygon`]
/// shows.
pub proof fn lemma_holes_polygon(data: Seq<Exact>, holes: Seq<usize>, dim: int)
    requires
        is_flat(data, holes, dim),
        integral(data),
        simple(outer_corners(data, holes, dim)),
        holes_in_place(data, holes, dim),
        forall|j: int| 0 <= j < holes.len() ==> simple(#[trigger] hole_ring(data, holes, dim, j)),
        rings_uncrossed(data, holes, dim),
        no_three_in_line(vertex_ring(data, dim, 0, data.len() as int / dim)),
    ensures
        sliced_completely(data, holes, dim),
        triangulation(data, holes, dim).len() == 3 * full_count(holes, data.len() as int / dim),
        full_count(holes, data.len() as int / dim) == data.len() as int / dim + 2 * holes.len()
            - 2,
        deviation_spec(data, holes, dim, triangulation(data, holes, dim)).same_spec(
            zero::<Exact>(),
        ),
{
    let count = data.len() as int / dim;
    let all = all_vertices(data, dim);
    assert(scattered(all)) by {
        assert forall|a: int, b: int, c: int|
            0 <= a < all.len() && 0 <= b < all.len() && 0 <= c < all.len() && all[a] != all[b]
                && all[b] != all[c] && all[a] != all[c] implies #[trigger] tri(
            all[a],
            all[b],
            all[c],
        ) != 0 by {}
    }
    assert(holes.len() > 0 ==> holes[0] <= count);
    assert(outer_count(holes, count) >= outer_corners(data, holes, dim).len());
    lemma_open(data, dim, 0, outer_count(holes, count));
    lemma_all_open(data, holes, dim, holes.len() as int);
    lemma_holed_polygon(data, holes, dim);
    vstd::arithmetic::div_mod::lemma_div_pos_is_pos(data.len() as int, dim);
    assert forall|i: int| 0 <= i < holes.len() implies #[trigger] holes[i] <= hole_end(
        holes,
        count,
        i,
    ) by {}
    lemma_rings_countable(holes, count, holes.len() as int);
}

/// The triangles of such a polygon cover it and leave its holes out: a point on none of their sides
/// lies in as many of them as the outer ring runs around it, less the holes. The point is `q / k`:
/// the polygon is magnified `k` times to compare it with `q`.
pub proof fn lemma_holes_tiling(
    data: Seq<Exact>,
    holes: Seq<usize>,
    dim: int,
    k: int,
    q: (int, int),
)
    requires
        is_flat(data, holes, dim),
        integral(data),
        simple(outer_corners(data, holes, dim)),
        holes_in_place(data, holes, dim),
        forall|j: int|
            0 <= j < holes.len() ==> simple(opened(#[trigger] hole_ring(data, holes, dim, j))),
        rings_uncrossed(data, holes, dim),
        scattered(vertex_ring(data, dim, 0, data.len() as int / dim)),
        k > 0,
        off_sides(corners(finer(k), data, dim), triangulation(data, holes, dim), q),
    ensures
        layers(corners(finer(k), data, dim), triangulation(data, holes, dim), q) == net_sum(
            by_winding(q),
            corners(finer(k), data, dim),
            holes,
            data.len() as int / dim,
            holes.len() as int,
        ),
{
    lemma_holed_polygon(data, holes, dim);
    lemma_integral_tiling(data, holes, dim, k, q);
}

} // verus!
