//! Holes that touch the ring, and the ends of the slits to them.
use vstd::prelude::*;
use crate::areas::{spot, tri};
use crate::bounds::lemma_bridge;
use crate::bridge_sight::lemma_nearest_edge;
use crate::connecting::lemma_drawn_moderate;
use crate::covering::covered;
use crate::diagonals::off_ring;
use crate::exact::{whole, Exact};
use crate::exact_areas::{integer, integral, lemma_whole};
use crate::exact_polygons::{plain_rank, plain_values};
use crate::exact_rings::{lemma_degenerate_found, lemma_swept_bent};
use crate::fresh_index::{moderate_node, moderate_table};
use crate::hole_model::{
    bridge, connected, healed_outline, in_order, joined, merged, merged_all, outline, queued,
    ray_edge, ray_over, ray_start, seen_from, slit_healed, Outline,
};
use crate::holes_apart::{leftward, lemma_edge_leftward};
use crate::model::{after, backtracked, degenerate, dropped_back, healed, turned, turned_to, Pt};
use crate::rings::{
    apart_from, is_ring, lemma_backtracked_ring, lemma_dropped_ring, lemma_healed_ring,
    lemma_in_order_apart, lemma_joined_ring, lemma_listed_ring, lemma_merged_all_ring,
    lemma_queued_rings, lemma_turned_ring, lemma_turned_to_ring,
};
use crate::scalar::Scalar;
use crate::segments::{lemma_differences, lemma_tri, on};
use crate::simple_polygons::spots;
use crate::spread::lemma_ring_drawn;
use crate::triangulation::{is_flat, outer_count, outer_ring, single_ring};
use crate::winding::next;

verus! {

/// The ray cast at the first edges of a ring, one after the other, is at its end when it meets an
/// edge that ends at its start.
proof fn lemma_touched(pts: Seq<Pt<Exact>>, r: Seq<int>, hole: int, k: int, m: int)
    requires
        moderate_table(pts),
        is_ring(r, pts.len() as int),
        0 <= hole < pts.len(),
        1 <= k < r.len(),
        0 <= m <= r.len(),
        spot(integer(), pts, r[k]) == spot(integer(), pts, hole),
        forall|j: int|
            0 <= j < k - 1 ==> !on(
                spot(integer(), pts, #[trigger] r[j]),
                spot(integer(), pts, r[j + 1]),
                spot(integer(), pts, hole),
            ),
    ensures
        ({
            let s = ray_over(pts, r, pts[hole].x, pts[hole].y, r.take(m), ray_start());
            &&& m < k ==> leftward(pts, pts[hole].x, s)
            &&& m >= k ==> s.done && s.m == Some(r[k])
        }),
    decreases m,
{
    let (hx, hy) = (pts[hole].x, pts[hole].y);
    if m > 0 {
        let nodes = r.take(m);
        let p = r[m - 1];
        lemma_touched(pts, r, hole, k, m - 1);
        assert(nodes.drop_last() =~= r.take(m - 1));
        assert(nodes.last() == p);
        let t = ray_over(pts, r, hx, hy, r.take(m - 1), ray_start());
        assert(r.contains(p));
        let i = r.index_of(p);
        assert(r[i] == p && 0 <= i < r.len());
        assert(i == m - 1);
        if m <= k {
            let n = r[m];
            assert(after(m - 1, r.len() as int) == m);
            assert(0 <= r[m - 1] < pts.len() && 0 <= r[m] < pts.len());
            assert(moderate_node(pts[hole]) && moderate_node(pts[p]) && moderate_node(pts[n]));
            if m < k {
                assert(!on(
                    spot(integer(), pts, r[m - 1]),
                    spot(integer(), pts, r[m - 1 + 1]),
                    spot(integer(), pts, hole),
                ));
                lemma_edge_leftward(pts, hole, t, p, n);
            } else {
                let q = spot(integer(), pts, hole);
                assert(hx == whole(q.0) && hy == whole(q.1) && pts[n].x == whole(q.0) && pts[n].y
                    == whole(q.1));
                lemma_whole(q.0, q.0);
                lemma_whole(q.1, q.1);
                assert(ray_edge(pts, hx, hy, t, p, n).done);
            }
        }
    }
}

/// A hole whose leftmost node lies at a node of the ring is connected to a node at that place, if
/// no edge of the ring before that node runs past it there.
pub proof fn lemma_touching(o: Outline<Exact>, hole: int, k: int)
    requires
        moderate_table(o.pts),
        is_ring(o.ring, o.pts.len() as int),
        o.boxes.len() == 0,
        0 <= hole < o.pts.len(),
        0 <= k < o.ring.len(),
        o.pts[o.ring[k]].x.num == o.pts[hole].x.num,
        o.pts[o.ring[k]].y.num == o.pts[hole].y.num,
        forall|j: int|
            0 <= j < k - 1 ==> !on(
                spot(integer(), o.pts, #[trigger] o.ring[j]),
                spot(integer(), o.pts, o.ring[j + 1]),
                spot(integer(), o.pts, hole),
            ),
    ensures
        ({
            let b = bridge(o, hole);
            &&& b is Some
            &&& o.ring.contains(b->0)
            &&& o.pts[b->0].x.num == o.pts[hole].x.num
            &&& o.pts[b->0].y.num == o.pts[hole].y.num
        }),
{
    let (r, pts) = (o.ring, o.pts);
    let q = spot(integer(), pts, hole);
    let u = spot(integer(), pts, r[0]);
    lemma_bridge(o, hole);
    assert(0 <= r[0] < pts.len());
    assert(moderate_node(pts[hole]) && moderate_node(pts[r[0]]));
    assert(pts[hole].x == whole(q.0) && pts[hole].y == whole(q.1) && pts[r[0]].x == whole(u.0)
        && pts[r[0]].y == whole(u.1));
    lemma_whole(q.0, u.0);
    lemma_whole(q.1, u.1);
    if k > 0 {
        lemma_touched(pts, r, hole, k, r.len() as int);
        assert(r.take(r.len() as int) =~= r);
    }
}

/// The first node of the ring stays: it is a Steiner point, or lies neither at the next node nor on
/// a line with both neighbours.
pub open spec fn first_stays(pts: Seq<Pt<Exact>>, r: Seq<int>) -> bool {
    let n = r.len() as int;
    let (a, b, c) = (pts[r[n - 1]], pts[r[0]], pts[r[1]]);
    ||| n < 2
    ||| b.steiner
    ||| {
        &&& b.x.num != c.x.num || b.y.num != c.y.num
        &&& (b.x.num - a.x.num) * (c.y.num - b.y.num) != (b.y.num - a.y.num) * (c.x.num - b.x.num)
    }
}

/// Dropping nodes backwards ends at a node that stays.
proof fn lemma_backtracked_stays(pts: Seq<Pt<Exact>>, r: Seq<int>)
    requires
        moderate_table(pts),
        is_ring(r, pts.len() as int),
    ensures
        first_stays(pts, backtracked(pts, r)),
    decreases r.len(),
{
    if degenerate(pts, r) {
        lemma_dropped_ring(r, pts.len() as int);
        lemma_backtracked_stays(pts, dropped_back(r));
    } else if r.len() >= 2 {
        lemma_degenerate_found(pts, r);
        let n = r.len() as int;
        let p = spots(integer(), pts, r);
        let (a, b, c) = (p[n - 1], p[0], p[1]);
        assert(p.last() == a);
        lemma_differences(b.0, a.0, c.1, b.1);
        lemma_differences(b.1, a.1, c.0, b.0);
    }
}

/// Healing ends at a node that stays.
pub proof fn lemma_healed_stays(pts: Seq<Pt<Exact>>, r: Seq<int>)
    requires
        moderate_table(pts),
        is_ring(r, pts.len() as int),
    ensures
        first_stays(pts, healed(pts, r)),
{
    lemma_backtracked_ring(pts, r, pts.len() as int);
    lemma_turned_ring(backtracked(pts, r), pts.len() as int);
    lemma_backtracked_stays(pts, turned(backtracked(pts, r)));
}

/// A ring into which a hole has been merged is seen from a node that stays. The table has two more
/// points, at the ends of the slit, of the same vertices, and neither of them a Steiner point.
pub proof fn lemma_merged_stays(o: Outline<Exact>, hole: Seq<int>)
    requires
        moderate_table(o.pts),
        is_ring(o.ring, o.pts.len() as int),
        is_ring(hole, o.pts.len() as int),
        apart_from(o.ring, hole),
        bridge(o, hole[0]) is Some,
    ensures
        first_stays(merged(o, hole).pts, merged(o, hole).ring),
        ({
            let (m, b) = (merged(o, hole), bridge(o, hole[0])->0);
            let n = o.pts.len() as int;
            &&& m.pts.len() == n + 2
            &&& forall|h: int| 0 <= h < n ==> #[trigger] m.pts[h] == o.pts[h]
            &&& m.pts[n] == Pt { steiner: false, ..o.pts[b] }
            &&& m.pts[n + 1] == Pt { steiner: false, ..o.pts[hole[0]] }
        }),
{
    let n = o.pts.len() as int;
    lemma_bridge(o, hole[0]);
    let b = bridge(o, hole[0])->0;
    let at = o.ring.index_of(b);
    assert(0 <= at < o.ring.len() && o.ring[at] == b);
    let r = seen_from(o.ring, b);
    lemma_turned_to_ring(o.ring, at, n);
    let c = connected(o, hole, b);
    assert forall|h: int| #[trigger] hole.contains(h) implies !r.contains(h) by {
        assert(!o.ring.contains(h));
    }
    lemma_joined_ring(r, hole, n);
    assert(c.ring == joined(r, hole, n) && c.pts.len() == n + 2);
    assert(moderate_table(c.pts)) by {
        assert(0 <= hole[0] < n && 0 <= o.ring[at] < n);
        assert(moderate_node(o.pts[b]) && moderate_node(o.pts[hole[0]]));
        assert forall|h: int| 0 <= h < c.pts.len() implies moderate_node(#[trigger] c.pts[h]) by {
            if h < n {
                assert(c.pts[h] == o.pts[h]);
            }
        }
    }
    lemma_healed_ring(c.pts, c.ring, n + 2);
    lemma_healed_stays(c.pts, c.ring);
    let one = healed_outline(c);
    lemma_healed_stays(one.pts, one.ring);
    if one.ring.contains(b) {
        let i = one.ring.index_of(b);
        assert(0 <= i < one.ring.len() && one.ring[i] == b);
        lemma_turned_to_ring(one.ring, i, n + 2);
        lemma_healed_stays(one.pts, seen_from(one.ring, b));
    }
    assert(merged(o, hole) == slit_healed(c, b));
}

// ---------------------------------------------------------------------------------------------
// Slits
// ---------------------------------------------------------------------------------------------
/// The ring around a hole, over the doubles of the hole's first node and of the node at place `at`
/// of another ring, around that, and back to the hole. The doubles are number `n + 1` and `n`.
pub open spec fn slit_ring(r: Seq<int>, at: int, hole: Seq<int>, n: int) -> Seq<int> {
    let h = hole.len() as int;
    Seq::new(
        (h + 2 + r.len()) as nat,
        |k: int|
            if k < h {
                hole[k]
            } else if k == h {
                n + 1
            } else if k == h + 1 {
                n
            } else {
                r[(at + k - h - 1) % (r.len() as int)]
            },
    )
}

/// Places in a ring that is run through more than once.
proof fn lemma_wraps(at: int, k: int, len: int)
    requires
        0 <= at < len,
        0 <= k <= len,
    ensures
        (at + k) % len == (if at + k < len {
            at + k
        } else {
            at + k - len
        }),
{
    assert((at + k) % len == (if at + k < len {
        at + k
    } else {
        at + k - len
    })) by (nonlinear_arith)
        requires
            0 <= at < len,
            0 <= k <= len,
    ;
}

/// The joined ring is the ring over the slit, seen from the double of the hole's first node.
proof fn lemma_slit_joined(r: Seq<int>, at: int, hole: Seq<int>, n: int)
    requires
        0 <= at < r.len(),
        hole.len() > 0,
    ensures
        joined(turned_to(r, at), hole, n) == turned_to(
            slit_ring(r, at, hole, n),
            hole.len() as int,
        ),
        slit_ring(r, at, hole, n).last() == r[at],
{
    let len = r.len() as int;
    let h = hole.len() as int;
    let s = slit_ring(r, at, hole, n);
    let v = turned_to(r, at);
    let t = joined(v, hole, n);
    let w = turned_to(s, h);
    assert forall|k: int| 0 <= k < t.len() implies #[trigger] t[k] == w[k] by {
        if 2 <= k < len + 2 {
            lemma_wraps(at, k - 1, len);
            assert(t[k] == turned(v)[k - 2]);
            assert(w[k] == s[h + k]);
            assert(s[h + k] == r[(at + (k - 1)) % len]);
            if k - 1 < len {
                assert(turned(v)[k - 2] == v[k - 1]);
            } else {
                assert(turned(v)[k - 2] == v[0]);
            }
        } else if k >= len + 2 {
            assert(w[k] == s[k - 2 - len]);
        }
    }
    assert(t =~= w);
    lemma_wraps(at, len, len);
}

/// A ring seen from one place after the other.
proof fn lemma_views(s: Seq<int>, h: int)
    requires
        0 < h,
        h + 2 < s.len(),
    ensures
        turned_to(s, 0) == s,
        turned(turned_to(s, h)) == turned_to(s, h + 1),
        turned_to(turned_to(s, h + 1), s.len() - h - 2) == turned_to(s, s.len() - 1),
        turned(turned_to(s, s.len() - 1)) == s,
        turned_to(s, h + 1)[s.len() - h - 2] == s.last(),
{
    assert(turned_to(s, 0) =~= s);
    assert(turned(turned_to(s, h)) =~= turned_to(s, h + 1));
    assert(turned_to(turned_to(s, h + 1), s.len() - h - 2) =~= turned_to(s, s.len() - 1));
    assert(turned(turned_to(s, s.len() - 1)) =~= s);
}

/// Where there is nothing to heal, a hole that is merged joins the ring by a slit: what results
/// runs around the hole from its first node, back over the slit, around the ring, and up to the
/// slit.
pub proof fn lemma_slit<C: Scalar>(o: Outline<C>, hole: Seq<int>, at: int)
    requires
        is_ring(o.ring, o.pts.len() as int),
        is_ring(hole, o.pts.len() as int),
        apart_from(o.ring, hole),
        0 <= at < o.ring.len(),
        bridge(o, hole[0]) == Some(o.ring[at]),
        ({
            let s = slit_ring(o.ring, at, hole, o.pts.len() as int);
            forall|k: int|
                0 <= k < s.len() ==> !degenerate(merged(o, hole).pts, #[trigger] turned_to(s, k))
        }),
    ensures
        merged(o, hole).ring == slit_ring(o.ring, at, hole, o.pts.len() as int),
{
    let n = o.pts.len() as int;
    let b = o.ring[at];
    let len = o.ring.len() as int;
    let h = hole.len() as int;
    let s = slit_ring(o.ring, at, hole, n);
    assert(o.ring.contains(b));
    assert(o.ring.index_of(b) == at);
    let r = seen_from(o.ring, b);
    lemma_turned_to_ring(o.ring, at, n);
    assert forall|x: int| #[trigger] hole.contains(x) implies !r.contains(x) by {
        assert(!o.ring.contains(x));
    }
    lemma_joined_ring(r, hole, n);
    let c = connected(o, hole, b);
    let t = joined(r, hole, n);
    lemma_slit_joined(o.ring, at, hole, n);
    lemma_views(s, h);
    assert(c.ring == t);
    let one = healed_outline(c);
    assert(one.ring == turned_to(s, h + 1)) by {
        assert(!degenerate(c.pts, turned_to(s, h)));
        assert(!degenerate(c.pts, turned_to(s, h + 1)));
    }
    lemma_turned_ring(t, n + 2);
    assert(one.ring[len] == b);
    assert(one.ring.contains(b));
    assert(one.ring.index_of(b) == len);
    let two = seen_from(one.ring, b);
    assert(two == turned_to(s, s.len() - 1));
    assert(healed(one.pts, two) == s) by {
        assert(!degenerate(c.pts, turned_to(s, s.len() - 1)));
        assert(!degenerate(c.pts, turned_to(s, 0)));
    }
}

/// A hole with no edge of the ring falling past its first node to the left, which is not on the
/// ring, is left out.
pub proof fn lemma_left_out(o: Outline<Exact>, hole: Seq<int>)
    requires
        moderate_table(o.pts),
        is_ring(o.ring, o.pts.len() as int),
        o.boxes.len() == 0 || covered(plain_rank(), plain_values(), o),
        is_ring(hole, o.pts.len() as int),
        off_ring(spots(integer(), o.pts, o.ring), spot(integer(), o.pts, hole[0])),
        ({
            let p = spots(integer(), o.pts, o.ring);
            let q = spot(integer(), o.pts, hole[0]);
            forall|k: int|
                0 <= k < p.len() ==> !(next(p, k).1 <= q.1 <= (#[trigger] p[k]).1 && next(p, k).1
                    < p[k].1 && tri(p[k], next(p, k), q) > 0)
        }),
    ensures
        merged(o, hole) == o,
{
    let p = spots(integer(), o.pts, o.ring);
    let q = spot(integer(), o.pts, hole[0]);
    let u = p[0];
    assert(0 <= hole[0] < o.pts.len() && 0 <= o.ring[0] < o.pts.len());
    let e = lemma_nearest_edge(o, hole[0]);
    assert(moderate_node(o.pts[hole[0]]) && moderate_node(o.pts[o.ring[0]]));
    assert(o.pts[hole[0]].x == whole(q.0) && o.pts[hole[0]].y == whole(q.1) && o.pts[o.ring[0]].x
        == whole(u.0) && o.pts[o.ring[0]].y == whole(u.1));
    lemma_whole(q.0, u.0);
    lemma_whole(q.1, u.1);
    lemma_tri(u, next(p, 0), u);
    assert(!on(p[0], next(p, 0), q));
}

/// Of the nodes of the ring that is left when holes have been merged into the outer ring, none but
/// Steiner points lies at the next one, or on a line with both neighbours.
pub proof fn lemma_merged_bent(data: Seq<Exact>, holes: Seq<usize>, dim: int, j: int)
    requires
        is_flat(data, holes, dim),
        integral(data),
        holes.len() > 0,
        outer_ring(data, holes, dim).ring.len() > 0,
        0 <= j < single_ring(data, holes, dim).ring.len(),
        single_ring(data, holes, dim).ring.len() >= 2,
    ensures
        ({
            let w = single_ring(data, holes, dim);
            let n = w.ring.len() as int;
            let a = w.pts[w.ring[if j == 0 {
                n - 1
            } else {
                j - 1
            }]];
            let b = w.pts[w.ring[j]];
            let c = w.pts[w.ring[if j == n - 1 {
                0
            } else {
                j + 1
            }]];
            b.steiner || {
                &&& b.x.num != c.x.num || b.y.num != c.y.num
                &&& (b.x.num - a.x.num) * (c.y.num - b.y.num) != (b.y.num - a.y.num) * (c.x.num
                    - b.x.num)
            }
        }),
{
    let count = data.len() as int / dim;
    let l = outer_ring(data, holes, dim);
    let q = queued(l.pts, data, dim, holes, holes.len() as int);
    let s = in_order(q.pts, q.holes);
    let o = outline(q.pts, l.ring, count);
    let n = q.pts.len() as int;
    let all = merged_all(o, s, s.len() as int);
    lemma_ring_drawn(data, holes, dim);
    lemma_drawn_moderate(all.pts, data, dim);
    lemma_listed_ring(Seq::<Pt<Exact>>::empty(), data, dim, 0, outer_count(holes, count), true);
    lemma_queued_rings(l.pts, data, dim, holes, holes.len() as int, l.ring);
    lemma_in_order_apart(q.pts, l.ring, q.holes, n);
    assert(o.ring == l.ring && o.pts == q.pts);
    assert forall|k: int| 0 <= k < l.ring.len() implies 0 <= #[trigger] l.ring[k] < n by {}
    lemma_merged_all_ring(o, s, s.len() as int);
    lemma_swept_bent(all.pts, all.ring, j);
}

} // verus!
