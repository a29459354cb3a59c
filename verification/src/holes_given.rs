//! Holes that are given inside a simple outer ring and beside each other all get connected.
use vstd::prelude::*;
use crate::areas::spot;
use crate::bounds::lemma_leftmost;
use crate::bridge_sight::lemma_off_reversed;
use crate::connecting::{hole_spot, merged_outline, merging_order};
use crate::deviation::deviation_spec;
use crate::diagonals::{lemma_off_seen, lemma_once_around, off_ring};
use crate::exact::Exact;
use crate::exact_areas::{
    integer, integral, lemma_no_deviation, lemma_rings_countable, lemma_vertex_coordinates,
    lemma_whole,
};
use crate::exact_simple::{lemma_outer_read, outer_corners, vertex_ring};
use crate::fresh_index::moderate_node;
use crate::geometry::{signed_area_spec, zero};
use crate::hole_model::{from_leftmost, hole_end, leftmost, listed, queued, wound};
use crate::holes_apart::{
    inside_outer, lemma_all_holes_connected, lemma_before_merging, lemma_rightward, outside_hole,
    starts_moderate,
};
use crate::model::{coincide, sliced, Pt};
use crate::polygon_areas::{all_connected, corners, sliced_completely};
use crate::rings::{is_ring, lemma_listed_ring, lemma_queued_rings};
use crate::scalar::Scalar;
use crate::segments::{lemma_tri, on};
use crate::simple::{lemma_reversed_at, lemma_seen_at, place, seen_at, simple};
use crate::simple_polygons::spots;
use crate::tiling::{lemma_reversed_winding, lemma_turned_winding};
use crate::triangulation::{
    ear_grid, is_flat, lemma_count_fits, outer_count, outer_ring, single_ring, triangulation,
};
use crate::winding::{next, passes, passings, winding};

verus! {

// ---------------------------------------------------------------------------------------------
// Rings that run along the same edges
// ---------------------------------------------------------------------------------------------
/// The corners of the first ring are corners of the second, a point that is off the second is off
/// the first, and both run around each point equally often, if not the same way.
pub(crate) open spec fn alike(p: Seq<(int, int)>, v: Seq<(int, int)>) -> bool {
    &&& p.len() > 0
    &&& forall|k: int| 0 <= k < p.len() ==> v.contains(#[trigger] p[k])
    &&& forall|z: (int, int)| off_ring(v, z) ==> #[trigger] off_ring(p, z)
    &&& forall|z: (int, int)|
        (#[trigger] winding(p, z)) == winding(v, z) || winding(p, z) == -winding(v, z)
}

/// Two rings that are alike a third one.
proof fn lemma_alike_through(p: Seq<(int, int)>, u: Seq<(int, int)>, v: Seq<(int, int)>)
    requires
        alike(p, u),
        alike(u, v),
    ensures
        alike(p, v),
{
    assert forall|k: int| 0 <= k < p.len() implies v.contains(#[trigger] p[k]) by {
        let j = choose|j: int| 0 <= j < u.len() && u[j] == p[k];
        assert(v.contains(u[j]));
    }
    assert forall|z: (int, int)| off_ring(v, z) implies #[trigger] off_ring(p, z) by {
        assert(off_ring(u, z));
    }
    assert forall|z: (int, int)|
        (#[trigger] winding(p, z)) == winding(v, z) || winding(p, z) == -winding(v, z) by {
        assert(winding(u, z) == winding(v, z) || winding(u, z) == -winding(v, z));
    }
}

/// A ring seen from another corner.
proof fn lemma_alike_turned(p: Seq<(int, int)>, m: int)
    requires
        0 <= m < p.len(),
    ensures
        alike(seen_at(p, m), p),
{
    let n = p.len() as int;
    let s = seen_at(p, m);
    assert forall|k: int| 0 <= k < s.len() implies p.contains(#[trigger] s[k]) by {
        lemma_seen_at(p, m, k);
        assert(p[place(k, m, n)] == s[k]);
    }
    assert forall|z: (int, int)| off_ring(p, z) implies #[trigger] off_ring(s, z) by {
        lemma_off_seen(p, m, z);
    }
    assert forall|z: (int, int)|
        (#[trigger] winding(s, z)) == winding(p, z) || winding(s, z) == -winding(p, z) by {
        if n >= 2 {
            lemma_turned_winding(p, z, m);
        } else {
            assert(s =~= p);
        }
    }
}

/// A ring run backwards.
proof fn lemma_alike_reversed(p: Seq<(int, int)>)
    requires
        p.len() > 0,
    ensures
        alike(p.reverse(), p),
{
    let n = p.len() as int;
    let s = p.reverse();
    assert forall|k: int| 0 <= k < s.len() implies p.contains(#[trigger] s[k]) by {
        lemma_reversed_at(p, k);
        assert(p[n - 1 - k] == s[k]);
    }
    assert forall|z: (int, int)| off_ring(p, z) implies #[trigger] off_ring(s, z) by {
        lemma_off_reversed(p, z);
    }
    assert forall|z: (int, int)|
        (#[trigger] winding(s, z)) == winding(p, z) || winding(s, z) == -winding(p, z) by {
        lemma_reversed_winding(p, z);
    }
}

/// The passings of a ring without its last corner.
proof fn lemma_shorter_passings(p: Seq<(int, int)>, z: (int, int), k: int)
    requires
        p.len() >= 2,
        p[p.len() - 1] == p[0],
        0 <= k < p.len(),
    ensures
        passings(p.drop_last(), z, k) == passings(p, z, k),
    decreases k,
{
    if k > 0 {
        lemma_shorter_passings(p, z, k - 1);
        let d = p.drop_last();
        assert(d[k - 1] == p[k - 1]);
        assert(next(d, k - 1) == next(p, k - 1));
    }
}

/// A ring without its last corner, which repeats the first.
proof fn lemma_alike_shorter(p: Seq<(int, int)>)
    requires
        p.len() >= 2,
        p[p.len() - 1] == p[0],
    ensures
        alike(p.drop_last(), p),
{
    let n = p.len() as int;
    let d = p.drop_last();
    assert forall|k: int| 0 <= k < d.len() implies p.contains(#[trigger] d[k]) by {
        assert(p[k] == d[k]);
    }
    assert forall|z: (int, int)| off_ring(p, z) implies #[trigger] off_ring(d, z) by {
        assert forall|k: int| 0 <= k < d.len() implies !on(#[trigger] d[k], next(d, k), z) by {
            assert(d[k] == p[k] && next(d, k) == next(p, k));
            assert(!on(p[k], next(p, k), z));
        }
    }
    assert forall|z: (int, int)|
        (#[trigger] winding(d, z)) == winding(p, z) || winding(d, z) == -winding(p, z) by {
        lemma_shorter_passings(p, z, n - 1);
        assert(next(p, n - 1) == p[0]);
        lemma_tri(p[0], p[0], z);
        assert(passes(p[n - 1], next(p, n - 1), z) == 0);
        assert(passings(p, z, n) == passings(p, z, n - 1) + passes(p[n - 1], next(p, n - 1), z));
    }
}

// ---------------------------------------------------------------------------------------------
// Reading holes
// ---------------------------------------------------------------------------------------------
/// The vertices of hole number `j`, as they are given.
pub open spec fn hole_ring(data: Seq<Exact>, holes: Seq<usize>, dim: int, j: int) -> Seq<
    (int, int),
> {
    vertex_ring(data, dim, holes[j] as int, hole_end(holes, data.len() as int / dim, j))
}

/// The ring of a hole that is read runs along the edges of the vertices that are given.
#[verifier::spinoff_prover]
proof fn lemma_hole_read(pts: Seq<Pt<Exact>>, data: Seq<Exact>, dim: int, from: int, to: int)
    requires
        integral(data),
        dim >= 2,
        0 <= from < to <= data.len() as int / dim,
    ensures
        ({
            let l = listed(pts, data, dim, from, to, false);
            let r = if l.ring.len() == 1 {
                l.ring
            } else {
                from_leftmost(l.pts, l.ring)
            };
            &&& l.ring.len() > 0
            &&& alike(spots(integer(), l.pts, r), vertex_ring(data, dim, from, to))
        }),
{
    let val = integer();
    let at = corners(val, data, dim);
    let l = listed(pts, data, dim, from, to, false);
    let n = pts.len() as int;
    let m = to - from;
    let v = vertex_ring(data, dim, from, to);
    let more = wound(data, dim, from, to, false);
    let forward = !zero::<Exact>().less_spec(signed_area_spec(data, from * dim, to * dim, dim));
    let p = Seq::new(m as nat, |k: int| spot(val, l.pts, n + k));
    assert(l.pts.len() == n + m);
    assert forall|k: int| 0 <= k < m implies (#[trigger] p[k]) == at(
        if forward {
            from + k
        } else {
            to - 1 - k
        },
    ) by {
        assert(l.pts[n + k] == more[k]);
    }
    if forward {
        assert(p =~= v);
        lemma_alike_turned(v, 0);
        assert(seen_at(v, 0) =~= v);
    } else {
        assert(p =~= v.reverse());
        lemma_alike_reversed(v);
    }
    assert(coincide(l.pts, n + m - 1, n) == (p[m - 1] == p[0])) by {
        lemma_vertex_coordinates(data, dim, from);
        lemma_vertex_coordinates(data, dim, to - 1);
        assert(l.pts[n] == more[0] && l.pts[n + m - 1] == more[m - 1]);
        let (a, b) = (p[0], p[m - 1]);
        lemma_whole(b.0, a.0);
        lemma_whole(b.1, a.1);
    }
    let q = spots(val, l.pts, l.ring);
    if m >= 2 && p[m - 1] == p[0] {
        assert(q =~= p.drop_last());
        lemma_alike_shorter(p);
    } else {
        assert forall|k: int| 0 <= k < m implies #[trigger] q[k] == seen_at(p, m - 1)[k] by {
            lemma_seen_at(p, m - 1, k);
        }
        assert(q =~= seen_at(p, m - 1));
        lemma_alike_turned(p, m - 1);
    }
    lemma_alike_through(q, p, v);
    if l.ring.len() > 1 {
        let i = leftmost(l.pts, l.ring, l.ring.len() as int);
        lemma_leftmost(l.pts, l.ring, l.ring.len() as int);
        assert(spots(val, l.pts, from_leftmost(l.pts, l.ring)) =~= seen_at(q, i));
        lemma_alike_turned(q, i);
        lemma_alike_through(seen_at(q, i), q, v);
    }
}

/// Every hole has vertices.
pub open spec fn holes_filled(holes: Seq<usize>, count: int) -> bool {
    forall|j: int| 0 <= j < holes.len() ==> (#[trigger] holes[j]) < hole_end(holes, count, j)
}

/// The rings of the holes that are read run along the edges of the vertices that are given.
#[verifier::spinoff_prover]
pub(crate) proof fn lemma_holes_read(
    pts: Seq<Pt<Exact>>,
    data: Seq<Exact>,
    dim: int,
    holes: Seq<usize>,
    k: int,
)
    requires
        integral(data),
        is_flat(data, holes, dim),
        holes_filled(holes, data.len() as int / dim),
        0 <= k <= holes.len(),
    ensures
        ({
            let q = queued(pts, data, dim, holes, k);
            &&& q.holes.len() == k
            &&& forall|j: int|
                0 <= j < k ==> alike(
                    spots(integer(), q.pts, #[trigger] q.holes[j]),
                    hole_ring(data, holes, dim, j),
                )
        }),
    decreases k,
{
    if k > 0 {
        let val = integer();
        let count = data.len() as int / dim;
        let q = queued(pts, data, dim, holes, k - 1);
        let (from, to) = (holes[k - 1] as int, hole_end(holes, count, k - 1));
        let l = listed(q.pts, data, dim, from, to, false);
        let w = queued(pts, data, dim, holes, k);
        lemma_holes_read(pts, data, dim, holes, k - 1);
        assert(holes[k - 1] < hole_end(holes, count, k - 1));
        assert(k < holes.len() ==> holes[k] <= count);
        lemma_hole_read(q.pts, data, dim, from, to);
        lemma_queued_rings(pts, data, dim, holes, k - 1, Seq::empty());
        assert forall|h: int| 0 <= h < w.pts.len() implies (#[trigger] w.pts[h]).x == l.pts[h].x
            && w.pts[h].y == l.pts[h].y by {}
        assert forall|j: int| 0 <= j < k implies alike(
            spots(val, w.pts, #[trigger] w.holes[j]),
            hole_ring(data, holes, dim, j),
        ) by {
            if j < k - 1 {
                assert(w.holes[j] == q.holes[j]);
                assert(is_ring(q.holes[j], q.pts.len() as int));
                assert(spots(val, w.pts, w.holes[j]) =~= spots(val, q.pts, q.holes[j])) by {
                    assert forall|i: int| 0 <= i < q.holes[j].len() implies spot(
                        val,
                        w.pts,
                        #[trigger] q.holes[j][i],
                    ) == spot(val, q.pts, q.holes[j][i]) by {
                        let h = q.holes[j][i];
                        assert(0 <= h < q.pts.len());
                        assert(w.pts[h].x == l.pts[h].x && l.pts[h] == q.pts[h]);
                    }
                }
            } else {
                let r = w.holes[j];
                lemma_listed_ring(q.pts, data, dim, from, to, false);
                assert(spots(val, w.pts, r) =~= spots(val, l.pts, r));
            }
        }
    }
}

// ---------------------------------------------------------------------------------------------
// The law
// ---------------------------------------------------------------------------------------------
/// All vertices of hole number `j` are inside the outer ring, and on none of its edges.
pub open spec fn hole_within(data: Seq<Exact>, holes: Seq<usize>, dim: int, j: int) -> bool {
    let c = outer_corners(data, holes, dim);
    let v = hole_ring(data, holes, dim, j);
    forall|k: int|
        0 <= k < v.len() ==> off_ring(c, #[trigger] v[k]) && winding(c, v[k]) != 0
}

/// All vertices of hole number `j` are outside hole number `i`, and on none of its edges.
pub open spec fn holes_beside(
    data: Seq<Exact>,
    holes: Seq<usize>,
    dim: int,
    i: int,
    j: int,
) -> bool {
    let u = hole_ring(data, holes, dim, i);
    let v = hole_ring(data, holes, dim, j);
    forall|k: int| 0 <= k < v.len() ==> off_ring(u, #[trigger] v[k]) && winding(u, v[k]) == 0
}

/// The holes are inside the outer ring and beside each other.
pub open spec fn holes_in_place(data: Seq<Exact>, holes: Seq<usize>, dim: int) -> bool {
    &&& holes_filled(holes, data.len() as int / dim)
    &&& forall|j: int| 0 <= j < holes.len() ==> #[trigger] hole_within(data, holes, dim, j)
    &&& forall|i: int, j: int|
        0 <= i < holes.len() && 0 <= j < holes.len() && i != j ==> #[trigger] holes_beside(
            data,
            holes,
            dim,
            i,
            j,
        )
}

/// A ring that is read is inside the outer ring if the vertices that are given are.
pub(crate) proof fn lemma_within_outer(data: Seq<Exact>, holes: Seq<usize>, dim: int, z: (int, int))
    requires
        is_flat(data, holes, dim),
        integral(data),
        simple(outer_corners(data, holes, dim)),
        off_ring(outer_corners(data, holes, dim), z),
        winding(outer_corners(data, holes, dim), z) != 0,
    ensures
        ({
            let l = outer_ring(data, holes, dim);
            let p = spots(integer(), l.pts, l.ring);
            off_ring(p, z) && winding(p, z) > 0
        }),
{
    let l = outer_ring(data, holes, dim);
    let p = spots(integer(), l.pts, l.ring);
    let c = outer_corners(data, holes, dim);
    let n = c.len() as int;
    lemma_outer_read(data, holes, dim);
    lemma_off_reversed(c, z);
    lemma_off_seen(c, n - 1, z);
    lemma_off_seen(c.reverse(), n - 1, z);
    lemma_turned_winding(c, z, n - 1);
    lemma_turned_winding(c.reverse(), z, n - 1);
    lemma_reversed_winding(c, z);
    lemma_once_around(p, z);
}

/// Every hole of a polygon with integer coordinates of moderate size gets connected if the outer
/// ring is simple, all holes are inside it, and they are beside each other. The rings may run
/// either way.
pub proof fn lemma_given_holes_connected(data: Seq<Exact>, holes: Seq<usize>, dim: int)
    requires
        is_flat(data, holes, dim),
        integral(data),
        simple(outer_corners(data, holes, dim)),
        holes_in_place(data, holes, dim),
    ensures
        merging_order(data, holes, dim).len() == holes.len(),
        all_connected(
            merged_outline(data, holes, dim, 0),
            merging_order(data, holes, dim),
            holes.len() as int,
        ),
{
    let val = integer();
    let count = data.len() as int / dim;
    let l = outer_ring(data, holes, dim);
    let q = queued(l.pts, data, dim, holes, holes.len() as int);
    let o = merged_outline(data, holes, dim, 0);
    let s = merging_order(data, holes, dim);
    let n = q.pts.len() as int;
    lemma_outer_read(data, holes, dim);
    lemma_before_merging(data, holes, dim);
    lemma_holes_read(l.pts, data, dim, holes, holes.len() as int);
    lemma_order_taken(data, holes, dim);
    assert(o.pts == q.pts);
    assert forall|j: int| 0 <= j < s.len() implies #[trigger] inside_outer(data, holes, dim, j) by {
        let g = q.holes.index_of(s[j]);
        assert(q.holes.contains(s[j]));
        let p = spots(val, q.pts, q.holes[g]);
        let v = hole_ring(data, holes, dim, g);
        assert(alike(p, v));
        assert(v.contains(p[0]));
        assert(hole_within(data, holes, dim, g));
        let z = hole_spot(data, holes, dim, j);
        assert(z == p[0]);
        lemma_within_outer(data, holes, dim, z);
    }
    assert forall|i: int, j: int|
        0 <= i < s.len() && 0 <= j < s.len() && i != j implies #[trigger] outside_hole(
        data,
        holes,
        dim,
        i,
        j,
    ) by {
        let (f, g) = (q.holes.index_of(s[i]), q.holes.index_of(s[j]));
        assert(q.holes.contains(s[i]) && q.holes.contains(s[j]));
        assert(f != g) by {
            if f == g {
                assert(s[i] == s[j]);
                assert(is_ring(s[i], n) && s[i].len() > 0);
                assert(s[i].contains(s[i][0]) && s[j].contains(s[i][0]));
            }
        }
        let (p, u) = (spots(val, q.pts, q.holes[f]), spots(val, q.pts, q.holes[g]));
        assert(alike(p, hole_ring(data, holes, dim, f)));
        assert(alike(u, hole_ring(data, holes, dim, g)));
        assert(hole_ring(data, holes, dim, g).contains(u[0]));
        assert(holes_beside(data, holes, dim, f, g));
        let z = hole_spot(data, holes, dim, j);
        assert(z == u[0]);
        assert(off_ring(p, z));
        assert(winding(p, z) == 0);
    }
    lemma_all_holes_connected(data, holes, dim);
}

/// The holes in the order in which they are merged are those that have been read.
pub(crate) proof fn lemma_order_taken(data: Seq<Exact>, holes: Seq<usize>, dim: int)
    requires
        is_flat(data, holes, dim),
        integral(data),
        outer_ring(data, holes, dim).ring.len() > 2,
    ensures
        ({
            let q = queued(outer_ring(data, holes, dim).pts, data, dim, holes, holes.len() as int);
            let s = merging_order(data, holes, dim);
            &&& s.len() == q.holes.len()
            &&& forall|j: int| 0 <= j < s.len() ==> q.holes.contains(#[trigger] s[j])
        }),
{
    let l = outer_ring(data, holes, dim);
    let q = queued(l.pts, data, dim, holes, holes.len() as int);
    let n = q.pts.len() as int;
    let o = merged_outline(data, holes, dim, 0);
    lemma_before_merging(data, holes, dim);
    lemma_queued_rings(l.pts, data, dim, holes, holes.len() as int, l.ring);
    assert(o.pts == q.pts);
    assert(starts_moderate(q.pts, q.holes)) by {
        assert forall|i: int| 0 <= i < q.holes.len() implies moderate_node(
            q.pts[(#[trigger] q.holes[i])[0]],
        ) by {
            assert(is_ring(q.holes[i], n));
            assert(0 <= q.holes[i][0] < n);
        }
    }
    lemma_rightward(q.pts, q.holes);
}

/// A polygon with integer coordinates of moderate size whose outer ring is simple and whose holes
/// are inside it and beside each other is sliced completely, without deviation, if the single ring
/// that merging the holes gives falls into ears.
pub proof fn lemma_holes_sliced(data: Seq<Exact>, holes: Seq<usize>, dim: int)
    requires
        is_flat(data, holes, dim),
        integral(data),
        simple(outer_corners(data, holes, dim)),
        holes_in_place(data, holes, dim),
        ({
            let w = single_ring(data, holes, dim);
            let outer = outer_count(holes, data.len() as int / dim);
            sliced(w.pts, w.ring, ear_grid(data, dim, outer)).complete
        }),
    ensures
        sliced_completely(data, holes, dim),
        deviation_spec(data, holes, dim, triangulation(data, holes, dim)).same_spec(
            zero::<Exact>(),
        ),
{
    let count = data.len() as int / dim;
    lemma_outer_read(data, holes, dim);
    lemma_given_holes_connected(data, holes, dim);
    assert forall|i: int| 0 <= i < holes.len() implies #[trigger] holes[i] <= hole_end(
        holes,
        count,
        i,
    ) by {}
    lemma_count_fits(data.len() as int, dim);
    lemma_rings_countable(holes, count, holes.len() as int);
    lemma_no_deviation(data, holes, dim);
}

} // verus!
