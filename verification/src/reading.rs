//! What is read from the data: which vertices belong to which ring, and where they are.
use vstd::prelude::*;
use crate::bounds::lemma_leftmost;
use crate::hole_model::{
    closed_ring, from_leftmost, hole_end, leftmost, listed, queued, vertex_at, wound,
};
use crate::model::Pt;
use crate::rings::{lemma_listed_ring, lemma_turned_to_ring};
use crate::scalar::Scalar;
use crate::steiner::lemma_queued_adds;
use crate::triangulation::outer_count;

verus! {

/// The outer ring starts with the first vertex and ends where the first hole starts, or with the
/// last vertex; each hole ends where the next one starts, or with the last vertex. So where holes
/// start one behind the other, every vertex belongs to one ring, and to no other.
pub proof fn lemma_each_vertex(holes: Seq<usize>, count: int, v: int)
    requires
        forall|i: int| 0 <= i < holes.len() ==> #[trigger] holes[i] <= count,
        forall|i: int, j: int|
            0 <= i < j < holes.len() ==> #[trigger] holes[i] <= #[trigger] holes[j],
        0 <= v < count,
    ensures
        v < outer_count(holes, count) || exists|i: int|
            0 <= i < holes.len() && #[trigger] holes[i] <= v < hole_end(holes, count, i),
        forall|i: int| 0 <= i < holes.len() ==> outer_count(holes, count) <= #[trigger] holes[i],
        forall|i: int, j: int|
            #![trigger holes[i], holes[j]]
            0 <= i < j < holes.len() ==> hole_end(holes, count, i) <= holes[j],
        forall|i: int|
            0 <= i < holes.len() ==> #[trigger] holes[i] <= hole_end(holes, count, i) <= count,
        holes.len() > 0 ==> outer_count(holes, count) == holes[0] && hole_end(
            holes,
            count,
            holes.len() - 1,
        ) == count,
        holes.len() == 0 ==> outer_count(holes, count) == count,
{
    if holes.len() > 0 && v >= holes[0] {
        let i = lemma_hole_of(holes, count, v, holes.len() - 1);
        assert(holes[i] <= v);
    }
    assert forall|i: int, j: int|
        #![trigger holes[i], holes[j]]
        0 <= i < j < holes.len() implies hole_end(holes, count, i) <= holes[j] by {
        assert(holes[i + 1] <= holes[j]);
    }
    assert forall|i: int| 0 <= i < holes.len() implies #[trigger] holes[i] <= hole_end(
        holes,
        count,
        i,
    ) <= count by {
        if i + 1 < holes.len() {
            assert(holes[i] <= holes[i + 1] <= count);
        }
    }
    assert forall|i: int| 0 <= i < holes.len() implies outer_count(holes, count)
        <= #[trigger] holes[i] by {
        assert(holes[0] <= holes[i]);
    }
}

/// The hole that a vertex belongs to, looked for from hole `k` down.
proof fn lemma_hole_of(holes: Seq<usize>, count: int, v: int, k: int) -> (i: int)
    requires
        0 <= k < holes.len(),
        holes[0] <= v < hole_end(holes, count, k),
    ensures
        0 <= i <= k,
        holes[i] <= v < hole_end(holes, count, i),
    decreases k,
{
    if holes[k] <= v {
        k
    } else {
        lemma_hole_of(holes, count, v, k - 1)
    }
}

/// Reading the vertices from `from` to `to` adds a point for each of them behind those that there
/// are, all in the order of the data or all backwards, where the data say that the vertex is. They
/// make up a ring, but for the last of them if it is found to lie at the first.
pub proof fn lemma_read<C: Scalar>(
    pts: Seq<Pt<C>>,
    data: Seq<C>,
    dim: int,
    from: int,
    to: int,
    clockwise: bool,
)
    requires
        0 <= from < to <= usize::MAX,
    ensures
        ({
            let l = listed(pts, data, dim, from, to, clockwise);
            let n = pts.len() as int;
            let first = l.pts[n];
            let last = l.pts[n + to - from - 1];
            let whole = !(to - from >= 2 && last.x.same_spec(first.x) && last.y.same_spec(first.y));
            &&& l.pts.len() == n + to - from
            &&& forall|h: int| 0 <= h < n ==> #[trigger] l.pts[h] == pts[h]
            &&& (forall|k: int|
                #![trigger l.pts[n + k]]
                0 <= k < to - from ==> l.pts[n + k].i == from + k) || (forall|k: int|
                #![trigger l.pts[n + k]]
                0 <= k < to - from ==> l.pts[n + k].i == to - 1 - k)
            &&& forall|k: int|
                #![trigger l.pts[n + k]]
                0 <= k < to - from ==> l.pts[n + k].x == data[l.pts[n + k].i * dim] && l.pts[n
                    + k].y == data[l.pts[n + k].i * dim + 1] && !l.pts[n + k].steiner
            &&& l.ring.len() == (if whole {
                to - from
            } else {
                to - from - 1
            })
            &&& forall|k: int|
                0 <= k < l.ring.len() ==> #[trigger] l.ring[k] == (if !whole {
                    n + k
                } else if k == 0 {
                    n + to - from - 1
                } else {
                    n + k - 1
                })
        }),
{
    let l = listed(pts, data, dim, from, to, clockwise);
    let n = pts.len() as int;
    let w = wound(data, dim, from, to, clockwise);
    assert forall|k: int| #![trigger l.pts[n + k]] 0 <= k < to - from implies l.pts[n + k]
        == w[k] by {}
    assert forall|k: int| 0 <= k < to - from implies #[trigger] w[k] == vertex_at(
        data,
        dim,
        w[k].i as int,
    ) by {}
    if w[0].i == from && to - from > 1 {
        assert forall|k: int| #![trigger l.pts[n + k]] 0 <= k < to - from implies l.pts[n + k].i
            == from + k by {
            assert(l.pts[n + k] == w[k]);
        }
    } else {
        assert forall|k: int| #![trigger l.pts[n + k]] 0 <= k < to - from implies l.pts[n + k].i
            == to - 1 - k by {
            assert(l.pts[n + k] == w[k]);
        }
    }
    assert(l.ring == closed_ring(l.pts, n));
}

/// Every hole that is not empty is read as a ring of vertices of its own, as many as it has, but
/// for one if it is closed by a vertex at the place of the first.
pub proof fn lemma_holes_read<C: Scalar>(
    pts: Seq<Pt<C>>,
    data: Seq<C>,
    dim: int,
    holes: Seq<usize>,
    k: int,
)
    requires
        0 <= k <= holes.len(),
        data.len() as int / dim <= usize::MAX,
        forall|j: int|
            0 <= j < k ==> #[trigger] holes[j] < hole_end(holes, data.len() as int / dim, j),
    ensures
        ({
            let q = queued(pts, data, dim, holes, k);
            &&& q.holes.len() == k
            &&& forall|j: int|
                0 <= j < k ==> hole_read(
                    q.pts,
                    holes,
                    data.len() as int / dim,
                    #[trigger] q.holes[j],
                    j,
                )
        }),
    decreases k,
{
    if k > 0 {
        let count = data.len() as int / dim;
        let q = queued(pts, data, dim, holes, k - 1);
        let (from, to) = (holes[k - 1] as int, hole_end(holes, count, k - 1));
        lemma_holes_read(pts, data, dim, holes, k - 1);
        assert(holes[k - 1] < hole_end(holes, count, k - 1));
        lemma_read(q.pts, data, dim, from, to, false);
        lemma_listed_ring(q.pts, data, dim, from, to, false);
        let l = listed(q.pts, data, dim, from, to, false);
        let at = leftmost(l.pts, l.ring, l.ring.len() as int);
        lemma_leftmost(l.pts, l.ring, l.ring.len() as int);
        lemma_turned_to_ring(l.ring, at, l.pts.len() as int);
        let t = queued(pts, data, dim, holes, k);
        let n = q.pts.len() as int;
        assert(t.holes.len() == k);
        assert forall|j: int| 0 <= j < k implies hole_read(
            t.pts,
            holes,
            count,
            #[trigger] t.holes[j],
            j,
        ) by {
            let s = t.holes[j];
            if j < k - 1 {
                assert(s == q.holes[j]);
                assert(hole_read(q.pts, holes, count, q.holes[j], j));
                assert forall|e: int| 0 <= e < s.len() implies 0 <= #[trigger] s[e] < t.pts.len()
                    && holes[j] <= t.pts[s[e]].i < hole_end(holes, count, j)
                    && t.pts[s[e]].steiner == (s.len() == 1) by {
                    lemma_queued_adds(pts, data, dim, holes, k - 1, s[e]);
                }
            } else {
                assert(s == l.ring || s == from_leftmost(l.pts, l.ring));
                assert(s.len() == l.ring.len());
                assert forall|e: int| 0 <= e < s.len() implies 0 <= #[trigger] s[e] < t.pts.len()
                    && holes[j] <= t.pts[s[e]].i < hole_end(holes, count, j)
                    && t.pts[s[e]].steiner == (s.len() == 1) by {
                    assert(s.contains(s[e]));
                    assert(l.ring.contains(s[e]));
                    let i = choose|i: int| 0 <= i < l.ring.len() && l.ring[i] == s[e];
                    let h = s[e] - n;
                    assert(0 <= h < to - from);
                    assert(from <= l.pts[n + h].i < to && !l.pts[n + h].steiner);
                    assert(t.pts[s[e]].i == l.pts[s[e]].i);
                }
            }
        }
    }
}

/// The ring `r` is of vertices of the hole number `j`, all of them or all but one; they are Steiner
/// points exactly if there is a single one.
pub open spec fn hole_read<C>(
    pts: Seq<Pt<C>>,
    holes: Seq<usize>,
    count: int,
    r: Seq<int>,
    j: int,
) -> bool {
    &&& r.no_duplicates()
    &&& hole_end(holes, count, j) - holes[j] - 1 <= r.len() <= hole_end(holes, count, j) - holes[j]
    &&& forall|e: int|
        0 <= e < r.len() ==> 0 <= #[trigger] r[e] < pts.len() && holes[j] <= pts[r[e]].i < hole_end(
            holes,
            count,
            j,
        ) && pts[r[e]].steiner == (r.len() == 1)
}

} // verus!
