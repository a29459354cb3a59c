//! Holes of a single vertex: they are read as Steiner points, and stay in the ring.
use vstd::prelude::*;
use crate::bounds::lemma_bridge;
use crate::hole_model::{
    bridge, connected, healed_outline, hole_end, in_order, joined, listed, merged, merged_all,
    outline, queued, seen_from, slit_healed, sortable, vertex_at, wound, Outline,
};
use crate::hole_order::{lemma_all_in_order, lemma_from_all};
use crate::laws::{lemma_steiner_healed, lemma_steiner_swept};
use crate::model::{bridged, turned, turned_to, Pt};
use crate::polygon_areas::{all_connected, hole_connected};
use crate::rings::{
    apart_from, is_ring, lemma_in_order_apart, lemma_listed_ring, lemma_merged_all_ring,
    lemma_queued_rings, lemma_turned_to_ring, rings_apart,
};
use crate::scalar::Scalar;
use crate::spread::lemma_ring_drawn;
use crate::tips::lemma_all_used;
use crate::triangulation::{
    ear_grid, holes_sortable, is_flat, outer_count, outer_ring, single_ring, triangulation,
};

verus! {

/// Reading holes adds to the table, and changes nothing in it.
pub(crate) proof fn lemma_queued_adds<C: Scalar>(
    pts: Seq<Pt<C>>,
    data: Seq<C>,
    dim: int,
    holes: Seq<usize>,
    k: int,
    h: int,
)
    requires
        0 <= h < queued(pts, data, dim, holes, k).pts.len(),
        0 <= k < holes.len(),
    ensures
        h < queued(pts, data, dim, holes, k + 1).pts.len(),
        queued(pts, data, dim, holes, k + 1).pts[h] == queued(pts, data, dim, holes, k).pts[h],
        queued(pts, data, dim, holes, k).holes.is_prefix_of(
            queued(pts, data, dim, holes, k + 1).holes,
        ),
{
    let q = queued(pts, data, dim, holes, k);
    let (from, to) = (holes[k] as int, hole_end(holes, data.len() as int / dim, k));
    let l = listed(q.pts, data, dim, from, to, false);
    let next = queued(pts, data, dim, holes, k + 1);
    assert(l.pts[h] == q.pts[h]);
    if l.ring.len() > 0 {
        assert(from < to);
        lemma_listed_ring(q.pts, data, dim, from, to, false);
        assert(l.ring.contains(l.ring[0]));
    }
}

/// A hole of a single vertex is read as a Steiner point.
proof fn lemma_queued_steiner<C: Scalar>(
    pts: Seq<Pt<C>>,
    data: Seq<C>,
    dim: int,
    holes: Seq<usize>,
    j: int,
    k: int,
) -> (h: int)
    requires
        0 <= j < k <= holes.len(),
        hole_end(holes, data.len() as int / dim, j) == holes[j] + 1,
    ensures
        ({
            let q = queued(pts, data, dim, holes, k);
            &&& 0 <= h < q.pts.len()
            &&& q.pts[h].i == holes[j]
            &&& q.pts[h].steiner
            &&& q.pts[h].x == data[holes[j] * dim]
            &&& q.pts[h].y == data[holes[j] * dim + 1]
            &&& q.holes.contains(seq![h])
        }),
    decreases k,
{
    if j + 1 < k {
        let h = lemma_queued_steiner(pts, data, dim, holes, j, k - 1);
        lemma_queued_adds(pts, data, dim, holes, k - 1, h);
        let (a, b) = (
            queued(pts, data, dim, holes, k - 1).holes,
            queued(pts, data, dim, holes, k).holes,
        );
        let i = choose|i: int| 0 <= i < a.len() && a[i] == seq![h];
        assert(b[i] == a[i]);
        h
    } else {
        let q = queued(pts, data, dim, holes, j);
        let from = holes[j] as int;
        let l = listed(q.pts, data, dim, from, from + 1, false);
        let w = wound(data, dim, from, from + 1, false);
        let h = q.pts.len() as int;
        assert(l.pts[h] == w[0]);
        assert(w[0] == vertex_at(data, dim, from));
        assert(l.ring =~= seq![h]);
        let b = queued(pts, data, dim, holes, k).holes;
        assert(b == q.holes.push(l.ring));
        assert(b[q.holes.len() as int] == seq![h]);
        h
    }
}

/// Turning a ring to one of its places loses no node.
proof fn lemma_turned_to_whole(r: Seq<int>, j: int, h: int)
    requires
        r.contains(h),
        0 <= j < r.len(),
    ensures
        turned_to(r, j).contains(h),
{
    let k = choose|k: int| 0 <= k < r.len() && r[k] == h;
    let m = if k >= j {
        k - j
    } else {
        k - j + r.len()
    };
    assert(turned_to(r, j)[m] == h);
}

/// Merging a hole drops no Steiner point of the ring, and none of the hole where that is connected.
proof fn lemma_merged_keeps<C: Scalar>(o: Outline<C>, hole: Seq<int>, h: int)
    requires
        is_ring(o.ring, o.pts.len() as int),
        is_ring(hole, o.pts.len() as int),
        apart_from(o.ring, hole),
        o.ring.contains(h) || (hole.contains(h) && bridge(o, hole[0]) is Some),
        0 <= h < o.pts.len(),
        o.pts[h].steiner,
    ensures
        merged(o, hole).ring.contains(h),
{
    let n = o.pts.len() as int;
    lemma_bridge(o, hole[0]);
    match bridge(o, hole[0]) {
        None => {},
        Some(b) => {
            let at = o.ring.index_of(b);
            assert(0 <= at < o.ring.len() && o.ring[at] == b);
            let r = seen_from(o.ring, b);
            lemma_turned_to_ring(o.ring, at, n);
            let t = joined(r, hole, n);
            let c = connected(o, hole, b);
            let len = r.len() as int;
            assert(c.ring == t && c.pts == bridged(o.pts, b, hole[0]));
            assert(c.pts[h] == o.pts[h]);
            assert(t.contains(h)) by {
                if o.ring.contains(h) {
                    lemma_turned_to_whole(o.ring, at, h);
                    let k = choose|k: int| 0 <= k < len && r[k] == h;
                    let m = if k == 0 {
                        len - 1
                    } else {
                        k - 1
                    };
                    assert(turned(r)[m] == h);
                    assert(t[2 + m] == h);
                } else {
                    let k = choose|k: int| 0 <= k < hole.len() && hole[k] == h;
                    assert(t[2 + len + k] == h);
                }
            }
            lemma_steiner_healed(c.pts, c.ring, h);
            let one = healed_outline(c);
            if one.ring.contains(b) {
                let i = one.ring.index_of(b);
                assert(0 <= i < one.ring.len() && one.ring[i] == b);
                lemma_turned_to_whole(one.ring, i, h);
                lemma_steiner_healed(one.pts, seen_from(one.ring, b), h);
            } else {
                lemma_steiner_healed(one.pts, one.ring, h);
            }
            assert(slit_healed(c, b).ring.contains(h));
        },
    }
}

/// Merging adds to the table, and changes nothing in it.
proof fn lemma_merged_all_adds<C: Scalar>(o: Outline<C>, q: Seq<Seq<int>>, k: int, h: int)
    requires
        0 <= h < o.pts.len(),
    ensures
        h < merged_all(o, q, k).pts.len(),
        merged_all(o, q, k).pts[h] == o.pts[h],
    decreases k,
{
    if k > 0 {
        lemma_merged_all_adds(o, q, k - 1, h);
    }
}

/// Merging holes that are all connected keeps the Steiner points among them.
proof fn lemma_merged_all_keeps<C: Scalar>(o: Outline<C>, q: Seq<Seq<int>>, j: int, k: int, h: int)
    requires
        is_ring(o.ring, o.pts.len() as int),
        rings_apart(o.ring, q, o.pts.len() as int),
        0 <= j < k <= q.len(),
        q[j].contains(h),
        all_connected(o, q, k),
        0 <= h < o.pts.len(),
        o.pts[h].steiner,
    ensures
        merged_all(o, q, k).ring.contains(h),
    decreases k,
{
    let m = merged_all(o, q, k - 1);
    let n = o.pts.len() as int;
    lemma_merged_all_ring(o, q, k - 1);
    lemma_merged_all_adds(o, q, k - 1, h);
    let hole = q[k - 1];
    if j < k - 1 {
        lemma_merged_all_keeps(o, q, j, k - 1, h);
        assert(m.ring.contains(h));
    } else {
        assert(j == k - 1);
        assert(hole.contains(h));
    }
    assert(is_ring(hole, n) && apart_from(m.ring, hole));
    assert forall|i: int| 0 <= i < hole.len() implies 0 <= #[trigger] hole[i] < m.pts.len() by {}
    assert(hole_connected(o, q, k - 1));
    reveal(hole_connected);
    lemma_merged_keeps(m, hole, h);
}

/// A hole of a single vertex is a Steiner point: where all holes get connected, the ring that is
/// sliced has a node of that vertex, marked as one that no sweep drops.
pub proof fn lemma_steiner_point<C: Scalar>(
    data: Seq<C>,
    holes: Seq<usize>,
    dim: int,
    j: int,
) -> (k: int)
    requires
        is_flat(data, holes, dim),
        0 <= j < holes.len(),
        holes[j] + 1 == (if j + 1 < holes.len() {
            holes[j + 1] as int
        } else {
            data.len() as int / dim
        }),
        outer_ring(data, holes, dim).ring.len() > 2,
        ({
            let l = outer_ring(data, holes, dim);
            let q = queued(l.pts, data, dim, holes, holes.len() as int);
            let s = in_order(q.pts, q.holes);
            all_connected(outline(q.pts, l.ring, data.len() as int / dim), s, s.len() as int)
        }),
    ensures
        ({
            let w = single_ring(data, holes, dim);
            let p = w.pts[w.ring[k]];
            &&& 0 <= k < w.ring.len()
            &&& p.i == holes[j]
            &&& p.steiner
            &&& p.x == data[holes[j] * dim]
            &&& p.y == data[holes[j] * dim + 1]
        }),
{
    let count = data.len() as int / dim;
    let l = outer_ring(data, holes, dim);
    let q = queued(l.pts, data, dim, holes, holes.len() as int);
    let s = in_order(q.pts, q.holes);
    let o = outline(q.pts, l.ring, count);
    let n = q.pts.len() as int;
    lemma_listed_ring(Seq::<Pt<C>>::empty(), data, dim, 0, outer_count(holes, count), true);
    lemma_queued_rings(l.pts, data, dim, holes, holes.len() as int, l.ring);
    lemma_in_order_apart(q.pts, l.ring, q.holes, n);
    assert(o.ring == l.ring && o.pts == q.pts);
    assert forall|k: int| 0 <= k < l.ring.len() implies 0 <= #[trigger] l.ring[k] < n by {}
    let h = lemma_queued_steiner(l.pts, data, dim, holes, j, holes.len() as int);
    lemma_all_in_order(q.pts, q.holes);
    let i = choose|i: int| 0 <= i < q.holes.len() && q.holes[i] == seq![h];
    lemma_from_all(s, q.holes, i);
    let m = choose|m: int| 0 <= m < s.len() && s[m] == seq![h];
    assert(s[m][0] == h);
    assert(s[m].contains(h));
    lemma_merged_all_keeps(o, s, m, s.len() as int, h);
    lemma_merged_all_adds(o, s, s.len() as int, h);
    let all = merged_all(o, s, s.len() as int);
    lemma_steiner_swept(all.pts, all.ring, 0, h);
    let w = single_ring(data, holes, dim);
    let k = choose|k: int| 0 <= k < w.ring.len() && w.ring[k] == h;
    assert(w.pts[w.ring[k]] == q.pts[h]);
    k
}

/// A hole of a single vertex is a corner of a triangle, where all holes get connected and the ring
/// of `n` nodes that results gives `n - 2` triangles.
pub proof fn lemma_steiner_used<C: Scalar>(data: Seq<C>, holes: Seq<usize>, dim: int, j: int)
    requires
        is_flat(data, holes, dim),
        data.len() <= usize::MAX,
        data.len() > 0,
        0 <= j < holes.len(),
        holes[j] + 1 == (if j + 1 < holes.len() {
            holes[j + 1] as int
        } else {
            data.len() as int / dim
        }),
        outer_ring(data, holes, dim).ring.len() > 2,
        ({
            let l = outer_ring(data, holes, dim);
            let q = queued(l.pts, data, dim, holes, holes.len() as int);
            let s = in_order(q.pts, q.holes);
            all_connected(outline(q.pts, l.ring, data.len() as int / dim), s, s.len() as int)
        }),
        single_ring(data, holes, dim).ring.len() >= 3,
        triangulation(data, holes, dim).len() == 3 * (single_ring(data, holes, dim).ring.len() - 2),
    ensures
        triangulation(data, holes, dim).contains(holes[j]),
{
    let w = single_ring(data, holes, dim);
    let k = lemma_steiner_point(data, holes, dim, j);
    lemma_ring_drawn(data, holes, dim);
    lemma_all_used(
        w.pts,
        w.ring,
        ear_grid(data, dim, outer_count(holes, data.len() as int / dim)),
        k,
    );
}

// ---------------------------------------------------------------------------------------------
// The order of single vertices
// ---------------------------------------------------------------------------------------------
/// The first `k` holes are of a single vertex each.
spec fn all_single(holes: Seq<usize>, count: int, k: int) -> bool {
    forall|j: int| 0 <= j < k ==> hole_end(holes, count, j) == #[trigger] holes[j] + 1
}

/// Holes of a single vertex are read one by one.
proof fn lemma_queued_single<C: Scalar>(
    pts: Seq<Pt<C>>,
    data: Seq<C>,
    dim: int,
    holes: Seq<usize>,
    k: int,
)
    requires
        0 <= k <= holes.len(),
        all_single(holes, data.len() as int / dim, k),
    ensures
        ({
            let q = queued(pts, data, dim, holes, k);
            &&& q.holes.len() == k
            &&& q.pts.len() == pts.len() + k
            &&& forall|j: int|
                0 <= j < k ==> (#[trigger] q.holes[j])[0] == pts.len() + j && q.pts[pts.len()
                    + j].x == data[holes[j] * dim] && q.pts[pts.len() + j].y == data[holes[j] * dim
                    + 1]
        }),
    decreases k,
{
    if k > 0 {
        let q = queued(pts, data, dim, holes, k - 1);
        let from = holes[k - 1] as int;
        lemma_queued_single(pts, data, dim, holes, k - 1);
        assert(hole_end(holes, data.len() as int / dim, k - 1) == holes[k - 1] + 1);
        let l = listed(q.pts, data, dim, from, from + 1, false);
        let w = wound(data, dim, from, from + 1, false);
        let h = q.pts.len() as int;
        assert(l.pts[h] == w[0]);
        assert(w[0] == vertex_at(data, dim, from));
        assert(l.ring =~= seq![h]);
        let t = queued(pts, data, dim, holes, k);
        assert(t.holes == q.holes.push(l.ring));
        assert(t.pts == l.pts.update(h, Pt { steiner: true, ..l.pts[h] }));
        assert(t.holes.len() == k && t.pts.len() == pts.len() + k);
        assert forall|j: int| 0 <= j < k implies (#[trigger] t.holes[j])[0] == pts.len() + j
            && t.pts[pts.len() + j].x == data[holes[j] * dim] && t.pts[pts.len() + j].y
            == data[holes[j] * dim + 1] by {
            if j < k - 1 {
                assert(t.holes[j] == q.holes[j]);
                assert(l.pts[pts.len() + j] == q.pts[pts.len() + j]);
                assert(t.pts[pts.len() + j] == l.pts[pts.len() + j]);
            } else {
                assert(t.holes[j] == l.ring && l.ring[0] == h);
                assert(pts.len() + j == h);
                assert(t.pts[h] == Pt { steiner: true, ..l.pts[h] });
            }
        }
    }
}

/// Holes of a single vertex each can be put in order exactly if the first coordinates of any two
/// are comparable, and the second ones too where the first are the same.
pub proof fn lemma_points_sortable<C: Scalar>(data: Seq<C>, holes: Seq<usize>, dim: int)
    requires
        is_flat(data, holes, dim),
        outer_ring(data, holes, dim).ring.len() > 2,
        forall|j: int|
            0 <= j < holes.len() ==> #[trigger] holes[j] + 1 == (if j + 1 < holes.len() {
                holes[j + 1] as int
            } else {
                data.len() as int / dim
            }),
    ensures
        holes_sortable(data, holes, dim) <==> forall|i: int, j: int|
            #![trigger holes[i], holes[j]]
            0 <= i < j < holes.len() ==> {
                let (ax, ay) = (data[holes[i] * dim], data[holes[i] * dim + 1]);
                let (bx, by) = (data[holes[j] * dim], data[holes[j] * dim + 1]);
                ||| ax.less_spec(bx) && !ax.same_spec(bx)
                ||| bx.less_spec(ax) && !ax.same_spec(bx)
                ||| ax.same_spec(bx) && (ay.same_spec(by) || ay.less_spec(by) || by.less_spec(ay))
            },
{
    let l = outer_ring(data, holes, dim);
    let q = queued(l.pts, data, dim, holes, holes.len() as int);
    let n = l.pts.len() as int;
    lemma_queued_single(l.pts, data, dim, holes, holes.len() as int);
    assert forall|i: int, j: int| 0 <= i < j < holes.len() implies (sortable(
        q.pts,
        #[trigger] q.holes[i],
        #[trigger] q.holes[j],
    ) <==> {
        let (ax, ay) = (data[holes[i] * dim], data[holes[i] * dim + 1]);
        let (bx, by) = (data[holes[j] * dim], data[holes[j] * dim + 1]);
        ||| ax.less_spec(bx) && !ax.same_spec(bx)
        ||| bx.less_spec(ax) && !ax.same_spec(bx)
        ||| ax.same_spec(bx) && (ay.same_spec(by) || ay.less_spec(by) || by.less_spec(ay))
    }) by {
        assert(q.holes[i][0] == n + i && q.holes[j][0] == n + j);
    }
    if holes_sortable(data, holes, dim) {
        assert forall|i: int, j: int|
            #![trigger holes[i], holes[j]]
            0 <= i < j < holes.len() implies {
            let (ax, ay) = (data[holes[i] * dim], data[holes[i] * dim + 1]);
            let (bx, by) = (data[holes[j] * dim], data[holes[j] * dim + 1]);
            ||| ax.less_spec(bx) && !ax.same_spec(bx)
            ||| bx.less_spec(ax) && !ax.same_spec(bx)
            ||| ax.same_spec(bx) && (ay.same_spec(by) || ay.less_spec(by) || by.less_spec(ay))
        } by {
            assert(sortable(q.pts, q.holes[i], q.holes[j]));
        }
    } else {
        let (i, j) = choose|i: int, j: int|
            0 <= i < j < q.holes.len() && !sortable(
                q.pts,
                #[trigger] q.holes[i],
                #[trigger] q.holes[j],
            );
        assert(!sortable(q.pts, q.holes[i], q.holes[j]));
        assert(holes[i] == holes[i] && holes[j] == holes[j]);
    }
}

} // verus!
