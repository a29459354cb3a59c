//! A polygon measures as much as its triangles, such as its area: from the coordinates of its rings
//! to the triangulation.
use vstd::prelude::*;
use crate::areas::{
    abs, all_left, by_area, exact, lemma_back, lemma_by_area, lemma_dropped_sum, lemma_healed_sum,
    lemma_left_area, lemma_path_joined, lemma_sliced_sum, lemma_swept_sum, lemma_turned_sum,
    lemma_turned_to_sum, measure, path_sum, placed, ring_sum, spot, tri, tris_area, tris_sum,
    Measure,
};
use crate::bounds::{
    in_table, lemma_bridge, lemma_in_order_ok, lemma_leftmost, lemma_listed, lemma_queued,
    lemma_seen_from_in, lemma_turned_in, within,
};
use crate::geometry::{area_xy_spec, signed_area_spec, zero};
use crate::hole_model::{
    bridge, closed_ring, comes_after, connected, count_between, healed_outline, hole_end, in_order,
    joined, leftmost, listed, merged, merged_all, outline, put_in, queued, seen_from, wound,
    Outline,
};
use crate::lists::stretch;
use crate::model::{area, bridged, coincide, sliced, turned, turned_to, Pt};
use crate::scalar::Scalar;
use crate::triangulation::{ear_grid, is_flat, outer_count, outer_ring, single_ring, triangulation};

verus! {

/// The integer coordinates of the vertices.
pub open spec fn corners<C>(val: spec_fn(C) -> int, data: Seq<C>, dim: int) -> spec_fn(int) -> (
    int,
    int,
) {
    |v: int| (val(data[v * dim]), val(data[v * dim + 1]))
}

/// What is measured along the vertices from `from` to `to`.
pub open spec fn walk_sum(m: Measure, at: spec_fn(int) -> (int, int), from: int, to: int) -> int
    decreases to - from,
{
    if to <= from + 1 {
        0
    } else {
        walk_sum(m, at, from, to - 1) + m(at(to - 2), at(to - 1))
    }
}

/// What is measured around the ring of the vertices from `from` to `to`.
pub open spec fn loop_sum(m: Measure, at: spec_fn(int) -> (int, int), from: int, to: int) -> int {
    if from < to {
        walk_sum(m, at, from, to) + m(at(to - 1), at(from))
    } else {
        0
    }
}

/// The area of the ring of the vertices from `from` to `to`, doubled, positive if it runs
/// counterclockwise.
pub open spec fn loop_area(at: spec_fn(int) -> (int, int), from: int, to: int) -> int {
    loop_sum(by_area(), at, from, to)
}

/// What is measured around the ring of the vertices from `from` to `to`, run counterclockwise.
pub open spec fn left_sum(m: Measure, at: spec_fn(int) -> (int, int), from: int, to: int) -> int {
    if loop_area(at, from, to) > 0 {
        loop_sum(m, at, from, to)
    } else {
        -loop_sum(m, at, from, to)
    }
}

/// What is measured around the outer ring, less the first `k` holes.
pub open spec fn net_sum(
    m: Measure,
    at: spec_fn(int) -> (int, int),
    holes: Seq<usize>,
    count: int,
    k: int,
) -> int
    decreases k,
{
    if k <= 0 {
        left_sum(m, at, 0, outer_count(holes, count))
    } else {
        net_sum(m, at, holes, count, k - 1) - left_sum(
            m,
            at,
            holes[k - 1] as int,
            hole_end(holes, count, k - 1),
        )
    }
}

/// The area of the outer ring less that of the first `k` holes, doubled.
pub open spec fn net_area(
    at: spec_fn(int) -> (int, int),
    holes: Seq<usize>,
    count: int,
    k: int,
) -> int
    decreases k,
{
    if k <= 0 {
        abs(loop_area(at, 0, outer_count(holes, count)))
    } else {
        net_area(at, holes, count, k - 1) - abs(
            loop_area(at, holes[k - 1] as int, hole_end(holes, count, k - 1)),
        )
    }
}

/// The signed area of the ring of the vertices from `from` to `to` is found above zero if and only
/// if it is.
pub open spec fn sign_found<C: Scalar>(
    val: spec_fn(C) -> int,
    data: Seq<C>,
    dim: int,
    from: int,
    to: int,
) -> bool {
    zero::<C>().less_spec(signed_area_spec(data, from * dim, to * dim, dim)) <==> loop_area(
        corners(val, data, dim),
        from,
        to,
    ) > 0
}

/// Coordinates are computed with exactly, as the integers that `val` takes them for: of any three
/// vertices, and of the rings of the polygon.
pub open spec fn exact_data<C: Scalar>(
    val: spec_fn(C) -> int,
    data: Seq<C>,
    holes: Seq<usize>,
    dim: int,
) -> bool {
    let count = data.len() as int / dim;
    let at = corners(val, data, dim);
    &&& forall|u: int, v: int, w: int|
        0 <= u < count && 0 <= v < count && 0 <= w < count ==> ((#[trigger] vertex_area(
            data,
            dim,
            u,
            v,
            w,
        )).less_spec(zero::<C>()) ==> tri(at(u), at(v), at(w)) > 0) && (vertex_area(
            data,
            dim,
            u,
            v,
            w,
        ).same_spec(zero::<C>()) ==> tri(at(u), at(v), at(w)) == 0)
    &&& forall|u: int, v: int|
        0 <= u < count && 0 <= v < count && #[trigger] vertices_coincide(data, dim, u, v) ==> at(u)
            == at(v)
    &&& sign_found(val, data, dim, 0, outer_count(holes, count))
    &&& forall|i: int|
        0 <= i < holes.len() ==> #[trigger] sign_found(
            val,
            data,
            dim,
            holes[i] as int,
            hole_end(holes, count, i),
        )
}

/// Signed area of the triangle of three vertices.
pub open spec fn vertex_area<C: Scalar>(data: Seq<C>, dim: int, u: int, v: int, w: int) -> C {
    area_xy_spec(
        data[u * dim],
        data[u * dim + 1],
        data[v * dim],
        data[v * dim + 1],
        data[w * dim],
        data[w * dim + 1],
    )
}

/// Two vertices have the same coordinates.
pub open spec fn vertices_coincide<C: Scalar>(data: Seq<C>, dim: int, u: int, v: int) -> bool {
    data[u * dim].same_spec(data[v * dim]) && data[u * dim + 1].same_spec(data[v * dim + 1])
}

/// The points of the table are vertices of the data.
pub open spec fn drawn<C>(pts: Seq<Pt<C>>, data: Seq<C>, dim: int) -> bool {
    forall|h: int|
        0 <= h < pts.len() ==> (#[trigger] pts[h]).i < data.len() as int / dim && pts[h].x
            == data[pts[h].i * dim] && pts[h].y == data[pts[h].i * dim + 1]
}

/// What holds of the vertices holds of points drawn from them.
pub(crate) proof fn lemma_drawn<C: Scalar>(
    val: spec_fn(C) -> int,
    pts: Seq<Pt<C>>,
    data: Seq<C>,
    holes: Seq<usize>,
    dim: int,
)
    requires
        drawn(pts, data, dim),
        exact_data(val, data, holes, dim),
    ensures
        exact(val, pts),
        placed(val, corners(val, data, dim), pts),
{
    let at = corners(val, data, dim);
    assert forall|p: int, q: int, r: int|
        0 <= p < pts.len() && 0 <= q < pts.len() && 0 <= r < pts.len() implies ((#[trigger] area(
        pts,
        p,
        q,
        r,
    )).less_spec(zero::<C>()) ==> tri(spot(val, pts, p), spot(val, pts, q), spot(val, pts, r)) > 0)
        && (area(pts, p, q, r).same_spec(zero::<C>()) ==> tri(
        spot(val, pts, p),
        spot(val, pts, q),
        spot(val, pts, r),
    ) == 0) by {
        let u = pts[p].i as int;
        let v = pts[q].i as int;
        let w = pts[r].i as int;
        assert(area(pts, p, q, r) == vertex_area(data, dim, u, v, w));
    }
    assert forall|p: int, q: int|
        0 <= p < pts.len() && 0 <= q < pts.len() && #[trigger] coincide(pts, p, q) implies spot(
        val,
        pts,
        p,
    ) == spot(val, pts, q) by {
        assert(vertices_coincide(data, dim, pts[p].i as int, pts[q].i as int));
    }
}

/// Doubling nodes keeps the table drawn from the data.
pub(crate) proof fn lemma_bridged_drawn<C>(pts: Seq<Pt<C>>, data: Seq<C>, dim: int, a: int, b: int)
    requires
        drawn(pts, data, dim),
        0 <= a < pts.len(),
        0 <= b < pts.len(),
    ensures
        drawn(bridged(pts, a, b), data, dim),
{
    let all = bridged(pts, a, b);
    assert(pts[a].i < data.len() as int / dim && pts[b].i < data.len() as int / dim);
    assert forall|h: int| 0 <= h < all.len() implies (#[trigger] all[h]).i < data.len() as int / dim
        && all[h].x == data[all[h].i * dim] && all[h].y == data[all[h].i * dim + 1] by {
        if h < pts.len() {
            assert(all[h] == pts[h]);
        }
    }
}

// ---------------------------------------------------------------------------------------------
// Rings from coordinates
// ---------------------------------------------------------------------------------------------
/// A walk can be taken from its second vertex.
pub(crate) proof fn lemma_walk_front(
    m: Measure,
    at: spec_fn(int) -> (int, int),
    from: int,
    to: int,
)
    requires
        from + 1 < to,
    ensures
        walk_sum(m, at, from, to) == m(at(from), at(from + 1)) + walk_sum(m, at, from + 1, to),
    decreases to - from,
{
    if from + 2 < to {
        lemma_walk_front(m, at, from, to - 1);
    } else {
        assert(walk_sum(m, at, from, to - 1) == 0);
    }
}

/// The path of nodes that follow the vertices up.
pub(crate) proof fn lemma_stretch_forward<C>(
    m: Measure,
    val: spec_fn(C) -> int,
    at: spec_fn(int) -> (int, int),
    pts: Seq<Pt<C>>,
    n: int,
    from: int,
    k: int,
)
    requires
        0 <= k,
        forall|j: int| 0 <= j < k ==> #[trigger] spot(val, pts, n + j) == at(from + j),
    ensures
        path_sum(m, val, pts, stretch(n, k)) == walk_sum(m, at, from, from + k),
    decreases k,
{
    if k > 1 {
        lemma_stretch_forward(m, val, at, pts, n, from, k - 1);
        let s = stretch(n, k);
        assert(s.drop_last() =~= stretch(n, k - 1));
        assert(spot(val, pts, n + (k - 1)) == at(from + (k - 1)));
        assert(spot(val, pts, n + (k - 2)) == at(from + (k - 2)));
    }
}

/// The path of nodes that follow the vertices down.
proof fn lemma_stretch_backward<C>(
    m: Measure,
    val: spec_fn(C) -> int,
    at: spec_fn(int) -> (int, int),
    pts: Seq<Pt<C>>,
    n: int,
    to: int,
    k: int,
)
    requires
        measure(m),
        0 <= k,
        forall|j: int| 0 <= j < k ==> #[trigger] spot(val, pts, n + j) == at(to - 1 - j),
    ensures
        path_sum(m, val, pts, stretch(n, k)) == -walk_sum(m, at, to - k, to),
    decreases k,
{
    if k > 1 {
        lemma_stretch_backward(m, val, at, pts, n, to, k - 1);
        let s = stretch(n, k);
        assert(s.drop_last() =~= stretch(n, k - 1));
        assert(spot(val, pts, n + (k - 1)) == at(to - 1 - (k - 1)));
        assert(spot(val, pts, n + (k - 2)) == at(to - 1 - (k - 2)));
        lemma_walk_front(m, at, to - k, to);
        lemma_back(m, at(to - k), at(to - k + 1));
    }
}

/// Leaving out a last node that coincides with the first keeps what is measured around a ring.
proof fn lemma_closed_sum<C: Scalar>(m: Measure, val: spec_fn(C) -> int, pts: Seq<Pt<C>>, n: int)
    requires
        measure(m),
        exact(val, pts),
        0 <= n < pts.len(),
    ensures
        ring_sum(m, val, pts, closed_ring(pts, n)) == ring_sum(m, val,
            pts,
            stretch(n, pts.len() - n),
        ),
{
    let len = pts.len() - n;
    let all = stretch(n, len);
    let r = turned_to(all, len - 1);
    lemma_turned_to_sum(m, val, pts, all, len - 1);
    if len >= 2 && coincide(pts, pts.len() - 1, n) {
        assert(r.drop_first() =~= closed_ring(pts, n));
        lemma_dropped_sum(m, val, pts, r);
        assert(r[0] == n + len - 1 && r[1] == n);
        let a = spot(val, pts, r[0]);
        assert(a == spot(val, pts, r[1]));
        lemma_back(m, a, spot(val, pts, r.last()));
    } else {
        assert(r =~= closed_ring(pts, n));
    }
}

/// A ring read from the data measures as much as its vertices, counterclockwise if it is to be
/// clockwise in a plane whose y axis points down, and clockwise if not.
pub(crate) proof fn lemma_listed_sum<C: Scalar>(
    m: Measure,
    val: spec_fn(C) -> int,
    pts: Seq<Pt<C>>,
    data: Seq<C>,
    holes: Seq<usize>,
    dim: int,
    from: int,
    to: int,
    clockwise: bool,
)
    requires
        measure(m),
        drawn(pts, data, dim),
        exact_data(val, data, holes, dim),
        0 <= from,
        to <= data.len() as int / dim,
        data.len() as int / dim <= usize::MAX,
        sign_found(val, data, dim, from, to),
    ensures
        ({
            let l = listed(pts, data, dim, from, to, clockwise);
            let a = left_sum(m, corners(val, data, dim), from, to);
            &&& drawn(l.pts, data, dim)
            &&& pts.is_prefix_of(l.pts)
            &&& from < to ==> ring_sum(m, val, l.pts, l.ring) == (if clockwise {
                a
            } else {
                -a
            })
        }),
{
    let l = listed(pts, data, dim, from, to, clockwise);
    let at = corners(val, data, dim);
    let n = pts.len() as int;
    let len = count_between(from, to) as int;
    let more = wound(data, dim, from, to, clockwise);
    let forward = clockwise == zero::<C>().less_spec(
        signed_area_spec(data, from * dim, to * dim, dim),
    );
    assert forall|h: int| 0 <= h < l.pts.len() implies (#[trigger] l.pts[h]).i < data.len() as int
        / dim && l.pts[h].x == data[l.pts[h].i * dim] && l.pts[h].y == data[l.pts[h].i * dim
        + 1] by {
        if h < n {
            assert(l.pts[h] == pts[h]);
        } else {
            assert(l.pts[h] == more[h - n]);
        }
    }
    lemma_drawn(val, l.pts, data, holes, dim);
    if from < to {
        lemma_closed_sum(m, val, l.pts, n);
        let all = stretch(n, len);
        assert forall|j: int| 0 <= j < len implies #[trigger] spot(val, l.pts, n + j) == at(
            if forward {
                from + j
            } else {
                to - 1 - j
            },
        ) by {
            assert(l.pts[n + j] == more[j]);
        }
        assert(all.last() == n + (len - 1) && all[0] == n + 0);
        if forward {
            lemma_stretch_forward(m, val, at, l.pts, n, from, len);
        } else {
            lemma_stretch_backward(m, val, at, l.pts, n, to, len);
            lemma_back(m, at(from), at(to - 1));
        }
    }
}

// ---------------------------------------------------------------------------------------------
// Holes
// ---------------------------------------------------------------------------------------------
/// What is measured around the first `k` rings.
pub open spec fn rings_sum<C>(
    m: Measure,
    val: spec_fn(C) -> int,
    pts: Seq<Pt<C>>,
    q: Seq<Seq<int>>,
    k: int,
) -> int
    decreases k,
{
    if k <= 0 {
        0
    } else {
        rings_sum(m, val, pts, q, k - 1) + ring_sum(m, val, pts, q[k - 1])
    }
}

/// What is measured around the first `k` holes of the input.
pub open spec fn holes_sum(
    m: Measure,
    at: spec_fn(int) -> (int, int),
    holes: Seq<usize>,
    count: int,
    k: int,
) -> int
    decreases k,
{
    if k <= 0 {
        0
    } else {
        holes_sum(m, at, holes, count, k - 1) + left_sum(
            m,
            at,
            holes[k - 1] as int,
            hole_end(holes, count, k - 1),
        )
    }
}

/// What is measured around a ring depends on where its nodes are.
pub(crate) proof fn lemma_ring_same<C>(
    m: Measure,
    val: spec_fn(C) -> int,
    pts: Seq<Pt<C>>,
    all: Seq<Pt<C>>,
    r: Seq<int>,
)
    requires
        in_table(r, pts.len() as int),
        r.len() > 0,
        forall|h: int|
            0 <= h < pts.len() ==> (#[trigger] all[h]).x == pts[h].x && all[h].y == pts[h].y,
    ensures
        ring_sum(m, val, all, r) == ring_sum(m, val, pts, r),
{
    lemma_path_alike(m, val, pts, all, r);
    let n = r.len() as int;
    assert(0 <= r[0] < pts.len() && 0 <= r[n - 1] < pts.len());
    assert(all[r[0]].x == pts[r[0]].x && all[r[n - 1]].x == pts[r[n - 1]].x);
}

/// What is measured along a path depends on where its nodes are.
proof fn lemma_path_alike<C>(
    m: Measure,
    val: spec_fn(C) -> int,
    pts: Seq<Pt<C>>,
    all: Seq<Pt<C>>,
    s: Seq<int>,
)
    requires
        in_table(s, pts.len() as int),
        forall|h: int|
            0 <= h < pts.len() ==> (#[trigger] all[h]).x == pts[h].x && all[h].y == pts[h].y,
    ensures
        path_sum(m, val, all, s) == path_sum(m, val, pts, s),
    decreases s.len(),
{
    if s.len() > 1 {
        let n = s.len() as int;
        assert(0 <= s[n - 1] < pts.len() && 0 <= s[n - 2] < pts.len());
        assert(all[s[n - 1]].x == pts[s[n - 1]].x && all[s[n - 2]].x == pts[s[n - 2]].x);
        assert forall|k: int| 0 <= k < n - 1 implies 0 <= #[trigger] s.drop_last()[k]
            < pts.len() by {
            assert(s.drop_last()[k] == s[k]);
        }
        lemma_path_alike(m, val, pts, all, s.drop_last());
    }
}

/// What is measured around rings depends on where their nodes are.
proof fn lemma_rings_same<C>(
    m: Measure,
    val: spec_fn(C) -> int,
    pts: Seq<Pt<C>>,
    all: Seq<Pt<C>>,
    q: Seq<Seq<int>>,
    s: Seq<Seq<int>>,
    k: int,
)
    requires
        0 <= k <= q.len(),
        k <= s.len(),
        forall|j: int|
            0 <= j < k ==> in_table(#[trigger] q[j], pts.len() as int) && q[j].len() > 0 && s[j]
                == q[j],
        forall|h: int|
            0 <= h < pts.len() ==> (#[trigger] all[h]).x == pts[h].x && all[h].y == pts[h].y,
    ensures
        rings_sum(m, val, all, s, k) == rings_sum(m, val, pts, q, k),
    decreases k,
{
    if k > 0 {
        lemma_rings_same(m, val, pts, all, q, s, k - 1);
        assert(in_table(q[k - 1], pts.len() as int) && q[k - 1].len() > 0 && s[k - 1] == q[k - 1]);
        lemma_ring_same(m, val, pts, all, q[k - 1]);
    }
}

/// The holes that are read measure as much as their vertices, taken away.
pub(crate) proof fn lemma_queued_sum<C: Scalar>(
    m: Measure,
    val: spec_fn(C) -> int,
    pts: Seq<Pt<C>>,
    data: Seq<C>,
    holes: Seq<usize>,
    dim: int,
    k: int,
)
    requires
        measure(m),
        drawn(pts, data, dim),
        exact_data(val, data, holes, dim),
        data.len() as int / dim <= usize::MAX,
        forall|i: int| 0 <= i < holes.len() ==> #[trigger] holes[i] <= data.len() as int / dim,
        0 <= k <= holes.len(),
    ensures
        ({
            let q = queued(pts, data, dim, holes, k);
            &&& drawn(q.pts, data, dim)
            &&& forall|h: int|
                0 <= h < pts.len() ==> (#[trigger] q.pts[h]).x == pts[h].x && q.pts[h].y == pts[h].y
            &&& rings_sum(m, val, q.pts, q.holes, q.holes.len() as int) == -holes_sum(
                m,
                corners(val, data, dim),
                holes,
                data.len() as int / dim,
                k,
            )
        }),
    decreases k,
{
    let count = data.len() as int / dim;
    assert(within(pts, count)) by {
        assert forall|h: int| 0 <= h < pts.len() implies (#[trigger] pts[h]).i < count by {}
    }
    lemma_queued(pts, data, dim, holes, k, count);
    if k > 0 {
        lemma_queued_sum(m, val, pts, data, holes, dim, k - 1);
        lemma_queued(pts, data, dim, holes, k - 1, count);
        let q = queued(pts, data, dim, holes, k - 1);
        let from = holes[k - 1] as int;
        let to = hole_end(holes, count, k - 1);
        assert(sign_found(val, data, dim, from, to));
        let l = listed(q.pts, data, dim, from, to, false);
        lemma_listed_sum(m, val, q.pts, data, holes, dim, from, to, false);
        lemma_listed(q.pts, data, dim, from, to, false, count);
        let next = queued(pts, data, dim, holes, k);
        if l.ring.len() > 0 {
            let some = q.holes.len() as int;
            assert(0 <= l.ring[0] < l.pts.len());
            assert forall|h: int| 0 <= h < l.pts.len() implies (#[trigger] next.pts[h]).x
                == l.pts[h].x && next.pts[h].y == l.pts[h].y && next.pts[h].i == l.pts[h].i by {}
            assert forall|h: int| 0 <= h < next.pts.len() implies (#[trigger] next.pts[h]).i < count
                && next.pts[h].x == data[next.pts[h].i * dim] && next.pts[h].y
                == data[next.pts[h].i * dim + 1] by {
                assert(l.pts[h].i < count);
            }
            assert forall|h: int| 0 <= h < q.pts.len() implies (#[trigger] next.pts[h]).x
                == q.pts[h].x && next.pts[h].y == q.pts[h].y by {
                assert(l.pts[h] == q.pts[h]);
            }
            assert forall|h: int| 0 <= h < pts.len() implies (#[trigger] next.pts[h]).x == pts[h].x
                && next.pts[h].y == pts[h].y by {
                assert(q.pts[h].x == pts[h].x);
            }
            lemma_rings_same(m, val, q.pts, next.pts, q.holes, next.holes, some);
            lemma_ring_same(m, val, l.pts, next.pts, l.ring);
            if l.ring.len() > 1 {
                let at = leftmost(l.pts, l.ring, l.ring.len() as int);
                lemma_leftmost(l.pts, l.ring, l.ring.len() as int);
                lemma_turned_to_sum(m, val, next.pts, l.ring, at);
            }
        } else {
            assert(l.pts =~= q.pts);
        }
    }
}

/// Putting a hole in its place adds what is measured around it.
proof fn lemma_put_in_sum<C: Scalar>(
    m: Measure,
    val: spec_fn(C) -> int,
    pts: Seq<Pt<C>>,
    q: Seq<Seq<int>>,
    hole: Seq<int>,
)
    ensures
        put_in(pts, q, hole).len() == q.len() + 1,
        rings_sum(m, val, pts, put_in(pts, q, hole), q.len() as int + 1) == rings_sum(m, val,
            pts,
            q,
            q.len() as int,
        ) + ring_sum(m, val, pts, hole),
    decreases q.len(),
{
    let s = put_in(pts, q, hole);
    if q.len() > 0 && comes_after(pts, q.last(), hole) {
        let d = q.drop_last();
        lemma_put_in_sum(m, val, pts, d, hole);
        let p = put_in(pts, d, hole);
        lemma_rings_prefix(m, val, pts, p, s, p.len() as int);
        lemma_rings_prefix(m, val, pts, d, q, d.len() as int);
    } else {
        lemma_rings_prefix(m, val, pts, q, s, q.len() as int);
    }
}

/// What is measured around the first rings depends on those only.
proof fn lemma_rings_prefix<C>(
    m: Measure,
    val: spec_fn(C) -> int,
    pts: Seq<Pt<C>>,
    q: Seq<Seq<int>>,
    s: Seq<Seq<int>>,
    k: int,
)
    requires
        0 <= k <= q.len(),
        k <= s.len(),
        forall|j: int| 0 <= j < k ==> q[j] == #[trigger] s[j],
    ensures
        rings_sum(m, val, pts, q, k) == rings_sum(m, val, pts, s, k),
    decreases k,
{
    if k > 0 {
        lemma_rings_prefix(m, val, pts, q, s, k - 1);
        assert(q[k - 1] == s[k - 1]);
    }
}

/// Putting holes in order keeps what is measured around them.
proof fn lemma_in_order_sum<C: Scalar>(
    m: Measure,
    val: spec_fn(C) -> int,
    pts: Seq<Pt<C>>,
    q: Seq<Seq<int>>,
)
    ensures
        in_order(pts, q).len() == q.len(),
        rings_sum(m, val, pts, in_order(pts, q), q.len() as int) == rings_sum(m, val,
            pts,
            q,
            q.len() as int,
        ),
    decreases q.len(),
{
    if q.len() > 0 {
        let d = q.drop_last();
        lemma_in_order_sum(m, val, pts, d);
        lemma_put_in_sum(m, val, pts, in_order(pts, d), q.last());
        lemma_rings_prefix(m, val, pts, d, q, d.len() as int);
    }
}

/// Rings joined by a bridge measure as much as both.
proof fn lemma_joined_sum<C: Scalar>(
    m: Measure,
    val: spec_fn(C) -> int,
    pts: Seq<Pt<C>>,
    r: Seq<int>,
    s: Seq<int>,
)
    requires
        measure(m),
        in_table(r, pts.len() as int),
        in_table(s, pts.len() as int),
        r.len() > 0,
        s.len() > 0,
    ensures
        ring_sum(m, val, bridged(pts, r[0], s[0]), joined(r, s, pts.len() as int)) == ring_sum(m, val,
            pts,
            r,
        ) + ring_sum(m, val, pts, s),
{
    let n = pts.len() as int;
    let all = bridged(pts, r[0], s[0]);
    let t = turned(r);
    let ends = seq![n + 1, n];
    let j = joined(r, s, n);
    assert(0 <= r[0] < n && 0 <= s[0] < n);
    assert forall|h: int| 0 <= h < n implies (#[trigger] all[h]).x == pts[h].x && all[h].y
        == pts[h].y by {}
    assert(j =~= ends + t + s);
    lemma_turned_sum(m, val, pts, r);
    lemma_turned_in(r, n);
    lemma_path_alike(m, val, pts, all, t);
    lemma_path_alike(m, val, pts, all, s);
    lemma_path_joined(m, val, all, ends + t, s);
    lemma_path_joined(m, val, all, ends, t);
    assert(path_sum(m, val, all, ends.drop_last()) == 0);
    assert((ends + t).last() == t.last());
    assert(t.last() == r[0]);
    let a = spot(val, pts, r[0]);
    let b = spot(val, pts, s[0]);
    assert(spot(val, all, n) == a && spot(val, all, n + 1) == b);
    lemma_back(m, a, b);
    assert(0 <= t[0] < n);
    let last = s[s.len() - 1];
    assert(0 <= last < n);
    assert(spot(val, all, last) == spot(val, pts, last));
    assert(j.last() == last && j[0] == n + 1);
    assert(spot(val, all, t[0]) == spot(val, pts, t[0]));
}

/// Healing an outline keeps what is measured around it.
proof fn lemma_healed_outline_sum<C: Scalar>(m: Measure, val: spec_fn(C) -> int, o: Outline<C>)
    requires
        measure(m),
        exact(val, o.pts),
        in_table(o.ring, o.pts.len() as int),
        o.ring.len() > 0,
    ensures
        ring_sum(m, val, healed_outline(o).pts, healed_outline(o).ring) == ring_sum(m, val,
            o.pts,
            o.ring,
        ),
        healed_outline(o).pts == o.pts,
        in_table(healed_outline(o).ring, o.pts.len() as int),
        healed_outline(o).ring.len() > 0,
{
    lemma_healed_sum(m, val, o.pts, o.ring);
}

/// A hole that is merged brings what is measured around it.
proof fn lemma_merged_sum<C: Scalar>(
    m: Measure,
    val: spec_fn(C) -> int,
    o: Outline<C>,
    hole: Seq<int>,
    data: Seq<C>,
    holes: Seq<usize>,
    dim: int,
)
    requires
        measure(m),
        drawn(o.pts, data, dim),
        exact_data(val, data, holes, dim),
        in_table(o.ring, o.pts.len() as int),
        o.ring.len() > 0,
        in_table(hole, o.pts.len() as int),
        hole.len() > 0,
        bridge(o, hole[0]) is Some,
    ensures
        ({
            let w = merged(o, hole);
            &&& drawn(w.pts, data, dim)
            &&& in_table(w.ring, w.pts.len() as int)
            &&& w.ring.len() > 0
            &&& ring_sum(m, val, w.pts, w.ring) == ring_sum(m, val, o.pts, o.ring) + ring_sum(m, val,
                o.pts,
                hole,
            )
            &&& o.pts.is_prefix_of(w.pts)
        }),
{
    let n = o.pts.len() as int;
    let b = bridge(o, hole[0])->0;
    lemma_bridge(o, hole[0]);
    let r = seen_from(o.ring, b);
    let c = connected(o, hole, b);
    lemma_seen_from_in(o.ring, b, n);
    lemma_turned_to_sum(m, val, o.pts, o.ring, o.ring.index_of(b));
    assert(0 <= r[0] < n && 0 <= hole[0] < n);
    lemma_bridged_drawn(o.pts, data, dim, b, hole[0]);
    lemma_drawn(val, c.pts, data, holes, dim);
    lemma_joined_sum(m, val, o.pts, r, hole);
    lemma_turned_in(r, n);
    let t = joined(r, hole, n);
    assert(c.ring == t);
    assert forall|k: int| 0 <= k < t.len() implies 0 <= #[trigger] t[k] < n + 2 by {
        if 2 <= k < r.len() + 2 {
            assert(t[k] == turned(r)[k - 2]);
        } else if k >= r.len() + 2 {
            assert(t[k] == hole[k - 2 - r.len()]);
        }
    }
    lemma_healed_outline_sum(m, val, c);
    let one = healed_outline(c);
    lemma_healed_outline_sum(m, val, one);
    if one.ring.contains(b) {
        lemma_seen_from_in(one.ring, b, n + 2);
        lemma_turned_to_sum(m, val, one.pts, one.ring, one.ring.index_of(b));
        lemma_healed_outline_sum(m, val, Outline { ring: seen_from(one.ring, b), ..one });
    }
}

/// Hole number `j` is connected when its turn comes.
#[verifier::opaque]
pub open spec fn hole_connected<C: Scalar>(o: Outline<C>, q: Seq<Seq<int>>, j: int) -> bool {
    bridge(merged_all(o, q, j), q[j][0]) is Some
}

/// Every one of the first `k` holes is connected.
pub open spec fn all_connected<C: Scalar>(o: Outline<C>, q: Seq<Seq<int>>, k: int) -> bool {
    forall|j: int| 0 <= j < k ==> #[trigger] hole_connected(o, q, j)
}

/// Holes that are merged bring what is measured around them.
pub(crate) proof fn lemma_merged_all_sum<C: Scalar>(
    m: Measure,
    val: spec_fn(C) -> int,
    o: Outline<C>,
    q: Seq<Seq<int>>,
    k: int,
    data: Seq<C>,
    holes: Seq<usize>,
    dim: int,
)
    requires
        measure(m),
        drawn(o.pts, data, dim),
        exact_data(val, data, holes, dim),
        in_table(o.ring, o.pts.len() as int),
        o.ring.len() > 0,
        forall|j: int|
            0 <= j < q.len() ==> in_table(#[trigger] q[j], o.pts.len() as int) && q[j].len() > 0,
        0 <= k <= q.len(),
        all_connected(o, q, k),
    ensures
        ({
            let w = merged_all(o, q, k);
            &&& drawn(w.pts, data, dim)
            &&& in_table(w.ring, w.pts.len() as int)
            &&& w.ring.len() > 0
            &&& ring_sum(m, val, w.pts, w.ring) == ring_sum(m, val, o.pts, o.ring) + rings_sum(m, val,
                o.pts,
                q,
                k,
            )
            &&& o.pts.is_prefix_of(w.pts)
        }),
    decreases k,
{
    if k > 0 {
        assert(all_connected(o, q, k - 1));
        lemma_merged_all_sum(m, val, o, q, k - 1, data, holes, dim);
        let w = merged_all(o, q, k - 1);
        let hole = q[k - 1];
        assert(in_table(hole, o.pts.len() as int) && hole.len() > 0);
        assert forall|i: int| 0 <= i < hole.len() implies 0 <= #[trigger] hole[i]
            < w.pts.len() by {}
        assert(bridge(w, hole[0]) is Some) by {
            assert(hole_connected(o, q, k - 1));
            reveal(hole_connected);
        }
        lemma_merged_sum(m, val, w, hole, data, holes, dim);
        assert forall|h: int| 0 <= h < o.pts.len() implies (#[trigger] w.pts[h]).x == o.pts[h].x
            && w.pts[h].y == o.pts[h].y by {}
        lemma_ring_same(m, val, o.pts, w.pts, hole);
    }
}

// ---------------------------------------------------------------------------------------------
// Polygons
// ---------------------------------------------------------------------------------------------
/// The polygon is sliced completely: it has an outer ring, every hole has been connected to it,
/// and the ring that results falls into ears.
pub open spec fn sliced_completely<C: Scalar>(data: Seq<C>, holes: Seq<usize>, dim: int) -> bool {
    let l = outer_ring(data, holes, dim);
    let count = data.len() as int / dim;
    let q = queued(l.pts, data, dim, holes, holes.len() as int);
    let s = in_order(q.pts, q.holes);
    let w = single_ring(data, holes, dim);
    &&& l.ring.len() > 2
    &&& all_connected(outline(q.pts, l.ring, count), s, s.len() as int)
    &&& sliced(w.pts, w.ring, ear_grid(data, dim, outer_count(holes, count))).complete
}

/// What is measured around the outer ring and the holes.
proof fn lemma_net_sum(
    m: Measure,
    at: spec_fn(int) -> (int, int),
    holes: Seq<usize>,
    count: int,
    k: int,
)
    ensures
        net_sum(m, at, holes, count, k) == left_sum(m, at, 0, outer_count(holes, count))
            - holes_sum(m, at, holes, count, k),
    decreases k,
{
    if k > 0 {
        lemma_net_sum(m, at, holes, count, k - 1);
    }
}

/// The area of the outer ring less that of the holes.
proof fn lemma_net_area(at: spec_fn(int) -> (int, int), holes: Seq<usize>, count: int, k: int)
    ensures
        net_area(at, holes, count, k) == net_sum(by_area(), at, holes, count, k),
    decreases k,
{
    if k > 0 {
        lemma_net_area(at, holes, count, k - 1);
    }
}

/// Where coordinates are computed with exactly, the triangles of a polygon that is sliced
/// completely all run counterclockwise, and measure together as much as its outer ring less its
/// holes.
pub proof fn lemma_triangulation_sum<C: Scalar>(
    m: Measure,
    val: spec_fn(C) -> int,
    data: Seq<C>,
    holes: Seq<usize>,
    dim: int,
)
    requires
        measure(m),
        is_flat(data, holes, dim),
        data.len() <= usize::MAX,
        exact_data(val, data, holes, dim),
        sliced_completely(data, holes, dim),
    ensures
        tris_sum(m, corners(val, data, dim), triangulation(data, holes, dim)) == net_sum(
            m,
            corners(val, data, dim),
            holes,
            data.len() as int / dim,
            holes.len() as int,
        ),
        all_left(corners(val, data, dim), triangulation(data, holes, dim)),
{
    let count = data.len() as int / dim;
    let at = corners(val, data, dim);
    let outer = outer_count(holes, count);
    let l = outer_ring(data, holes, dim);
    let w = single_ring(data, holes, dim);
    let none = Seq::<Pt<C>>::empty();
    assert(count <= data.len()) by {
        vstd::arithmetic::div_mod::lemma_div_nonincreasing(data.len() as int, dim);
    }
    assert(0 <= count) by {
        vstd::arithmetic::div_mod::lemma_div_pos_is_pos(data.len() as int, dim);
    }
    assert(drawn(none, data, dim));
    lemma_listed_sum(m, val, none, data, holes, dim, 0, outer, true);
    lemma_listed(none, data, dim, 0, outer, true, count);
    lemma_drawn(val, l.pts, data, holes, dim);
    lemma_net_sum(m, at, holes, count, holes.len() as int);
    if holes.len() > 0 {
        let q = queued(l.pts, data, dim, holes, holes.len() as int);
        lemma_queued_sum(m, val, l.pts, data, holes, dim, holes.len() as int);
        lemma_queued(l.pts, data, dim, holes, holes.len() as int, count);
        let s = in_order(q.pts, q.holes);
        lemma_in_order_sum(m, val, q.pts, q.holes);
        lemma_in_order_ok(q.pts, q.holes, q.pts.len() as int);
        let o = outline(q.pts, l.ring, count);
        assert(o.pts == q.pts && o.ring == l.ring);
        assert forall|k: int| 0 <= k < l.ring.len() implies 0 <= #[trigger] l.ring[k]
            < q.pts.len() by {}
        lemma_merged_all_sum(m, val, o, s, s.len() as int, data, holes, dim);
        let all = merged_all(o, s, s.len() as int);
        lemma_ring_same(m, val, l.pts, q.pts, l.ring);
        lemma_drawn(val, all.pts, data, holes, dim);
        crate::model::lemma_swept_len(all.pts, all.ring, 0);
        lemma_swept_sum(m, val, all.pts, all.ring, 0);
        assert(w.pts == all.pts);
    } else {
        assert(holes_sum(m, at, holes, count, 0) == 0);
    }
    lemma_drawn(val, w.pts, data, holes, dim);
    lemma_sliced_sum(m, val, at, w.pts, w.ring, ear_grid(data, dim, outer));
}

/// Where coordinates are computed with exactly, the triangles of a polygon that is sliced
/// completely have together the area of its outer ring less that of its holes.
pub proof fn lemma_triangulation_area<C: Scalar>(
    val: spec_fn(C) -> int,
    data: Seq<C>,
    holes: Seq<usize>,
    dim: int,
)
    requires
        is_flat(data, holes, dim),
        data.len() <= usize::MAX,
        exact_data(val, data, holes, dim),
        sliced_completely(data, holes, dim),
    ensures
        tris_area(corners(val, data, dim), triangulation(data, holes, dim)) == net_area(
            corners(val, data, dim),
            holes,
            data.len() as int / dim,
            holes.len() as int,
        ),
{
    let at = corners(val, data, dim);
    lemma_by_area();
    lemma_triangulation_sum(by_area(), val, data, holes, dim);
    lemma_left_area(at, triangulation(data, holes, dim));
    lemma_net_area(at, holes, data.len() as int / dim, holes.len() as int);
}

} // verus!
