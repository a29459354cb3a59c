//! The boxes of the hole-bridge index cover the edges of the ring at all times.
use vstd::prelude::*;
use crate::bounds::{in_table, lemma_bridge};
use crate::hole_model::{
    bridge, chunk_count, chunk_start, connected, healed_outline, in_reach, indexed, joined,
    lean_skips, merged, merged_all, outline, ray_edge, ray_hit, ray_skips, run_box, run_next,
    seen_from, slit_run, with_edge, Outline, Ray, BLOCK_INDEX_MIN_NODES, BLOCK_SIZE,
};
use crate::model::{
    after, backtracked, backtracked_boxes, before, bridged, degenerate, dropped_back, grown_box,
    succ, turned, turned_to, BBox, Pt,
};
use crate::rings::{
    apart_from, is_ring, lemma_dropped_ring, lemma_healed_nodes, lemma_joined_ring,
    lemma_turned_ring,
};
use crate::scalar::Scalar;

verus! {

/// The values of a set are ordered as `rank` orders them, and the lesser and the greater of two of
/// them are of the set.
pub open spec fn ranked<C: Scalar>(rank: spec_fn(C) -> int, values: Set<C>) -> bool {
    &&& values.contains(C::infinity_spec())
    &&& values.contains(C::neg_infinity_spec())
    &&& forall|u: C, v: C|
        values.contains(u) && values.contains(v) ==> (#[trigger] u.less_spec(v) <==> rank(u) < rank(
            v,
        ))
    &&& forall|u: C, v: C|
        values.contains(u) && values.contains(v) ==> values.contains(#[trigger] u.lower_spec(v))
            && rank(u.lower_spec(v)) <= rank(u) && rank(u.lower_spec(v)) <= rank(v)
    &&& forall|u: C, v: C|
        values.contains(u) && values.contains(v) ==> values.contains(#[trigger] u.upper_spec(v))
            && rank(u) <= rank(u.upper_spec(v)) && rank(v) <= rank(u.upper_spec(v))
}

/// The coordinates of the table are values of the set.
pub open spec fn valued<C>(pts: Seq<Pt<C>>, values: Set<C>) -> bool {
    forall|h: int|
        0 <= h < pts.len() ==> values.contains((#[trigger] pts[h]).x) && values.contains(pts[h].y)
}

/// The sides of the box are values of the set.
pub open spec fn box_valued<C>(b: BBox<C>, values: Set<C>) -> bool {
    values.contains(b.min_x) && values.contains(b.min_y) && values.contains(b.max_x)
        && values.contains(b.max_y)
}

/// The box covers a point.
pub open spec fn covers<C>(rank: spec_fn(C) -> int, b: BBox<C>, p: Pt<C>) -> bool {
    rank(b.min_x) <= rank(p.x) <= rank(b.max_x) && rank(b.min_y) <= rank(p.y) <= rank(b.max_y)
}

/// The edge from the node at place `k` of the ring lies in the box of the block that owns the
/// node.
pub open spec fn edge_covered<C>(rank: spec_fn(C) -> int, o: Outline<C>, k: int) -> bool {
    let h = o.ring[k];
    let b = o.owner[h];
    &&& 0 <= b < o.boxes.len()
    &&& o.lists[b].contains(h)
    &&& covers(rank, o.boxes[b], o.pts[h])
    &&& covers(rank, o.boxes[b], o.pts[succ(o.ring, k)])
}

/// All edges of the ring lie in the boxes of the index.
pub open spec fn covered<C>(rank: spec_fn(C) -> int, values: Set<C>, o: Outline<C>) -> bool {
    &&& is_ring(o.ring, o.pts.len() as int)
    &&& valued(o.pts, values)
    &&& o.owner.len() == o.pts.len()
    &&& o.boxes.len() == o.lists.len()
    &&& o.boxes.len() > 0
    &&& forall|j: int| 0 <= j < o.boxes.len() ==> box_valued(#[trigger] o.boxes[j], values)
    &&& forall|k: int| 0 <= k < o.ring.len() ==> #[trigger] edge_covered(rank, o, k)
}

/// A box with an edge in it covers the ends of the edge, and what it covered before.
proof fn lemma_with_edge<C: Scalar>(
    rank: spec_fn(C) -> int,
    values: Set<C>,
    b: BBox<C>,
    p: Pt<C>,
    c: Pt<C>,
)
    requires
        ranked(rank, values),
        box_valued(b, values),
        values.contains(p.x) && values.contains(p.y),
        values.contains(c.x) && values.contains(c.y),
    ensures
        box_valued(with_edge(b, p, c), values),
        covers(rank, with_edge(b, p, c), p),
        covers(rank, with_edge(b, p, c), c),
        forall|q: Pt<C>| #[trigger]
            covers(rank, b, q) ==> covers(rank, with_edge(b, p, c), q),
{
    assert(values.contains(b.min_x.lower_spec(p.x)));
    assert(values.contains(b.min_y.lower_spec(p.y)));
    assert(values.contains(b.max_x.upper_spec(p.x)));
    assert(values.contains(b.max_y.upper_spec(p.y)));
    let w = with_edge(b, p, c);
    assert(rank(w.min_x) <= rank(b.min_x.lower_spec(p.x)));
    assert(rank(w.min_y) <= rank(b.min_y.lower_spec(p.y)));
    assert(rank(w.max_x) >= rank(b.max_x.upper_spec(p.x)));
    assert(rank(w.max_y) >= rank(b.max_y.upper_spec(p.y)));
}

/// A grown box covers the new point, and what it covered before.
proof fn lemma_grown<C: Scalar>(
    rank: spec_fn(C) -> int,
    values: Set<C>,
    b: BBox<C>,
    p: Pt<C>,
    q: Pt<C>,
)
    requires
        ranked(rank, values),
        box_valued(b, values),
        values.contains(p.x) && values.contains(p.y),
        covers(rank, b, q),
    ensures
        box_valued(grown_box(b, p.x, p.y), values),
        covers(rank, grown_box(b, p.x, p.y), p),
        covers(rank, grown_box(b, p.x, p.y), q),
{
}

/// Every edge of a run lies in the box around a part of the run that holds it.
pub(crate) proof fn lemma_run_box<C: Scalar>(
    rank: spec_fn(C) -> int,
    values: Set<C>,
    pts: Seq<Pt<C>>,
    run: Seq<int>,
    tail: int,
    from: int,
    to: int,
)
    requires
        ranked(rank, values),
        valued(pts, values),
        in_table(run, pts.len() as int),
        0 <= tail < pts.len(),
        0 <= from <= to <= run.len(),
    ensures
        box_valued(run_box(pts, run, tail, from, to), values),
        forall|k: int|
            from <= k < to ==> covers(
                rank,
                run_box(pts, run, tail, from, to),
                pts[#[trigger] run[k]],
            ) && covers(rank, run_box(pts, run, tail, from, to), pts[run_next(run, tail, k)]),
    decreases to - from,
{
    if from < to {
        lemma_run_box(rank, values, pts, run, tail, from, to - 1);
        let b = run_box(pts, run, tail, from, to - 1);
        let p = pts[run[to - 1]];
        let c = pts[run_next(run, tail, to - 1)];
        assert(0 <= run[to - 1] < pts.len());
        assert(to < run.len() ==> 0 <= run[to] < pts.len());
        lemma_with_edge(rank, values, b, p, c);
        let w = run_box(pts, run, tail, from, to);
        assert(w == with_edge(b, p, c));
        assert forall|k: int| from <= k < to implies covers(rank, w, pts[#[trigger] run[k]])
            && covers(rank, w, pts[run_next(run, tail, k)]) by {
            if k < to - 1 {
                assert(covers(rank, b, pts[run[k]]));
                assert(covers(rank, b, pts[run_next(run, tail, k)]));
            }
        }
    }
}

/// The node of the ring behind the one at place `k`, told by its place.
proof fn lemma_succ_in(r: Seq<int>, k: int)
    requires
        0 <= k < r.len(),
    ensures
        0 <= after(k, r.len() as int) < r.len(),
        r.contains(succ(r, k)),
        r.contains(r[k]),
{
}

/// The edges of a run that has just been indexed lie in its boxes.
proof fn lemma_indexed_edge<C: Scalar>(
    rank: spec_fn(C) -> int,
    values: Set<C>,
    o: Outline<C>,
    run: Seq<int>,
    tail: int,
    k: int,
)
    requires
        ranked(rank, values),
        valued(o.pts, values),
        in_table(run, o.pts.len() as int),
        run.no_duplicates(),
        0 <= tail < o.pts.len(),
        0 <= k < run.len(),
        o.owner.len() == o.pts.len(),
        o.boxes.len() == o.lists.len(),
    ensures
        ({
            let n = indexed(o, run, tail);
            let b = n.owner[run[k]];
            &&& 0 <= b < n.boxes.len()
            &&& n.lists[b].contains(run[k])
            &&& covers(rank, n.boxes[b], o.pts[run[k]])
            &&& covers(rank, n.boxes[b], o.pts[run_next(run, tail, k)])
        }),
{
    let n = indexed(o, run, tail);
    let base = o.lists.len() as int;
    assert(run.contains(run[k]));
    let i = run.index_of(run[k]);
    assert(0 <= i < run.len() && run[i] == run[k]);
    assert(i == k);
    let j = k / BLOCK_SIZE as int;
    assert(0 <= run[k] < o.pts.len());
    assert(n.owner[run[k]] == base + j);
    assert(0 <= j < chunk_count(run));
    let from = chunk_start(run, j);
    let to = chunk_start(run, j + 1);
    assert(from <= k < to <= run.len());
    lemma_run_box(rank, values, o.pts, run, tail, from, to);
    assert(n.boxes[base + j] == run_box(o.pts, run, tail, from, to));
    assert(covers(rank, n.boxes[base + j], o.pts[run[k]]));
    let list = run.subrange(from, to);
    assert(n.lists[base + j] == list);
    assert(list[k - from] == run[k]);
}

/// The boxes of a run that has just been indexed are of values of the set.
proof fn lemma_indexed_boxes<C: Scalar>(
    rank: spec_fn(C) -> int,
    values: Set<C>,
    o: Outline<C>,
    run: Seq<int>,
    tail: int,
)
    requires
        ranked(rank, values),
        valued(o.pts, values),
        in_table(run, o.pts.len() as int),
        0 <= tail < o.pts.len(),
        run.len() > 0,
        o.boxes.len() == o.lists.len(),
        forall|j: int| 0 <= j < o.boxes.len() ==> box_valued(#[trigger] o.boxes[j], values),
    ensures
        ({
            let n = indexed(o, run, tail);
            &&& n.boxes.len() == n.lists.len()
            &&& n.boxes.len() > 0
            &&& forall|j: int| 0 <= j < n.boxes.len() ==> box_valued(#[trigger] n.boxes[j], values)
        }),
{
    let n = indexed(o, run, tail);
    let base = o.boxes.len() as int;
    assert forall|j: int| 0 <= j < n.boxes.len() implies box_valued(
        #[trigger] n.boxes[j],
        values,
    ) by {
        if j < base {
            assert(n.boxes[j] == o.boxes[j]);
        } else {
            let i = j - base;
            lemma_run_box(
                rank,
                values,
                o.pts,
                run,
                tail,
                chunk_start(run, i),
                chunk_start(run, i + 1),
            );
        }
    }
}

/// Dropping degenerate nodes backwards keeps the edges in the boxes.
proof fn lemma_backtracked_covered<C: Scalar>(
    rank: spec_fn(C) -> int,
    values: Set<C>,
    o: Outline<C>,
)
    requires
        ranked(rank, values),
        covered(rank, values, o),
    ensures
        covered(
            rank,
            values,
            Outline {
                ring: backtracked(o.pts, o.ring),
                boxes: backtracked_boxes(o.pts, o.ring, o.owner, o.boxes),
                ..o
            },
        ),
    decreases o.ring.len(),
{
    let r = o.ring;
    let len = r.len() as int;
    if degenerate(o.pts, r) {
        let d = dropped_back(r);
        let prev = r[len - 1];
        let b = o.owner[prev];
        let tail = o.pts[r[1]];
        assert(edge_covered(rank, o, len - 1));
        let more = o.boxes.update(b, grown_box(o.boxes[b], tail.x, tail.y));
        let n = Outline { ring: d, boxes: more, ..o };
        lemma_dropped_ring(r, o.pts.len() as int);
        assert(0 <= r[1] < o.pts.len());
        assert(box_valued(o.boxes[b], values));
        assert(values.contains(tail.x) && values.contains(tail.y));
        lemma_grown(rank, values, o.boxes[b], tail, o.pts[prev]);
        assert forall|k: int| 0 <= k < d.len() implies #[trigger] edge_covered(rank, n, k) by {
            let i = if k == 0 {
                len - 1
            } else {
                k
            };
            assert(d[k] == r[i]);
            assert(edge_covered(rank, o, i));
            let c = o.owner[r[i]];
            if c == b {
                lemma_grown(rank, values, o.boxes[b], tail, o.pts[r[i]]);
                lemma_grown(rank, values, o.boxes[b], tail, o.pts[succ(r, i)]);
            }
            if k == 0 {
                assert(succ(d, 0) == (if d.len() == 1 {
                    d[0]
                } else {
                    d[1]
                }));
                if d.len() == 1 {
                    assert(r[1] == r[len - 1]);
                } else {
                    assert(d[1] == r[1]);
                }
            } else if k + 1 < d.len() {
                assert(d[k + 1] == r[k + 1]);
            } else {
                assert(d[0] == r[len - 1]);
                assert(succ(r, k) == r[len - 1]);
            }
        }
        assert forall|j: int| 0 <= j < more.len() implies box_valued(
            #[trigger] more[j],
            values,
        ) by {
            if j != b {
                assert(more[j] == o.boxes[j]);
            }
        }
        assert(covered(rank, values, n));
        lemma_backtracked_covered(rank, values, n);
    } else {
        assert(o == Outline {
            ring: backtracked(o.pts, o.ring),
            boxes: backtracked_boxes(o.pts, o.ring, o.owner, o.boxes),
            ..o
        });
    }
}

/// Turning the ring keeps its edges in the boxes.
proof fn lemma_turned_covered<C: Scalar>(rank: spec_fn(C) -> int, values: Set<C>, o: Outline<C>)
    requires
        covered(rank, values, o),
    ensures
        covered(rank, values, (Outline { ring: turned(o.ring), ..o })),
{
    let n = Outline { ring: turned(o.ring), ..o };
    let len = o.ring.len() as int;
    lemma_turned_ring(o.ring, o.pts.len() as int);
    assert forall|k: int| 0 <= k < len implies #[trigger] edge_covered(rank, n, k) by {
        assert(edge_covered(rank, o, after(k, len)));
        assert(n.ring[k] == o.ring[after(k, len)]);
    }
}

/// Seeing the ring from any of its nodes keeps its edges in the boxes.
pub(crate) proof fn lemma_turned_to_covered<C: Scalar>(
    rank: spec_fn(C) -> int,
    values: Set<C>,
    o: Outline<C>,
    j: int,
)
    requires
        covered(rank, values, o),
        0 <= j <= o.ring.len(),
    ensures
        covered(rank, values, (Outline { ring: turned_to(o.ring, j), ..o })),
    decreases j,
{
    if j == 0 {
        assert(turned_to(o.ring, 0) =~= o.ring);
    } else {
        lemma_turned_to_covered(rank, values, o, j - 1);
        let n = Outline { ring: turned_to(o.ring, j - 1), ..o };
        lemma_turned_covered(rank, values, n);
        assert(turned(n.ring) =~= turned_to(o.ring, j));
    }
}

/// Healing keeps the edges in the boxes.
pub(crate) proof fn lemma_healed_covered<C: Scalar>(
    rank: spec_fn(C) -> int,
    values: Set<C>,
    o: Outline<C>,
)
    requires
        ranked(rank, values),
        covered(rank, values, o),
    ensures
        covered(rank, values, healed_outline(o)),
{
    let one = Outline {
        ring: backtracked(o.pts, o.ring),
        boxes: backtracked_boxes(o.pts, o.ring, o.owner, o.boxes),
        ..o
    };
    lemma_backtracked_covered(rank, values, o);
    lemma_turned_covered(rank, values, one);
    let two = Outline { ring: turned(one.ring), ..one };
    lemma_backtracked_covered(rank, values, two);
}

/// Joining a hole keeps the edges in the boxes.
pub(crate) proof fn lemma_connected_covered<C: Scalar>(
    rank: spec_fn(C) -> int,
    values: Set<C>,
    o: Outline<C>,
    hole: Seq<int>,
    b: int,
)
    requires
        ranked(rank, values),
        covered(rank, values, o),
        is_ring(hole, o.pts.len() as int),
        apart_from(o.ring, hole),
        o.ring.contains(b),
    ensures
        covered(rank, values, connected(o, hole, b)),
        connected(o, hole, b).pts.len() == o.pts.len() + 2,
        forall|h: int| #[trigger]
            connected(o, hole, b).ring.contains(h) && h < o.pts.len() ==> o.ring.contains(h)
                || hole.contains(h),
{
    let n = o.pts.len() as int;
    let at = o.ring.index_of(b);
    assert(0 <= at < o.ring.len() && o.ring[at] == b);
    lemma_turned_to_covered(rank, values, o, at);
    let r = seen_from(o.ring, b);
    let len = r.len() as int;
    let m = hole.len() as int;
    let v = Outline { ring: r, ..o };
    assert(r[0] == b);
    assert(0 <= b < n) by {
        assert(0 <= r[0] < n);
    }
    assert(0 <= hole[0] < n);
    assert forall|h: int| #[trigger] r.contains(h) implies o.ring.contains(h) by {
        let k = choose|k: int| 0 <= k < len && r[k] == h;
        if k < len - at {
            assert(o.ring[k + at] == h);
        } else {
            assert(o.ring[k + at - len] == h);
        }
    }
    let pts = bridged(o.pts, b, hole[0]);
    let t = joined(r, hole, n);
    let all = Outline { pts, ring: t, owner: o.owner.push(0).push(0), ..o };
    let run = slit_run(b, hole, n);
    let tail = succ(r, 0);
    let c = connected(o, hole, b);
    assert(c == indexed(all, run, tail));
    lemma_succ_in(r, 0);
    assert(0 <= tail < n);
    assert(valued(pts, values)) by {
        assert(values.contains(o.pts[b].x) && values.contains(o.pts[hole[0]].x));
        assert forall|h: int| 0 <= h < pts.len() implies values.contains((#[trigger] pts[h]).x)
            && values.contains(pts[h].y) by {
            if h < n {
                assert(pts[h] == o.pts[h]);
            }
        }
    }
    assert forall|k: int| 0 <= k < len implies #[trigger] t[k + 2] == r[after(k, len)] by {}
    assert forall|k: int| 0 <= k < m implies #[trigger] t[k + 2 + len] == hole[k] by {}
    assert(run.len() == m + 3);
    assert forall|k: int| 0 <= k < m implies #[trigger] run[k + 1] == hole[k] by {}
    assert(run[0] == b && run[m + 1] == n + 1 && run[m + 2] == n);
    assert forall|k: int| 0 <= k < run.len() implies 0 <= #[trigger] run[k] < n + 2 by {
        if 1 <= k <= m {
            assert(run[(k - 1) + 1] == hole[k - 1]);
            assert(0 <= hole[k - 1] < n);
        }
    }
    assert(run.no_duplicates()) by {
        assert forall|i: int, k: int| 0 <= i < run.len() && 0 <= k < run.len() && i != k implies
            run[i] != run[k] by {
            if 1 <= i <= m {
                assert(run[(i - 1) + 1] == hole[i - 1]);
                assert(hole.contains(hole[i - 1]));
                assert(0 <= hole[i - 1] < n);
            }
            if 1 <= k <= m {
                assert(run[(k - 1) + 1] == hole[k - 1]);
                assert(hole.contains(hole[k - 1]));
                assert(0 <= hole[k - 1] < n);
            }
        }
    }
    lemma_joined_ring(r, hole, n);
    lemma_indexed_boxes(rank, values, all, run, tail);
    assert(c.ring == t && c.pts == pts);
    assert forall|k: int| 0 <= k < t.len() implies #[trigger] edge_covered(rank, c, k) by {
        if k == 0 {
            lemma_indexed_edge(rank, values, all, run, tail, m + 1);
            assert(t[0] == run[m + 1] && succ(t, 0) == run_next(run, tail, m + 1));
        } else if k == 1 {
            lemma_indexed_edge(rank, values, all, run, tail, m + 2);
            assert(t[0int + 2] == r[after(0, len)]);
            assert(t[1] == run[m + 2] && succ(t, 1) == run_next(run, tail, m + 2));
        } else if k < len + 2 {
            let i = after(k - 2, len);
            assert(t[(k - 2) + 2] == r[i]);
            if i == 0 {
                assert(k == len + 1);
                assert(t[0int + 2 + len] == hole[0]);
                assert(run[0int + 1] == hole[0]);
                lemma_indexed_edge(rank, values, all, run, tail, 0);
                assert(t[k] == run[0] && succ(t, k) == run_next(run, tail, 0));
            } else {
                assert(t[(k - 1) + 2] == r[after(i, len)]);
                assert(edge_covered(rank, v, i));
                assert(0 <= r[i] < n);
                assert(!run.contains(r[i])) by {
                    if run.contains(r[i]) {
                        let j = choose|j: int| 0 <= j < run.len() && run[j] == r[i];
                        if 1 <= j <= m {
                            assert(run[(j - 1) + 1] == hole[j - 1]);
                            assert(hole.contains(hole[j - 1]));
                            assert(r.contains(r[i]));
                        } else if j == 0 {
                            assert(r[i] == r[0]);
                        }
                    }
                }
                assert(c.owner[r[i]] == o.owner[r[i]]);
                assert(c.boxes[o.owner[r[i]]] == o.boxes[o.owner[r[i]]]);
                lemma_succ_in(r, i);
                assert(0 <= r[after(i, len)] < n);
                assert(succ(t, k) == succ(r, i));
            }
        } else {
            let i = k - 2 - len;
            assert(t[i + 2 + len] == hole[i]);
            assert(run[i + 1] == hole[i]);
            lemma_indexed_edge(rank, values, all, run, tail, i + 1);
            if i + 1 < m {
                assert(t[(i + 1) + 2 + len] == hole[i + 1]);
                assert(run[(i + 1) + 1] == hole[i + 1]);
            } else {
                assert(t[0] == n + 1);
                assert(run[m + 1] == n + 1);
            }
            assert(t[k] == run[i + 1] && succ(t, k) == run_next(run, tail, i + 1));
        }
    }
    assert forall|h: int| #[trigger] t.contains(h) && h < n implies o.ring.contains(h)
        || hole.contains(h) by {
        let k = choose|k: int| 0 <= k < t.len() && t[k] == h;
        if 2 <= k < len + 2 {
            assert(t[(k - 2) + 2] == r[after(k - 2, len)]);
            assert(r.contains(h));
        } else if k >= len + 2 {
            assert(t[(k - 2 - len) + 2 + len] == hole[k - 2 - len]);
        }
    }
}

/// Merging a hole keeps the edges in the boxes.
proof fn lemma_merged_covered<C: Scalar>(
    rank: spec_fn(C) -> int,
    values: Set<C>,
    o: Outline<C>,
    hole: Seq<int>,
)
    requires
        ranked(rank, values),
        covered(rank, values, o),
        is_ring(hole, o.pts.len() as int),
        apart_from(o.ring, hole),
    ensures
        covered(rank, values, merged(o, hole)),
        o.pts.len() <= merged(o, hole).pts.len(),
        forall|h: int| #[trigger]
            merged(o, hole).ring.contains(h) && h < o.pts.len() ==> o.ring.contains(h)
                || hole.contains(h),
{
    lemma_bridge(o, hole[0]);
    match bridge(o, hole[0]) {
        None => {},
        Some(b) => {
            let c = connected(o, hole, b);
            lemma_connected_covered(rank, values, o, hole, b);
            lemma_healed_covered(rank, values, c);
            lemma_healed_nodes(c.pts, c.ring, c.pts.len() as int);
            let one = healed_outline(c);
            lemma_healed_covered(rank, values, one);
            lemma_healed_nodes(one.pts, one.ring, one.pts.len() as int);
            if one.ring.contains(b) {
                let at = one.ring.index_of(b);
                assert(0 <= at < one.ring.len() && one.ring[at] == b);
                lemma_turned_to_covered(rank, values, one, at);
                let two = Outline { ring: seen_from(one.ring, b), ..one };
                lemma_healed_covered(rank, values, two);
                lemma_healed_nodes(two.pts, two.ring, two.pts.len() as int);
                assert forall|h: int| #[trigger] two.ring.contains(h) implies one.ring.contains(
                    h,
                ) by {
                    let k = choose|k: int| 0 <= k < two.ring.len() && two.ring[k] == h;
                    let len = one.ring.len() as int;
                    if k < len - at {
                        assert(one.ring[k + at] == h);
                    } else {
                        assert(one.ring[k + at - len] == h);
                    }
                }
            }
        },
    }
}

/// The hole-bridge index stays a superset of the ring: whatever holes have been merged, every edge
/// of the ring lies in the box of the block that owns the node it starts at.
pub proof fn lemma_boxes_cover<C: Scalar>(
    rank: spec_fn(C) -> int,
    values: Set<C>,
    pts: Seq<Pt<C>>,
    ring: Seq<int>,
    count: int,
    q: Seq<Seq<int>>,
    k: int,
)
    requires
        ranked(rank, values),
        valued(pts, values),
        is_ring(ring, pts.len() as int),
        count >= BLOCK_INDEX_MIN_NODES,
        forall|j: int|
            0 <= j < q.len() ==> is_ring(#[trigger] q[j], pts.len() as int) && apart_from(
                ring,
                q[j],
            ),
        forall|i: int, j: int|
            0 <= i < j < q.len() ==> apart_from(#[trigger] q[i], #[trigger] q[j]),
        0 <= k <= q.len(),
    ensures
        covered(rank, values, merged_all(outline(pts, ring, count), q, k)),
{
    lemma_merged_all_covered(rank, values, pts, ring, count, q, k);
}

/// Merging holes keeps the edges in the boxes, and the ring apart from the holes that are left.
proof fn lemma_merged_all_covered<C: Scalar>(
    rank: spec_fn(C) -> int,
    values: Set<C>,
    pts: Seq<Pt<C>>,
    ring: Seq<int>,
    count: int,
    q: Seq<Seq<int>>,
    k: int,
)
    requires
        ranked(rank, values),
        valued(pts, values),
        is_ring(ring, pts.len() as int),
        count >= BLOCK_INDEX_MIN_NODES,
        forall|j: int|
            0 <= j < q.len() ==> is_ring(#[trigger] q[j], pts.len() as int) && apart_from(
                ring,
                q[j],
            ),
        forall|i: int, j: int|
            0 <= i < j < q.len() ==> apart_from(#[trigger] q[i], #[trigger] q[j]),
        0 <= k <= q.len(),
    ensures
        ({
            let m = merged_all(outline(pts, ring, count), q, k);
            &&& covered(rank, values, m)
            &&& pts.len() <= m.pts.len()
            &&& forall|j: int| k <= j < q.len() ==> apart_from(m.ring, #[trigger] q[j])
        }),
    decreases k,
{
    let o = outline(pts, ring, count);
    if k == 0 {
        let bare = Outline {
            pts,
            ring,
            boxes: Seq::empty(),
            lists: Seq::empty(),
            owner: Seq::new(pts.len(), |h: int| 0),
        };
        assert(o == indexed(bare, ring, ring[0]));
        assert(0 <= ring[0] < pts.len());
        lemma_indexed_boxes(rank, values, bare, ring, ring[0]);
        assert forall|i: int| 0 <= i < ring.len() implies #[trigger] edge_covered(rank, o, i) by {
            lemma_indexed_edge(rank, values, bare, ring, ring[0], i);
            assert(succ(ring, i) == run_next(ring, ring[0], i));
        }
    } else {
        lemma_merged_all_covered(rank, values, pts, ring, count, q, k - 1);
        let m = merged_all(o, q, k - 1);
        let hole = q[k - 1];
        assert(is_ring(hole, pts.len() as int));
        assert(is_ring(hole, m.pts.len() as int)) by {
            assert forall|i: int| 0 <= i < hole.len() implies 0 <= #[trigger] hole[i]
                < m.pts.len() by {}
        }
        lemma_merged_covered(rank, values, m, hole);
        let next = merged(m, hole);
        assert forall|j: int| k <= j < q.len() implies apart_from(next.ring, #[trigger] q[j]) by {
            assert(is_ring(q[j], pts.len() as int));
            assert(apart_from(m.ring, q[j]));
            assert(apart_from(q[k - 1], q[j]));
            assert forall|h: int| #[trigger] q[j].contains(h) implies !next.ring.contains(h) by {
                let i = choose|i: int| 0 <= i < q[j].len() && q[j][i] == h;
                assert(0 <= q[j][i] < pts.len());
                assert(!m.ring.contains(h) && !hole.contains(h));
            }
        }
    }
}

// ---------------------------------------------------------------------------------------------
// Skipping
// ---------------------------------------------------------------------------------------------
/// Two values compare as `rank` orders them.
pub open spec fn compare_by<C: Scalar>(rank: spec_fn(C) -> int, u: C, v: C) -> bool {
    &&& u.less_spec(v) <==> rank(u) < rank(v)
    &&& u.at_most_spec(v) <==> rank(u) <= rank(v)
    &&& u.same_spec(v) <==> rank(u) == rank(v)
}

/// The values of a set compare as `rank` orders them.
pub open spec fn compared<C: Scalar>(rank: spec_fn(C) -> int, values: Set<C>) -> bool {
    forall|u: C, v: C|
        #![trigger u.less_spec(v)]
        values.contains(u) && values.contains(v) ==> compare_by(rank, u, v)
}

/// A block that the ray skips holds no edge that the ray could meet nearer: an edge in its box
/// changes nothing. Where the ray meets an edge, it does so between the ends of the edge.
pub proof fn lemma_ray_skips<C: Scalar>(
    rank: spec_fn(C) -> int,
    values: Set<C>,
    pts: Seq<Pt<C>>,
    b: BBox<C>,
    hx: C,
    hy: C,
    s: Ray<C>,
    p: int,
    n: int,
)
    requires
        compared(rank, values),
        box_valued(b, values),
        values.contains(pts[p].x) && values.contains(pts[p].y),
        values.contains(pts[n].x) && values.contains(pts[n].y),
        values.contains(hx) && values.contains(hy) && values.contains(s.qx),
        values.contains(ray_hit(pts, hy, p, n)),
        ray_skips(b, hx, hy, s.qx),
        covers(rank, b, pts[p]),
        covers(rank, b, pts[n]),
        rank(s.qx) < rank(hx),
        ({
            let x = ray_hit(pts, hy, p, n);
            ||| rank(pts[p].x) <= rank(x) <= rank(pts[n].x)
            ||| rank(pts[n].x) <= rank(x) <= rank(pts[p].x)
        }),
    ensures
        ray_edge(pts, hx, hy, s, p, n) == s,
{
    let a = pts[p];
    let c = pts[n];
    let x = ray_hit(pts, hy, p, n);
    assert(hy.less_spec(b.min_y) <==> rank(hy) < rank(b.min_y));
    assert(b.max_y.less_spec(hy) <==> rank(b.max_y) < rank(hy));
    assert(hx.less_spec(b.min_x) <==> rank(hx) < rank(b.min_x));
    assert(compare_by(rank, b.max_x, s.qx)) by {
        assert(b.max_x.less_spec(s.qx) <==> rank(b.max_x) < rank(s.qx));
    }
    assert(compare_by(rank, hx, c.x)) by {
        assert(hx.less_spec(c.x) <==> rank(hx) < rank(c.x));
    }
    assert(compare_by(rank, hy, c.y)) by {
        assert(hy.less_spec(c.y) <==> rank(hy) < rank(c.y));
    }
    assert(compare_by(rank, hy, a.y)) by {
        assert(hy.less_spec(a.y) <==> rank(hy) < rank(a.y));
    }
    assert(compare_by(rank, c.y, hy)) by {
        assert(c.y.less_spec(hy) <==> rank(c.y) < rank(hy));
    }
    assert(compare_by(rank, x, hx)) by {
        assert(x.less_spec(hx) <==> rank(x) < rank(hx));
    }
    assert(compare_by(rank, s.qx, x)) by {
        assert(s.qx.less_spec(x) <==> rank(s.qx) < rank(x));
    }
}

/// A block that is skipped when the nodes in reach are compared holds none of them. A point in a
/// triangle lies between the least and the greatest height of its corners.
pub proof fn lemma_lean_skips<C: Scalar>(
    rank: spec_fn(C) -> int,
    values: Set<C>,
    pts: Seq<Pt<C>>,
    b: BBox<C>,
    hole: int,
    qx: C,
    m0: int,
    p: int,
)
    requires
        compared(rank, values),
        box_valued(b, values),
        values.contains(pts[p].x) && values.contains(pts[p].y),
        values.contains(pts[hole].x) && values.contains(pts[m0].x),
        values.contains(pts[hole].y.lower_spec(pts[m0].y)),
        values.contains(pts[hole].y.upper_spec(pts[m0].y)),
        lean_skips(b, pts[hole], pts[m0]),
        covers(rank, b, pts[p]),
        in_reach(pts, hole, qx, m0, p) ==> rank(pts[hole].y.lower_spec(pts[m0].y)) <= rank(pts[p].y)
            <= rank(pts[hole].y.upper_spec(pts[m0].y)),
    ensures
        !in_reach(pts, hole, qx, m0, p),
{
    let h = pts[hole];
    let m = pts[m0];
    let a = pts[p];
    let low = h.y.lower_spec(m.y);
    let high = h.y.upper_spec(m.y);
    assert(b.max_x.less_spec(m.x) <==> rank(b.max_x) < rank(m.x));
    assert(h.x.less_spec(b.min_x) <==> rank(h.x) < rank(b.min_x));
    assert(b.max_y.less_spec(low) <==> rank(b.max_y) < rank(low));
    assert(high.less_spec(b.min_y) <==> rank(high) < rank(b.min_y));
    assert(compare_by(rank, a.x, h.x)) by {
        assert(a.x.less_spec(h.x) <==> rank(a.x) < rank(h.x));
    }
    assert(compare_by(rank, m.x, a.x)) by {
        assert(m.x.less_spec(a.x) <==> rank(m.x) < rank(a.x));
    }
}

} // verus!
