//! What reading rings from flat coordinates and merging holes into the outer ring computes.
use vstd::prelude::*;
use crate::geometry::{point_in_triangle_spec, signed_area_spec, zero};
use crate::model::{
    area, backtracked, bridged, coincide, healed, healed_boxes, locally_inside_spec, pred, succ,
    swept, turned, turned_to, BBox, Pt,
};
use crate::scalar::Scalar;

verus! {

// ---------------------------------------------------------------------------------------------
// Rings from coordinates
// ---------------------------------------------------------------------------------------------
/// The vertex `v` of flat coordinates, `dim` numbers each.
pub open spec fn vertex_at<C>(data: Seq<C>, dim: int, v: int) -> Pt<C> {
    Pt { i: v as usize, steiner: false, x: data[v * dim], y: data[v * dim + 1] }
}

/// The number of vertices from `from` to `to`.
pub open spec fn count_between(from: int, to: int) -> nat {
    if from < to {
        (to - from) as nat
    } else {
        0
    }
}

/// The vertices from `from` to `to` in winding order: as they are if the sign of their signed
/// area agrees with `clockwise`, and backwards if not.
pub open spec fn wound<C: Scalar>(
    data: Seq<C>,
    dim: int,
    from: int,
    to: int,
    clockwise: bool,
) -> Seq<Pt<C>> {
    let forward = clockwise == zero::<C>().less_spec(
        signed_area_spec(data, from * dim, to * dim, dim),
    );
    Seq::new(
        count_between(from, to),
        |k: int|
            vertex_at(
                data,
                dim,
                if forward {
                    from + k
                } else {
                    to - 1 - k
                },
            ),
    )
}

/// The ring of the nodes from `n` to the end of the table, seen from the last; if that coincides
/// with the first, it is left out.
pub open spec fn closed_ring<C: Scalar>(pts: Seq<Pt<C>>, n: int) -> Seq<int> {
    let m = pts.len() - n;
    if m >= 2 && coincide(pts, pts.len() - 1, n) {
        Seq::new((m - 1) as nat, |k: int| n + k)
    } else {
        Seq::new(
            m as nat,
            |k: int|
                if k == 0 {
                    pts.len() - 1
                } else {
                    n + k - 1
                },
        )
    }
}

/// A table of points and a ring in it.
pub struct Listed<C> {
    /// The points.
    pub pts: Seq<Pt<C>>,
    /// The ring; empty if there is none.
    pub ring: Seq<int>,
}

/// The table with the vertices from `from` to `to` added, and their ring.
pub open spec fn listed<C: Scalar>(
    pts: Seq<Pt<C>>,
    data: Seq<C>,
    dim: int,
    from: int,
    to: int,
    clockwise: bool,
) -> Listed<C> {
    let all = pts + wound(data, dim, from, to, clockwise);
    Listed { pts: all, ring: closed_ring(all, pts.len() as int) }
}

// ---------------------------------------------------------------------------------------------
// The queue of holes
// ---------------------------------------------------------------------------------------------
/// `p` lies left of `q`, or below it on the same vertical.
pub open spec fn left_of<C: Scalar>(pts: Seq<Pt<C>>, p: int, q: int) -> bool {
    pts[p].x.less_spec(pts[q].x) || (pts[p].x.same_spec(pts[q].x) && pts[p].y.less_spec(pts[q].y))
}

/// The place of the leftmost among the first `k` nodes of the ring.
pub open spec fn leftmost<C: Scalar>(pts: Seq<Pt<C>>, r: Seq<int>, k: int) -> int
    decreases k,
{
    if k <= 1 {
        0
    } else {
        let best = leftmost(pts, r, k - 1);
        if left_of(pts, r[k - 1], r[best]) {
            k - 1
        } else {
            best
        }
    }
}

/// The ring seen from its leftmost node.
pub open spec fn from_leftmost<C: Scalar>(pts: Seq<Pt<C>>, r: Seq<int>) -> Seq<int> {
    turned_to(r, leftmost(pts, r, r.len() as int))
}

/// The holes start at vertices of a polygon of `count` vertices, or at their end.
pub open spec fn holes_fit(count: int, holes: Seq<usize>) -> bool {
    forall|i: int| 0 <= i < holes.len() ==> #[trigger] holes[i] <= count
}

/// The end of the hole number `i`: the start of the next, or the end of the data.
pub open spec fn hole_end(holes: Seq<usize>, count: int, i: int) -> int {
    if i + 1 < holes.len() {
        holes[i + 1] as int
    } else {
        count
    }
}

/// A table of points and the holes read into it, each seen from its leftmost node.
pub struct Queue<C> {
    /// The points.
    pub pts: Seq<Pt<C>>,
    /// The rings of the holes.
    pub holes: Seq<Seq<int>>,
}

/// The table with the first `k` holes read into it. A hole of a single node is a Steiner point.
pub open spec fn queued<C: Scalar>(
    pts: Seq<Pt<C>>,
    data: Seq<C>,
    dim: int,
    holes: Seq<usize>,
    k: int,
) -> Queue<C>
    decreases k,
{
    if k <= 0 {
        Queue { pts, holes: seq![] }
    } else {
        let q = queued(pts, data, dim, holes, k - 1);
        let l = listed(
            q.pts,
            data,
            dim,
            holes[k - 1] as int,
            hole_end(holes, data.len() as int / dim, k - 1),
            false,
        );
        if l.ring.len() == 0 {
            q
        } else if l.ring.len() == 1 {
            let p = l.ring[0];
            Queue {
                pts: l.pts.update(p, Pt { steiner: true, ..l.pts[p] }),
                holes: q.holes.push(l.ring),
            }
        } else {
            Queue { pts: l.pts, holes: q.holes.push(from_leftmost(l.pts, l.ring)) }
        }
    }
}

/// The slope of the edge from the first node of the ring.
pub open spec fn slope<C: Scalar>(pts: Seq<Pt<C>>, r: Seq<int>) -> C {
    let p = pts[r[0]];
    let n = pts[succ(r, 0)];
    n.y.minus_spec(p.y).over_spec(n.x.minus_spec(p.x))
}

/// The hole `a` is to be merged after the hole `b`: its first node is further to the right, or
/// higher on the same vertical, or the same with a steeper edge.
pub open spec fn comes_after<C: Scalar>(pts: Seq<Pt<C>>, a: Seq<int>, b: Seq<int>) -> bool {
    let p = pts[a[0]];
    let q = pts[b[0]];
    if !p.x.same_spec(q.x) {
        q.x.less_spec(p.x)
    } else if !p.y.same_spec(q.y) {
        q.y.less_spec(p.y)
    } else {
        slope(pts, b).less_spec(slope(pts, a))
    }
}

/// The two values are equal or one is below the other.
pub open spec fn comparable<C: Scalar>(a: C, b: C) -> bool {
    a.same_spec(b) || a.less_spec(b) || b.less_spec(a)
}

/// The first nodes of the two holes can be put in order.
pub open spec fn sortable<C: Scalar>(pts: Seq<Pt<C>>, a: Seq<int>, b: Seq<int>) -> bool {
    let p = pts[a[0]];
    let q = pts[b[0]];
    &&& comparable(p.x, q.x)
    &&& p.x.same_spec(q.x) ==> comparable(p.y, q.y)
}

/// The queue with a hole put in its place: behind every hole from the end on that does not come
/// after it.
pub open spec fn put_in<C: Scalar>(pts: Seq<Pt<C>>, q: Seq<Seq<int>>, hole: Seq<int>) -> Seq<
    Seq<int>,
>
    decreases q.len(),
{
    if q.len() > 0 && comes_after(pts, q.last(), hole) {
        put_in(pts, q.drop_last(), hole).push(q.last())
    } else {
        q.push(hole)
    }
}

/// The queue in the order in which its holes are merged: from left to right.
pub open spec fn in_order<C: Scalar>(pts: Seq<Pt<C>>, q: Seq<Seq<int>>) -> Seq<Seq<int>>
    decreases q.len(),
{
    if q.len() == 0 {
        q
    } else {
        put_in(pts, in_order(pts, q.drop_last()), q.last())
    }
}

// ---------------------------------------------------------------------------------------------
// The hole-bridge index
// ---------------------------------------------------------------------------------------------
/// Edges per block of the hole-bridge index.
pub const BLOCK_SIZE: usize = 16;

/// Number of vertices from which on the index is used.
pub const BLOCK_INDEX_MIN_NODES: usize = 256;

/// The outer ring, as far as holes have been merged into it, and the hole-bridge index.
pub struct Outline<C> {
    /// The points.
    pub pts: Seq<Pt<C>>,
    /// The ring.
    pub ring: Seq<int>,
    /// The bounding box of each block of the index; there are none if the index is not in use.
    pub boxes: Seq<BBox<C>>,
    /// The nodes that each block owns.
    pub lists: Seq<Seq<int>>,
    /// The block that was last to own each node.
    pub owner: Seq<int>,
}

/// The node after place `k` of a run of nodes that `tail` follows.
pub open spec fn run_next(run: Seq<int>, tail: int, k: int) -> int {
    if k + 1 < run.len() {
        run[k + 1]
    } else {
        tail
    }
}

/// The box with the edge from `p` to `c` in it.
pub open spec fn with_edge<C: Scalar>(b: BBox<C>, p: Pt<C>, c: Pt<C>) -> BBox<C> {
    BBox {
        min_x: b.min_x.lower_spec(p.x).lower_spec(c.x),
        min_y: b.min_y.lower_spec(p.y).lower_spec(c.y),
        max_x: b.max_x.upper_spec(p.x).upper_spec(c.x),
        max_y: b.max_y.upper_spec(p.y).upper_spec(c.y),
    }
}

/// The box around the edges that start at the places from `from` to `to` of a run of nodes that
/// `tail` follows.
pub open spec fn run_box<C: Scalar>(
    pts: Seq<Pt<C>>,
    run: Seq<int>,
    tail: int,
    from: int,
    to: int,
) -> BBox<C>
    decreases to - from,
{
    if to <= from {
        BBox {
            min_x: C::infinity_spec(),
            min_y: C::infinity_spec(),
            max_x: C::neg_infinity_spec(),
            max_y: C::neg_infinity_spec(),
        }
    } else {
        let b = run_box(pts, run, tail, from, to - 1);
        with_edge(b, pts[run[to - 1]], pts[run_next(run, tail, to - 1)])
    }
}

/// The place in a run where the block number `j` of it starts.
pub open spec fn chunk_start(run: Seq<int>, j: int) -> int {
    if j * BLOCK_SIZE < run.len() {
        j * BLOCK_SIZE
    } else {
        run.len() as int
    }
}

/// The number of blocks of a run.
pub open spec fn chunk_count(run: Seq<int>) -> nat {
    ((run.len() + BLOCK_SIZE - 1) / BLOCK_SIZE as int) as nat
}

/// The outline with the blocks of a run of nodes that `tail` follows added to the index.
pub open spec fn indexed<C: Scalar>(o: Outline<C>, run: Seq<int>, tail: int) -> Outline<C> {
    let b = o.lists.len() as int;
    Outline {
        pts: o.pts,
        ring: o.ring,
        boxes: o.boxes + Seq::new(
            chunk_count(run),
            |j: int| run_box(o.pts, run, tail, chunk_start(run, j), chunk_start(run, j + 1)),
        ),
        lists: o.lists + Seq::new(
            chunk_count(run),
            |j: int| run.subrange(chunk_start(run, j), chunk_start(run, j + 1)),
        ),
        owner: Seq::new(
            o.owner.len(),
            |h: int|
                if run.contains(h) {
                    b + run.index_of(h) / BLOCK_SIZE as int
                } else {
                    o.owner[h]
                },
        ),
    }
}

// ---------------------------------------------------------------------------------------------
// The search for a bridge
// ---------------------------------------------------------------------------------------------
/// What a ray cast to the left has met.
pub struct Ray<C> {
    /// Where the ray meets the ring, the nearest point so far.
    pub qx: C,
    /// The end of the edge met there that is to be connected.
    pub m: Option<int>,
    /// Whether nothing nearer can be met.
    pub done: bool,
}

/// Where the line through `p` and `n` is at height `hy`.
pub open spec fn ray_hit<C: Scalar>(pts: Seq<Pt<C>>, hy: C, p: int, n: int) -> C {
    let a = pts[p];
    let b = pts[n];
    a.x.plus_spec(
        hy.minus_spec(a.y).times_spec(b.x.minus_spec(a.x)).over_spec(b.y.minus_spec(a.y)),
    )
}

/// The ray from `(hx, hy)` to the left, cast at the edge from `p` to `n`.
pub open spec fn ray_edge<C: Scalar>(
    pts: Seq<Pt<C>>,
    hx: C,
    hy: C,
    s: Ray<C>,
    p: int,
    n: int,
) -> Ray<C> {
    let a = pts[p];
    let b = pts[n];
    if hx.same_spec(b.x) && hy.same_spec(b.y) {
        Ray { qx: s.qx, m: Some(n), done: true }
    } else if hy.at_most_spec(a.y) && b.y.at_most_spec(hy) && !b.y.same_spec(a.y) {
        let x = ray_hit(pts, hy, p, n);
        if x.at_most_spec(hx) && s.qx.less_spec(x) {
            Ray {
                qx: x,
                m: Some(
                    if a.x.less_spec(b.x) {
                        p
                    } else {
                        n
                    },
                ),
                done: x.same_spec(hx),
            }
        } else {
            s
        }
    } else {
        s
    }
}

/// The ray cast at the edges of the ring that start at the given nodes, one after the other;
/// nodes that are not in the ring are passed over.
pub open spec fn ray_over<C: Scalar>(
    pts: Seq<Pt<C>>,
    r: Seq<int>,
    hx: C,
    hy: C,
    nodes: Seq<int>,
    s: Ray<C>,
) -> Ray<C>
    decreases nodes.len(),
{
    if nodes.len() == 0 {
        s
    } else {
        let t = ray_over(pts, r, hx, hy, nodes.drop_last(), s);
        let p = nodes.last();
        if t.done || !r.contains(p) {
            t
        } else {
            ray_edge(pts, hx, hy, t, p, succ(r, r.index_of(p)))
        }
    }
}

/// No edge in the box can be met by the ray nearer than where it has met one.
pub open spec fn ray_skips<C: Scalar>(b: BBox<C>, hx: C, hy: C, qx: C) -> bool {
    hy.less_spec(b.min_y) || b.max_y.less_spec(hy) || hx.less_spec(b.min_x)
        || b.max_x.at_most_spec(qx)
}

/// The ray before it has met anything.
pub open spec fn ray_start<C: Scalar>() -> Ray<C> {
    Ray { qx: C::neg_infinity_spec(), m: None, done: false }
}

/// The ray cast at the edges in the first `k` blocks of the index.
pub open spec fn ray_blocks<C: Scalar>(o: Outline<C>, hx: C, hy: C, k: int) -> Ray<C>
    decreases k,
{
    if k <= 0 {
        ray_start()
    } else {
        let s = ray_blocks(o, hx, hy, k - 1);
        if s.done || ray_skips(o.boxes[k - 1], hx, hy, s.qx) {
            s
        } else {
            ray_over(o.pts, o.ring, hx, hy, o.lists[k - 1], s)
        }
    }
}

/// The ray cast at the ring: block by block if there is an index, edge by edge if not.
pub open spec fn ray_cast<C: Scalar>(o: Outline<C>, hx: C, hy: C) -> Ray<C> {
    if o.boxes.len() == 0 {
        ray_over(o.pts, o.ring, hx, hy, o.ring, ray_start())
    } else {
        ray_blocks(o, hx, hy, o.boxes.len() as int)
    }
}

/// The best node to connect so far.
pub struct Lean<C> {
    /// The node.
    pub m: int,
    /// The tangent of its angle with the ray.
    pub tan: C,
}

/// The sector at `m` contains the sector at `p`, which has the same coordinates.
pub open spec fn sector_contains<C: Scalar>(pts: Seq<Pt<C>>, r: Seq<int>, m: int, p: int) -> bool {
    let i = r.index_of(m);
    let j = r.index_of(p);
    &&& area(pts, pred(r, i), m, pred(r, j)).less_spec(zero::<C>())
    &&& area(pts, succ(r, j), m, succ(r, i)).less_spec(zero::<C>())
}

/// The node `p` lies in the triangle of the hole's node, where the ray met the ring, and the end
/// `m0` of the edge met there.
pub open spec fn in_reach<C: Scalar>(
    pts: Seq<Pt<C>>,
    hole: int,
    qx: C,
    m0: int,
    p: int,
) -> bool {
    let h = pts[hole];
    let m = pts[m0];
    let a = pts[p];
    &&& a.x.at_most_spec(h.x)
    &&& m.x.at_most_spec(a.x)
    &&& !h.x.same_spec(a.x)
    &&& point_in_triangle_spec(
        if h.y.less_spec(m.y) {
            h.x
        } else {
            qx
        },
        h.y,
        m.x,
        m.y,
        if h.y.less_spec(m.y) {
            qx
        } else {
            h.x
        },
        h.y,
        a.x,
        a.y,
    )
}

/// The node `p` compared with the best so far: it is better if it can be seen from the hole's
/// node under a smaller angle, or under the same angle from further right, or from the same place
/// with its sector inside.
pub open spec fn lean_node<C: Scalar>(
    pts: Seq<Pt<C>>,
    r: Seq<int>,
    hole: int,
    qx: C,
    m0: int,
    s: Lean<C>,
    p: int,
) -> Lean<C> {
    let h = pts[hole];
    let a = pts[p];
    let k = r.index_of(p);
    let n = pts[succ(r, k)];
    let best = pts[s.m];
    let tan = h.y.minus_spec(a.y).magnitude_spec().over_spec(h.x.minus_spec(a.x));
    let seen = locally_inside_spec(pts, r, k, hole) || (a.y.same_spec(h.y) && n.y.same_spec(h.y)
        && h.x.less_spec(n.x));
    if in_reach(pts, hole, qx, m0, p) && seen && (tan.less_spec(s.tan) || (tan.same_spec(s.tan) && (
    best.x.less_spec(a.x) || (a.x.same_spec(best.x) && sector_contains(pts, r, s.m, p))))) {
        Lean { m: p, tan }
    } else {
        s
    }
}

/// The given nodes of the ring compared one after the other; nodes that are not in the ring are
/// passed over.
pub open spec fn lean_over<C: Scalar>(
    pts: Seq<Pt<C>>,
    r: Seq<int>,
    hole: int,
    qx: C,
    m0: int,
    nodes: Seq<int>,
    s: Lean<C>,
) -> Lean<C>
    decreases nodes.len(),
{
    if nodes.len() == 0 {
        s
    } else {
        let t = lean_over(pts, r, hole, qx, m0, nodes.drop_last(), s);
        let p = nodes.last();
        if r.contains(p) {
            lean_node(pts, r, hole, qx, m0, t, p)
        } else {
            t
        }
    }
}

/// No node in the box can lie in the triangle of the hole's node, where the ray met the ring, and
/// the end of the edge met there.
pub open spec fn lean_skips<C: Scalar>(b: BBox<C>, h: Pt<C>, m: Pt<C>) -> bool {
    b.max_x.less_spec(m.x) || h.x.less_spec(b.min_x) || b.max_y.less_spec(h.y.lower_spec(m.y))
        || h.y.upper_spec(m.y).less_spec(b.min_y)
}

/// The nodes in the first `k` blocks of the index compared.
pub open spec fn lean_blocks<C: Scalar>(o: Outline<C>, hole: int, qx: C, m0: int, k: int) -> Lean<C>
    decreases k,
{
    if k <= 0 {
        Lean { m: m0, tan: C::infinity_spec() }
    } else {
        let s = lean_blocks(o, hole, qx, m0, k - 1);
        if lean_skips(o.boxes[k - 1], o.pts[hole], o.pts[m0]) {
            s
        } else {
            lean_over(o.pts, o.ring, hole, qx, m0, o.lists[k - 1], s)
        }
    }
}

/// The nodes of the ring compared: block by block if there is an index, one by one if not.
pub open spec fn lean_best<C: Scalar>(o: Outline<C>, hole: int, qx: C, m0: int) -> Lean<C> {
    if o.boxes.len() == 0 {
        lean_over(
            o.pts,
            o.ring,
            hole,
            qx,
            m0,
            o.ring,
            Lean { m: m0, tan: C::infinity_spec() },
        )
    } else {
        lean_blocks(o, hole, qx, m0, o.boxes.len() as int)
    }
}

/// The node of the ring to which the node `hole` is connected.
pub open spec fn bridge<C: Scalar>(o: Outline<C>, hole: int) -> Option<int> {
    let h = o.pts[hole];
    let ray = ray_cast(o, h.x, h.y);
    if coincide(o.pts, hole, o.ring[0]) {
        Some(o.ring[0])
    } else if ray.done {
        ray.m
    } else {
        match ray.m {
            None => None,
            Some(m0) => Some(lean_best(o, hole, ray.qx, m0).m),
        }
    }
}

// ---------------------------------------------------------------------------------------------
// Merging holes
// ---------------------------------------------------------------------------------------------
/// The ring of `r` and `s`, joined by a bridge between their first nodes, seen from the second of
/// the two nodes that double them, the first of which is number `n`.
pub open spec fn joined(r: Seq<int>, s: Seq<int>, n: int) -> Seq<int> {
    seq![n + 1, n] + turned(r) + s
}

/// The ring seen from the node `h`.
pub open spec fn seen_from(r: Seq<int>, h: int) -> Seq<int> {
    turned_to(r, r.index_of(h))
}

/// The outline with its ring healed.
pub open spec fn healed_outline<C: Scalar>(o: Outline<C>) -> Outline<C> {
    Outline {
        ring: healed(o.pts, o.ring),
        boxes: if o.boxes.len() == 0 {
            o.boxes
        } else {
            healed_boxes(o.pts, o.ring, o.owner, o.boxes)
        },
        ..o
    }
}

/// The outline healed around both edges of a slit: the one from its first node, and the one from
/// the node `b` at its other end. If healing the first edge has dropped `b`, it has dropped what
/// led to it as well; then what is left to heal is the edge at which that ended, unless that was
/// the first edge itself.
pub open spec fn slit_healed<C: Scalar>(o: Outline<C>, b: int) -> Outline<C> {
    let one = healed_outline(o);
    if one.ring.contains(b) {
        healed_outline(Outline { ring: seen_from(one.ring, b), ..one })
    } else if backtracked(o.pts, o.ring).contains(b) {
        healed_outline(one)
    } else {
        one
    }
}

/// The nodes from the node `b` of the outer ring over the joined hole to the two nodes that double
/// them, the first of which is number `n`.
pub open spec fn slit_run(b: int, hole: Seq<int>, n: int) -> Seq<int> {
    seq![b] + hole + seq![n + 1, n]
}

/// The outline with the hole joined to it by a bridge to its node `b`, before healing.
pub open spec fn connected<C: Scalar>(o: Outline<C>, hole: Seq<int>, b: int) -> Outline<C> {
    let n = o.pts.len() as int;
    let r = seen_from(o.ring, b);
    let all = Outline {
        pts: bridged(o.pts, b, hole[0]),
        ring: joined(r, hole, n),
        owner: o.owner.push(0).push(0),
        ..o
    };
    if o.boxes.len() == 0 {
        all
    } else {
        indexed(all, slit_run(b, hole, n), succ(r, 0))
    }
}

/// The outline with a hole merged into it, if there is a node to connect it to.
pub open spec fn merged<C: Scalar>(o: Outline<C>, hole: Seq<int>) -> Outline<C> {
    match bridge(o, hole[0]) {
        None => o,
        Some(b) => slit_healed(connected(o, hole, b), b),
    }
}

/// The outline with the first `k` holes of the queue merged into it.
pub open spec fn merged_all<C: Scalar>(o: Outline<C>, queue: Seq<Seq<int>>, k: int) -> Outline<C>
    decreases k,
{
    if k <= 0 {
        o
    } else {
        merged(merged_all(o, queue, k - 1), queue[k - 1])
    }
}

/// The outer ring before any hole is merged, indexed if there are enough vertices.
pub open spec fn outline<C: Scalar>(pts: Seq<Pt<C>>, ring: Seq<int>, count: int) -> Outline<C> {
    let bare = Outline {
        pts,
        ring,
        boxes: seq![],
        lists: seq![],
        owner: Seq::new(pts.len(), |h: int| 0),
    };
    if count >= BLOCK_INDEX_MIN_NODES {
        indexed(bare, ring, ring[0])
    } else {
        bare
    }
}

/// The table and ring that are left when all holes have been linked into the outer ring.
pub open spec fn without_holes<C: Scalar>(
    l: Listed<C>,
    data: Seq<C>,
    dim: int,
    holes: Seq<usize>,
) -> Listed<C> {
    let q = queued(l.pts, data, dim, holes, holes.len() as int);
    let queue = in_order(q.pts, q.holes);
    let count = data.len() as int / dim;
    let all = merged_all(outline(q.pts, l.ring, count), queue, queue.len() as int);
    Listed { pts: all.pts, ring: swept(all.pts, all.ring, 0) }
}

} // verus!
