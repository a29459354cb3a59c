//! A fresh hole-bridge index changes no bridge.
use vstd::prelude::*;
use crate::covering::{
    box_valued, compare_by, compared, covers, lemma_lean_skips, lemma_run_box, valued,
};
use crate::exact::{fits, whole, Exact};
use crate::exact_areas::{lemma_bounded, lemma_whole, LIMIT};
use crate::exact_polygons::{lemma_plain_less, lemma_plain_ranked, plain_rank, plain_values};
use crate::hole_model::{
    bridge, chunk_count, chunk_start, in_reach, indexed, lean_blocks, lean_node, lean_over,
    lean_skips, outline, ray_blocks, ray_edge, ray_hit, ray_over, ray_skips, ray_start, run_box,
    run_next, Lean, Outline, Ray, BLOCK_INDEX_MIN_NODES, BLOCK_SIZE,
};
use crate::meeting::lemma_whole_ends;
use crate::model::{after, succ, BBox, Pt};
use crate::rings::is_ring;
use crate::scalar::Scalar;
use crate::segments::lemma_signs;

verus! {

// ---------------------------------------------------------------------------------------------
// The order of fractions
// ---------------------------------------------------------------------------------------------
/// The greatest numerator of a fraction that can be compared.
pub(crate) const NUM: i128 = 0x2000_0000_0000_0000;

/// The greatest denominator of a fraction that can be compared.
pub(crate) const DEN: i128 = 0x8000_0000;

/// A fraction of moderate size, or an infinite value.
pub(crate) open spec fn value(c: Exact) -> bool {
    ||| c.den == 0 && (c.num == 1 || c.num == -1)
    ||| 0 < c.den <= DEN && -NUM <= c.num <= NUM
}

/// Comparing two values.
pub(crate) proof fn lemma_order(u: Exact, v: Exact)
    requires
        value(u),
        value(v),
    ensures
        u.at_most_spec(v) <==> !v.less_spec(u),
        u.less_spec(v) ==> !v.less_spec(u),
        u.same_spec(v) <==> !u.less_spec(v) && !v.less_spec(u),
        u.den > 0 && v.den > 0 ==> (u.less_spec(v) <==> u.num * v.den < v.num * u.den),
        u.den == 0 ==> (u.less_spec(v) <==> u.num < 0 && (v.den > 0 || v.num > 0)),
        v.den == 0 ==> (u.less_spec(v) <==> v.num > 0 && (u.den > 0 || u.num < 0)),
{
    lemma_bounded(u.num as int, v.den as int, NUM as int, DEN as int);
    lemma_bounded(v.num as int, u.den as int, NUM as int, DEN as int);
    assert(NUM * DEN <= 0x1000_0000_0000_0000_0000_0000_0000) by (nonlinear_arith)
        requires
            NUM == 0x2000_0000_0000_0000,
            DEN == 0x8000_0000,
    ;
    assert(v.den == 0 ==> u.num * v.den == 0) by (nonlinear_arith);
    assert(u.den == 0 ==> v.num * u.den == 0) by (nonlinear_arith);
    assert(v.den > 0 && u.num == 1 ==> u.num * v.den > 0) by (nonlinear_arith);
    assert(v.den > 0 && u.num == -1 ==> u.num * v.den < 0) by (nonlinear_arith);
    assert(u.den > 0 && v.num == 1 ==> v.num * u.den > 0) by (nonlinear_arith);
    assert(u.den > 0 && v.num == -1 ==> v.num * u.den < 0) by (nonlinear_arith);
}

/// Comparing fractions in turn.
proof fn lemma_turn(an: int, ad: int, bn: int, bd: int, cn: int, cd: int)
    requires
        ad > 0,
        bd > 0,
        cd > 0,
        an * bd <= bn * ad,
        bn * cd <= cn * bd,
    ensures
        an * cd <= cn * ad,
        an * bd < bn * ad || bn * cd < cn * bd ==> an * cd < cn * ad,
{
    let (l, m, r) = ((an * bd) * cd, (bn * ad) * cd, (cn * bd) * ad);
    assert(l <= m && (an * bd < bn * ad ==> l < m)) by (nonlinear_arith)
        requires
            l == (an * bd) * cd,
            m == (bn * ad) * cd,
            an * bd <= bn * ad,
            cd > 0,
    ;
    assert(m == (bn * cd) * ad) by (nonlinear_arith)
        requires
            m == (bn * ad) * cd,
    ;
    assert(m <= r && (bn * cd < cn * bd ==> m < r)) by (nonlinear_arith)
        requires
            m == (bn * cd) * ad,
            r == (cn * bd) * ad,
            bn * cd <= cn * bd,
            ad > 0,
    ;
    assert(l == (an * cd) * bd) by (nonlinear_arith)
        requires
            l == (an * bd) * cd,
    ;
    assert(r == (cn * ad) * bd) by (nonlinear_arith)
        requires
            r == (cn * bd) * ad,
    ;
    assert(an * cd <= cn * ad) by (nonlinear_arith)
        requires
            (an * cd) * bd <= (cn * ad) * bd,
            bd > 0,
    ;
    assert(l < r ==> an * cd < cn * ad) by (nonlinear_arith)
        requires
            l == (an * cd) * bd,
            r == (cn * ad) * bd,
            bd > 0,
    ;
}

/// The order of values is transitive.
pub(crate) proof fn lemma_transitive(u: Exact, v: Exact, w: Exact)
    requires
        value(u),
        value(v),
        value(w),
        !v.less_spec(u),
        !w.less_spec(v),
    ensures
        !w.less_spec(u),
        u.less_spec(v) || v.less_spec(w) ==> u.less_spec(w),
{
    lemma_order(u, v);
    lemma_order(v, u);
    lemma_order(v, w);
    lemma_order(w, v);
    lemma_order(u, w);
    lemma_order(w, u);
    if u.den > 0 && v.den > 0 && w.den > 0 {
        lemma_turn(
            u.num as int,
            u.den as int,
            v.num as int,
            v.den as int,
            w.num as int,
            w.den as int,
        );
    }
}

// ---------------------------------------------------------------------------------------------
// The ray
// ---------------------------------------------------------------------------------------------
/// The coordinates of a node are integers of moderate size.
pub open spec fn moderate_node(p: Pt<Exact>) -> bool {
    &&& p.x.den == 1 && -LIMIT <= p.x.num <= LIMIT
    &&& p.y.den == 1 && -LIMIT <= p.y.num <= LIMIT
}

/// The coordinates of all nodes are integers of moderate size.
pub open spec fn moderate_table(pts: Seq<Pt<Exact>>) -> bool {
    forall|h: int| 0 <= h < pts.len() ==> moderate_node(#[trigger] pts[h])
}

/// Where the line through two nodes is at the height of a point between them.
pub(crate) proof fn lemma_hit(pts: Seq<Pt<Exact>>, hy: Exact, p: int, n: int)
    requires
        moderate_node(pts[p]),
        moderate_node(pts[n]),
        hy.den == 1,
        pts[n].y.num <= hy.num <= pts[p].y.num,
        pts[n].y.num < pts[p].y.num,
    ensures
        ({
            let x = ray_hit(pts, hy, p, n);
            let (a, b) = (pts[p].x, pts[n].x);
            &&& value(x)
            &&& x.den == pts[p].y.num - pts[n].y.num
            &&& x.num == a.num * x.den + (pts[p].y.num - hy.num) * (b.num - a.num)
            &&& value(a) && value(b)
            &&& !x.less_spec(a) || !x.less_spec(b)
            &&& !a.less_spec(x) || !b.less_spec(x)
        }),
{
    let (ax, ay) = (pts[p].x.num as int, pts[p].y.num as int);
    let (bx, by) = (pts[n].x.num as int, pts[n].y.num as int);
    let h = hy.num as int;
    assert(pts[p].x == whole(ax) && pts[p].y == whole(ay) && pts[n].x == whole(bx) && pts[n].y
        == whole(by) && hy == whole(h));
    let (e, f, g) = (h - ay, bx - ax, by - ay);
    lemma_whole(h, ay);
    lemma_whole(bx, ax);
    lemma_whole(by, ay);
    let m = 2 * LIMIT;
    lemma_bounded(e, f, m, m);
    assert(m * m <= 0x8000_0000_0000_0000) by (nonlinear_arith)
        requires
            m == 0x8000_0000,
    ;
    lemma_whole(e, f);
    let top = whole(e).times_spec(whole(f));
    assert(top == whole(e * f));
    let q = top.over_spec(whole(g));
    assert(top.num * whole(g).den == e * f && top.den * whole(g).num == g) by (nonlinear_arith)
        requires
            top.num == e * f,
            top.den == 1,
            whole(g).num == g,
            whole(g).den == 1,
    ;
    assert(q.num == -(e * f) && q.den == -g);
    let x = whole(ax).plus_spec(q);
    let d = -g;
    let t = -e;
    assert(t * f == -(e * f)) by (nonlinear_arith)
        requires
            t == -e,
    ;
    lemma_bounded(ax, d, LIMIT as int, m);
    assert(LIMIT * m <= NUM) by (nonlinear_arith)
        requires
            m == 0x8000_0000,
            LIMIT == 0x4000_0000,
            NUM == 0x2000_0000_0000_0000,
    ;
    assert(whole(ax).num * q.den == ax * d && q.num * whole(ax).den == t * f && whole(ax).den
        * q.den == d) by (nonlinear_arith)
        requires
            whole(ax).num == ax,
            whole(ax).den == 1,
            q.den == d,
            q.num == t * f,
    ;
    let z = ax * d + t * f;
    assert(x == ray_hit(pts, hy, p, n));
    lemma_between(ax, bx, d, t, z);
    assert(-(LIMIT * m) <= z <= LIMIT * m) by {
        lemma_bounded(bx, d, LIMIT as int, m);
    }
    assert(x.num == z && x.den == d);
    lemma_order(x, pts[p].x);
    lemma_order(pts[p].x, x);
    lemma_order(x, pts[n].x);
    lemma_order(pts[n].x, x);
}

/// A point that divides a segment lies between its ends.
pub(crate) proof fn lemma_between(a: int, b: int, d: int, t: int, z: int)
    requires
        0 <= t <= d,
        z == a * d + t * (b - a),
    ensures
        a <= b ==> a * d <= z <= b * d,
        b <= a ==> b * d <= z <= a * d,
{
    let f = b - a;
    assert(b * d == a * d + d * f) by (nonlinear_arith)
        requires
            f == b - a,
    ;
    assert(f >= 0 ==> 0 <= t * f <= d * f) by (nonlinear_arith)
        requires
            0 <= t <= d,
    ;
    assert(f <= 0 ==> d * f <= t * f <= 0) by (nonlinear_arith)
        requires
            0 <= t <= d,
    ;
}

/// What has been met so far can be compared, and is nearer than the start of the ray if the ray
/// goes on.
pub(crate) open spec fn sound(s: Ray<Exact>, hx: Exact) -> bool {
    &&& value(s.qx)
    &&& !s.done ==> s.qx.less_spec(hx)
    &&& !s.done && s.m is Some ==> s.qx.den > 0
}

/// Casting the ray at an edge.
proof fn lemma_edge_sound(
    pts: Seq<Pt<Exact>>,
    hx: Exact,
    hy: Exact,
    s: Ray<Exact>,
    p: int,
    n: int,
)
    requires
        moderate_node(pts[p]),
        moderate_node(pts[n]),
        hx.den == 1 && -LIMIT <= hx.num <= LIMIT,
        hy.den == 1 && -LIMIT <= hy.num <= LIMIT,
        sound(s, hx),
    ensures
        sound(ray_edge(pts, hx, hy, s, p, n), hx),
{
    lemma_order(hy, pts[p].y);
    lemma_order(pts[p].y, hy);
    lemma_order(pts[n].y, hy);
    lemma_order(hy, pts[n].y);
    lemma_order(pts[n].y, pts[p].y);
    lemma_order(pts[p].y, pts[n].y);
    if hy.at_most_spec(pts[p].y) && pts[n].y.at_most_spec(hy) && !pts[n].y.same_spec(pts[p].y) {
        lemma_hit(pts, hy, p, n);
        lemma_order(ray_hit(pts, hy, p, n), hx);
        lemma_order(hx, ray_hit(pts, hy, p, n));
    }
}

/// The box covers both ends of the edge.
pub(crate) open spec fn edge_in(b: BBox<Exact>, p: Pt<Exact>, n: Pt<Exact>) -> bool {
    &&& box_valued(b, plain_values())
    &&& covers(plain_rank(), b, p)
    &&& covers(plain_rank(), b, n)
}

/// The box covers both ends of the edges that start at the nodes.
spec fn edges_in(
    pts: Seq<Pt<Exact>>,
    r: Seq<int>,
    b: BBox<Exact>,
    nodes: Seq<int>,
) -> bool {
    forall|i: int|
        0 <= i < nodes.len() ==> #[trigger] r.contains(nodes[i]) && edge_in(
            b,
            pts[nodes[i]],
            pts[succ(r, r.index_of(nodes[i]))],
        )
}

/// A plain value can be compared.
proof fn lemma_plain_value(c: Exact)
    requires
        plain_values().contains(c),
    ensures
        value(c),
{
}

/// A coordinate is not beyond the sides of a box that covers it.
proof fn lemma_in_sides(low: Exact, c: Exact, high: Exact)
    requires
        plain_values().contains(low),
        plain_values().contains(c),
        plain_values().contains(high),
        plain_rank()(low) <= plain_rank()(c) <= plain_rank()(high),
    ensures
        !c.less_spec(low),
        !high.less_spec(c),
{
    lemma_plain_less(c, low);
    lemma_plain_less(high, c);
}

/// A ray that goes on meets nothing in a box that is passed over.
#[verifier::spinoff_prover]
pub(crate) proof fn lemma_edge_skipped(
    pts: Seq<Pt<Exact>>,
    b: BBox<Exact>,
    hx: Exact,
    hy: Exact,
    s: Ray<Exact>,
    p: int,
    n: int,
)
    requires
        moderate_node(pts[p]),
        moderate_node(pts[n]),
        hx.den == 1 && -LIMIT <= hx.num <= LIMIT,
        hy.den == 1 && -LIMIT <= hy.num <= LIMIT,
        sound(s, hx),
        !s.done,
        edge_in(b, pts[p], pts[n]),
        ray_skips(b, hx, hy, s.qx),
    ensures
        ray_edge(pts, hx, hy, s, p, n) == s,
{
    let (a, c) = (pts[p], pts[n]);
    lemma_in_sides(b.min_x, a.x, b.max_x);
    lemma_in_sides(b.min_x, c.x, b.max_x);
    lemma_in_sides(b.min_y, a.y, b.max_y);
    lemma_in_sides(b.min_y, c.y, b.max_y);
    lemma_plain_value(b.min_x);
    lemma_plain_value(b.min_y);
    lemma_plain_value(b.max_x);
    lemma_plain_value(b.max_y);
    lemma_order(hy, a.y);
    lemma_order(a.y, hy);
    lemma_order(c.y, hy);
    lemma_order(hy, c.y);
    lemma_order(hx, c.x);
    lemma_order(c.y, a.y);
    lemma_order(a.y, c.y);
    if hy.less_spec(b.min_y) {
        lemma_order(hy, b.min_y);
        lemma_transitive(hy, b.min_y, c.y);
    } else if b.max_y.less_spec(hy) {
        lemma_order(b.max_y, hy);
        lemma_transitive(a.y, b.max_y, hy);
        lemma_transitive(c.y, b.max_y, hy);
    } else {
        let hit = hy.at_most_spec(a.y) && c.y.at_most_spec(hy) && !c.y.same_spec(a.y);
        let x = ray_hit(pts, hy, p, n);
        if hit {
            lemma_hit(pts, hy, p, n);
            lemma_order(x, hx);
            lemma_order(hx, x);
        }
        if hx.less_spec(b.min_x) {
            lemma_order(hx, b.min_x);
            lemma_transitive(hx, b.min_x, c.x);
            if hit {
                lemma_transitive(hx, b.min_x, a.x);
                if !x.less_spec(a.x) {
                    lemma_transitive(hx, a.x, x);
                } else {
                    lemma_transitive(hx, c.x, x);
                }
            }
        } else {
            lemma_order(b.max_x, s.qx);
            lemma_order(s.qx, hx);
            lemma_transitive(c.x, b.max_x, s.qx);
            lemma_transitive(c.x, s.qx, hx);
            lemma_order(c.x, hx);
            if hit {
                lemma_transitive(a.x, b.max_x, s.qx);
                if !a.x.less_spec(x) {
                    lemma_transitive(x, a.x, s.qx);
                } else {
                    lemma_transitive(x, c.x, s.qx);
                }
            }
        }
    }
}

/// Casting the ray at edges.
pub(crate) proof fn lemma_over_sound(
    pts: Seq<Pt<Exact>>,
    r: Seq<int>,
    hx: Exact,
    hy: Exact,
    nodes: Seq<int>,
    s: Ray<Exact>,
)
    requires
        moderate_table(pts),
        is_ring(r, pts.len() as int),
        hx.den == 1 && -LIMIT <= hx.num <= LIMIT,
        hy.den == 1 && -LIMIT <= hy.num <= LIMIT,
        sound(s, hx),
    ensures
        sound(ray_over(pts, r, hx, hy, nodes, s), hx),
    decreases nodes.len(),
{
    if nodes.len() > 0 {
        lemma_over_sound(pts, r, hx, hy, nodes.drop_last(), s);
        let t = ray_over(pts, r, hx, hy, nodes.drop_last(), s);
        let p = nodes.last();
        if !t.done && r.contains(p) {
            let i = r.index_of(p);
            assert(r[i] == p && 0 <= i < r.len());
            assert(0 <= r[i] < pts.len());
            let j = after(i, r.len() as int);
            assert(0 <= r[j] < pts.len());
            lemma_edge_sound(pts, hx, hy, t, p, r[j]);
        }
    }
}

/// Casting the ray at edges in two parts.
proof fn lemma_ray_joined(
    pts: Seq<Pt<Exact>>,
    r: Seq<int>,
    hx: Exact,
    hy: Exact,
    a: Seq<int>,
    b: Seq<int>,
    s: Ray<Exact>,
)
    ensures
        ray_over(pts, r, hx, hy, a + b, s) == ray_over(
            pts,
            r,
            hx,
            hy,
            b,
            ray_over(pts, r, hx, hy, a, s),
        ),
    decreases b.len(),
{
    if b.len() == 0 {
        assert(a + b =~= a);
    } else {
        lemma_ray_joined(pts, r, hx, hy, a, b.drop_last(), s);
        assert((a + b).drop_last() =~= a + b.drop_last());
    }
}

/// A ray that has ended, or passes over the box of the edges, meets none of them.
proof fn lemma_over_skipped(
    pts: Seq<Pt<Exact>>,
    r: Seq<int>,
    b: BBox<Exact>,
    hx: Exact,
    hy: Exact,
    nodes: Seq<int>,
    s: Ray<Exact>,
)
    requires
        moderate_table(pts),
        is_ring(r, pts.len() as int),
        hx.den == 1 && -LIMIT <= hx.num <= LIMIT,
        hy.den == 1 && -LIMIT <= hy.num <= LIMIT,
        sound(s, hx),
        s.done || (ray_skips(b, hx, hy, s.qx) && edges_in(pts, r, b, nodes)),
    ensures
        ray_over(pts, r, hx, hy, nodes, s) == s,
    decreases nodes.len(),
{
    if nodes.len() > 0 {
        let first = nodes.drop_last();
        let p = nodes.last();
        if !s.done {
            assert forall|i: int| 0 <= i < first.len() implies #[trigger] r.contains(first[i])
                && edge_in(b, pts[first[i]], pts[succ(r, r.index_of(first[i]))]) by {
                assert(r.contains(nodes[i]));
            }
        }
        lemma_over_skipped(pts, r, b, hx, hy, first, s);
        if !s.done {
            assert(r.contains(nodes[nodes.len() - 1]));
            let i = r.index_of(p);
            assert(r[i] == p && 0 <= i < r.len());
            assert(0 <= r[i] < pts.len());
            let j = after(i, r.len() as int);
            assert(0 <= r[j] < pts.len());
            lemma_edge_skipped(pts, b, hx, hy, s, p, r[j]);
        }
    }
}

// ---------------------------------------------------------------------------------------------
// The blocks of a fresh index
// ---------------------------------------------------------------------------------------------
/// The ring without an index.
pub open spec fn bare<C>(pts: Seq<Pt<C>>, ring: Seq<int>) -> Outline<C> {
    Outline {
        pts,
        ring,
        boxes: seq![],
        lists: seq![],
        owner: Seq::new(pts.len(), |h: int| 0),
    }
}

/// The blocks follow each other, and the last ends where the ring does.
proof fn lemma_chunks(ring: Seq<int>, k: int)
    requires
        0 <= k,
    ensures
        0 <= chunk_start(ring, k) <= chunk_start(ring, k + 1) <= ring.len(),
        chunk_start(ring, 0) == 0,
        chunk_start(ring, chunk_count(ring) as int) == ring.len(),
{
    let n = chunk_count(ring) as int;
    assert(n * BLOCK_SIZE >= ring.len());
}

/// The edges of a block of a fresh index lie in its box.
proof fn lemma_block_edges(pts: Seq<Pt<Exact>>, ring: Seq<int>, k: int)
    requires
        moderate_table(pts),
        is_ring(ring, pts.len() as int),
        ring.len() > 0,
        0 <= k < chunk_count(ring),
    ensures
        ({
            let o = indexed(bare(pts, ring), ring, ring[0]);
            &&& o.lists[k] == ring.subrange(chunk_start(ring, k), chunk_start(ring, k + 1))
            &&& o.boxes.len() == chunk_count(ring)
            &&& edges_in(pts, ring, o.boxes[k], o.lists[k])
        }),
{
    let o = indexed(bare(pts, ring), ring, ring[0]);
    let (from, to) = (chunk_start(ring, k), chunk_start(ring, k + 1));
    lemma_chunks(ring, k);
    assert(o.boxes[k] == run_box(pts, ring, ring[0], from, to));
    lemma_plain_ranked();
    assert(valued(pts, plain_values())) by {
        assert forall|h: int| 0 <= h < pts.len() implies plain_values().contains(
            (#[trigger] pts[h]).x,
        ) && plain_values().contains(pts[h].y) by {
            assert(moderate_node(pts[h]));
        }
    }
    assert(0 <= ring[0] < pts.len());
    lemma_run_box(plain_rank(), plain_values(), pts, ring, ring[0], from, to);
    let nodes = o.lists[k];
    assert forall|i: int| 0 <= i < nodes.len() implies #[trigger] ring.contains(nodes[i]) && edge_in(
        o.boxes[k],
        pts[nodes[i]],
        pts[succ(ring, ring.index_of(nodes[i]))],
    ) by {
        let j = from + i;
        assert(nodes[i] == ring[j]);
        assert(ring.contains(ring[j]));
        assert(ring.index_of(ring[j]) == j);
        assert(run_next(ring, ring[0], j) == succ(ring, j));
    }
}

/// Casting the ray block by block is casting it edge by edge.
proof fn lemma_same_ray(pts: Seq<Pt<Exact>>, ring: Seq<int>, hx: Exact, hy: Exact, k: int)
    requires
        moderate_table(pts),
        is_ring(ring, pts.len() as int),
        ring.len() > 0,
        hx.den == 1 && -LIMIT <= hx.num <= LIMIT,
        hy.den == 1 && -LIMIT <= hy.num <= LIMIT,
        0 <= k <= chunk_count(ring),
    ensures
        ({
            let o = indexed(bare(pts, ring), ring, ring[0]);
            let s = ray_over(
                pts,
                ring,
                hx,
                hy,
                ring.take(chunk_start(ring, k)),
                ray_start(),
            );
            &&& ray_blocks(o, hx, hy, k) == s
            &&& sound(s, hx)
        }),
    decreases k,
{
    let o = indexed(bare(pts, ring), ring, ring[0]);
    lemma_chunks(ring, k);
    let start = ray_start::<Exact>();
    lemma_order(start.qx, hx);
    if k == 0 {
        assert(ring.take(0) =~= Seq::empty());
    } else {
        lemma_chunks(ring, k - 1);
        lemma_same_ray(pts, ring, hx, hy, k - 1);
        lemma_block_edges(pts, ring, k - 1);
        let first = ring.take(chunk_start(ring, k - 1));
        let s = ray_over(pts, ring, hx, hy, first, start);
        assert(ring.take(chunk_start(ring, k)) =~= first + o.lists[k - 1]);
        lemma_ray_joined(pts, ring, hx, hy, first, o.lists[k - 1], start);
        if s.done || ray_skips(o.boxes[k - 1], hx, hy, s.qx) {
            lemma_over_skipped(pts, ring, o.boxes[k - 1], hx, hy, o.lists[k - 1], s);
        }
        lemma_over_sound(pts, ring, hx, hy, o.lists[k - 1], s);
    }
}

// ---------------------------------------------------------------------------------------------
// The nodes in reach
// ---------------------------------------------------------------------------------------------
/// The difference of a fraction and an integer, times an integer, compared.
pub(crate) proof fn lemma_fraction_times(q: Exact, a: int, t: int)
    requires
        0 < q.den <= DEN,
        -NUM <= q.num <= NUM,
        -LIMIT <= a <= LIMIT,
        -2 * LIMIT <= t <= 2 * LIMIT,
    ensures
        ({
            let e = q.num - a * q.den;
            let c = q.minus_spec(whole(a)).times_spec(whole(t));
            &&& c.num == e * t
            &&& c.den == q.den
            &&& -0x2000_0000_0000_0000_0000_0000 <= e * t <= 0x2000_0000_0000_0000_0000_0000
        }),
{
    let w = whole(a);
    lemma_bounded(a, q.den as int, LIMIT as int, DEN as int);
    assert(LIMIT * DEN <= NUM) by (nonlinear_arith)
        requires
            DEN == 0x8000_0000,
            LIMIT == 0x4000_0000,
            NUM == 0x2000_0000_0000_0000,
    ;
    assert(q.num * w.den == q.num && w.num * q.den == a * q.den && q.den * w.den == q.den) by (
    nonlinear_arith)
        requires
            w.num == a,
            w.den == 1,
    ;
    let e = q.num - a * q.den;
    let d = q.minus_spec(w);
    assert(d.num == e && d.den == q.den);
    lemma_bounded(e, t, 2 * NUM, 2 * LIMIT);
    assert((2 * NUM) * (2 * LIMIT) <= 0x2000_0000_0000_0000_0000_0000) by (nonlinear_arith)
        requires
            LIMIT == 0x4000_0000,
            NUM == 0x2000_0000_0000_0000,
    ;
    let v = whole(t);
    assert(d.num * v.num == e * t && d.den * v.den == q.den) by (nonlinear_arith)
        requires
            d.num == e,
            d.den == q.den,
            v.num == t,
            v.den == 1,
    ;
}

/// A fraction and an integer compared.
pub(crate) proof fn lemma_fraction_order(c: Exact, m: int)
    requires
        0 < c.den <= DEN,
        -0x2000_0000_0000_0000_0000_0000 <= c.num <= 0x2000_0000_0000_0000_0000_0000,
        -0x8000_0000_0000_0000 <= m <= 0x8000_0000_0000_0000,
    ensures
        c.at_most_spec(whole(m)) <==> c.num <= m * c.den,
        whole(m).at_most_spec(c) <==> m * c.den <= c.num,
{
    let w = whole(m);
    assert(c.num * w.den == c.num && w.num * c.den == m * c.den) by (nonlinear_arith)
        requires
            w.num == m,
            w.den == 1,
    ;
    lemma_bounded(m, c.den as int, 0x8000_0000_0000_0000, DEN as int);
    assert(0x8000_0000_0000_0000 * DEN <= 0x4000_0000_0000_0000_0000_0000) by (nonlinear_arith)
        requires
            DEN == 0x8000_0000,
    ;
}

/// The product of two differences of integers.
pub(crate) proof fn lemma_product_found(a: int, b: int, c: int, d: int)
    requires
        -LIMIT <= a <= LIMIT,
        -LIMIT <= b <= LIMIT,
        -LIMIT <= c <= LIMIT,
        -LIMIT <= d <= LIMIT,
    ensures
        whole(a).minus_spec(whole(b)).times_spec(whole(c).minus_spec(whole(d))) == whole(
            (a - b) * (c - d),
        ),
        whole(c).minus_spec(whole(d)) == whole(c - d),
        -0x8000_0000_0000_0000 <= (a - b) * (c - d) <= 0x8000_0000_0000_0000,
{
    lemma_whole(a, b);
    lemma_whole(c, d);
    let m = 2 * LIMIT;
    lemma_bounded(a - b, c - d, m, m);
    assert(m * m <= 0x8000_0000_0000_0000) by (nonlinear_arith)
        requires
            m == 0x8000_0000,
    ;
    lemma_whole(a - b, c - d);
}

/// A point in the triangle of the start of a ray, its end, and a corner lies between the ray and
/// the corner in height.
#[verifier::spinoff_prover]
proof fn lemma_reach_height(pts: Seq<Pt<Exact>>, hole: int, qx: Exact, m0: int, p: int)
    requires
        moderate_node(pts[hole]),
        moderate_node(pts[m0]),
        moderate_node(pts[p]),
        value(qx),
        qx.den > 0,
        qx.less_spec(pts[hole].x),
        in_reach(pts, hole, qx, m0, p),
    ensures
        ({
            let (h, m, a) = (pts[hole].y.num, pts[m0].y.num, pts[p].y.num);
            h <= a <= m || m <= a <= h
        }),
{
    let (hx, hy) = (pts[hole].x.num as int, pts[hole].y.num as int);
    let (mx, my) = (pts[m0].x.num as int, pts[m0].y.num as int);
    let (ax, ay) = (pts[p].x.num as int, pts[p].y.num as int);
    assert(pts[hole].x == whole(hx) && pts[hole].y == whole(hy) && pts[m0].x == whole(mx)
        && pts[m0].y == whole(my) && pts[p].x == whole(ax) && pts[p].y == whole(ay));
    let (t, s, f, m) = (hy - ay, my - ay, hx - ax, mx - ax);
    let d = qx.den as int;
    let e = qx.num - ax * d;
    let g = f * d - e;
    lemma_order(qx, pts[hole].x);
    assert(pts[hole].x.num * qx.den == hx * d);
    assert(qx.num * pts[hole].x.den == qx.num);
    assert(f * d == hx * d - ax * d) by (nonlinear_arith)
        requires
            f == hx - ax,
    ;
    assert(g > 0);
    lemma_product_found(hx, ax, hy, ay);
    lemma_product_found(hx, ax, my, ay);
    lemma_product_found(mx, ax, hy, ay);
    lemma_fraction_times(qx, ax, t);
    lemma_fraction_times(qx, ax, s);
    let et = qx.minus_spec(whole(ax)).times_spec(whole(t));
    let es = qx.minus_spec(whole(ax)).times_spec(whole(s));
    lemma_fraction_order(et, f * t);
    lemma_fraction_order(es, m * t);
    lemma_whole_order(m * t, f * s);
    lemma_whole_order(f * s, m * t);
    lemma_fraction_order(es, f * s);
    lemma_whole(hy, my);
    assert((f * t) * d == (g + e) * t) by (nonlinear_arith)
        requires
            g == f * d - e,
    ;
    assert((f * s) * d == (g + e) * s) by (nonlinear_arith)
        requires
            g == f * d - e,
    ;
    assert((g + e) * t == g * t + e * t && (g + e) * s == g * s + e * s) by (nonlinear_arith);
    lemma_signs(g, t);
    lemma_signs(g, s);
    assert(m * t <= f * s ==> (m * t) * d <= (f * s) * d) by (nonlinear_arith)
        requires
            d > 0,
    ;
    assert(f * s <= m * t ==> (f * s) * d <= (m * t) * d) by (nonlinear_arith)
        requires
            d > 0,
    ;
}

/// Two integers compared.
pub(crate) proof fn lemma_whole_order(a: int, b: int)
    requires
        fits(a),
        fits(b),
    ensures
        whole(a).at_most_spec(whole(b)) <==> a <= b,
{
    lemma_whole(a, b);
}

/// Plain values compare as they are ranked.
proof fn lemma_plain_compared()
    ensures
        compared(plain_rank(), plain_values()),
{
    let (rank, values) = (plain_rank(), plain_values());
    assert forall|u: Exact, v: Exact|
        #![trigger u.less_spec(v)]
        values.contains(u) && values.contains(v) implies compare_by(rank, u, v) by {
        lemma_plain_value(u);
        lemma_plain_value(v);
        lemma_plain_less(u, v);
        lemma_plain_less(v, u);
        lemma_order(u, v);
    }
}

/// No node of a box that is passed over is in reach.
pub(crate) proof fn lemma_node_skipped(
    pts: Seq<Pt<Exact>>,
    b: BBox<Exact>,
    hole: int,
    qx: Exact,
    m0: int,
    p: int,
)
    requires
        moderate_node(pts[hole]),
        moderate_node(pts[m0]),
        moderate_node(pts[p]),
        value(qx),
        qx.den > 0,
        qx.less_spec(pts[hole].x),
        box_valued(b, plain_values()),
        covers(plain_rank(), b, pts[p]),
        lean_skips(b, pts[hole], pts[m0]),
    ensures
        !in_reach(pts, hole, qx, m0, p),
{
    let (h, m) = (pts[hole].y.num as int, pts[m0].y.num as int);
    assert(pts[hole].y == whole(h) && pts[m0].y == whole(m));
    lemma_whole_ends(h, m);
    lemma_plain_compared();
    if in_reach(pts, hole, qx, m0, p) {
        lemma_reach_height(pts, hole, qx, m0, p);
    }
    lemma_lean_skips(plain_rank(), plain_values(), pts, b, hole, qx, m0, p);
}

/// Comparing nodes in two parts.
proof fn lemma_lean_joined(
    pts: Seq<Pt<Exact>>,
    r: Seq<int>,
    hole: int,
    qx: Exact,
    m0: int,
    a: Seq<int>,
    b: Seq<int>,
    s: Lean<Exact>,
)
    ensures
        lean_over(pts, r, hole, qx, m0, a + b, s) == lean_over(
            pts,
            r,
            hole,
            qx,
            m0,
            b,
            lean_over(pts, r, hole, qx, m0, a, s),
        ),
    decreases b.len(),
{
    if b.len() == 0 {
        assert(a + b =~= a);
    } else {
        lemma_lean_joined(pts, r, hole, qx, m0, a, b.drop_last(), s);
        assert((a + b).drop_last() =~= a + b.drop_last());
    }
}

/// The nodes of a block that is passed over change nothing.
proof fn lemma_lean_skipped(
    pts: Seq<Pt<Exact>>,
    r: Seq<int>,
    b: BBox<Exact>,
    hole: int,
    qx: Exact,
    m0: int,
    nodes: Seq<int>,
    s: Lean<Exact>,
)
    requires
        moderate_table(pts),
        is_ring(r, pts.len() as int),
        0 <= hole < pts.len(),
        0 <= m0 < pts.len(),
        value(qx),
        qx.den > 0,
        qx.less_spec(pts[hole].x),
        lean_skips(b, pts[hole], pts[m0]),
        edges_in(pts, r, b, nodes),
    ensures
        lean_over(pts, r, hole, qx, m0, nodes, s) == s,
    decreases nodes.len(),
{
    if nodes.len() > 0 {
        let first = nodes.drop_last();
        let p = nodes.last();
        assert forall|i: int| 0 <= i < first.len() implies #[trigger] r.contains(first[i])
            && edge_in(b, pts[first[i]], pts[succ(r, r.index_of(first[i]))]) by {
            assert(r.contains(nodes[i]));
        }
        lemma_lean_skipped(pts, r, b, hole, qx, m0, first, s);
        assert(r.contains(nodes[nodes.len() - 1]));
        let i = r.index_of(p);
        assert(r[i] == p && 0 <= i < r.len());
        assert(0 <= r[i] < pts.len());
        assert(moderate_node(pts[hole]) && moderate_node(pts[m0]) && moderate_node(pts[p]));
        lemma_node_skipped(pts, b, hole, qx, m0, p);
        assert(lean_node(pts, r, hole, qx, m0, s, p) == s);
    }
}

/// Comparing nodes block by block is comparing them one by one.
proof fn lemma_same_lean(
    pts: Seq<Pt<Exact>>,
    ring: Seq<int>,
    hole: int,
    qx: Exact,
    m0: int,
    k: int,
)
    requires
        moderate_table(pts),
        is_ring(ring, pts.len() as int),
        ring.len() > 0,
        0 <= hole < pts.len(),
        0 <= m0 < pts.len(),
        value(qx),
        qx.den > 0,
        qx.less_spec(pts[hole].x),
        0 <= k <= chunk_count(ring),
    ensures
        lean_blocks(indexed(bare(pts, ring), ring, ring[0]), hole, qx, m0, k) == lean_over(
            pts,
            ring,
            hole,
            qx,
            m0,
            ring.take(chunk_start(ring, k)),
            (Lean { m: m0, tan: Exact::infinity_spec() }),
        ),
    decreases k,
{
    let o = indexed(bare(pts, ring), ring, ring[0]);
    let start = Lean { m: m0, tan: Exact::infinity_spec() };
    lemma_chunks(ring, k);
    if k == 0 {
        assert(ring.take(0) =~= Seq::empty());
    } else {
        lemma_chunks(ring, k - 1);
        lemma_same_lean(pts, ring, hole, qx, m0, k - 1);
        lemma_block_edges(pts, ring, k - 1);
        let first = ring.take(chunk_start(ring, k - 1));
        assert(ring.take(chunk_start(ring, k)) =~= first + o.lists[k - 1]);
        lemma_lean_joined(pts, ring, hole, qx, m0, first, o.lists[k - 1], start);
        if lean_skips(o.boxes[k - 1], pts[hole], pts[m0]) {
            let s = lean_over(pts, ring, hole, qx, m0, first, start);
            lemma_lean_skipped(
                pts,
                ring,
                o.boxes[k - 1],
                hole,
                qx,
                m0,
                o.lists[k - 1],
                s,
            );
        }
    }
}

/// What the ray has met is a node of the ring.
proof fn lemma_met_node(
    pts: Seq<Pt<Exact>>,
    r: Seq<int>,
    hx: Exact,
    hy: Exact,
    nodes: Seq<int>,
    s: Ray<Exact>,
)
    requires
        is_ring(r, pts.len() as int),
        s.m matches Some(m) ==> 0 <= m < pts.len(),
    ensures
        ray_over(pts, r, hx, hy, nodes, s).m matches Some(m) ==> 0 <= m < pts.len(),
    decreases nodes.len(),
{
    if nodes.len() > 0 {
        lemma_met_node(pts, r, hx, hy, nodes.drop_last(), s);
        let p = nodes.last();
        if r.contains(p) {
            let i = r.index_of(p);
            assert(r[i] == p && 0 <= i < r.len());
            assert(0 <= r[i] < pts.len());
            assert(0 <= r[after(i, r.len() as int)] < pts.len());
        }
    }
}

/// With a fresh index over a ring with integer coordinates, a hole is connected to the node to
/// which it is connected without an index.
pub proof fn lemma_fresh_index(pts: Seq<Pt<Exact>>, ring: Seq<int>, hole: int, count: int)
    requires
        moderate_table(pts),
        is_ring(ring, pts.len() as int),
        ring.len() > 0,
        0 <= hole < pts.len(),
        count >= BLOCK_INDEX_MIN_NODES,
    ensures
        bridge(outline(pts, ring, count), hole) == bridge(bare(pts, ring), hole),
        outline(pts, ring, 0) == bare(pts, ring),
{
    let o = indexed(bare(pts, ring), ring, ring[0]);
    let b = bare(pts, ring);
    assert(outline(pts, ring, count) == o);
    let n = chunk_count(ring) as int;
    let (hx, hy) = (pts[hole].x, pts[hole].y);
    assert(moderate_node(pts[hole]));
    lemma_chunks(ring, n);
    lemma_same_ray(pts, ring, hx, hy, n);
    assert(ring.take(ring.len() as int) =~= ring);
    assert(n > 0);
    lemma_block_edges(pts, ring, 0);
    let ray = ray_over(pts, ring, hx, hy, ring, ray_start());
    lemma_met_node(pts, ring, hx, hy, ring, ray_start());
    if !ray.done && ray.m is Some {
        lemma_same_lean(pts, ring, hole, ray.qx, ray.m->0, n);
    }
}

} // verus!
