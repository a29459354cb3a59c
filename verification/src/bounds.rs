//! What slicing and merging keep: rings stay within the table of points, vertex indices within
//! the input, and triangles within their number.
use vstd::prelude::*;
use crate::geometry::{hashed, Grid};
use crate::hole_model::{
    bridge, connected, count_between, healed_outline, hole_end, in_order, joined, lean_blocks,
    lean_over, leftmost, listed, merged, merged_all, outline, put_in, queued, ray_blocks, ray_cast,
    ray_over, ray_start, seen_from, without_holes, wound, Lean, Listed, Outline, Ray,
};
use crate::model::{
    after, backtracked, bridged, clippable, clipped, curable, cured, degenerate, dropped_back,
    far_part, first_diagonal, first_split, halved, healed, lemma_backtracked_len, lemma_cured_len,
    lemma_first_split, lemma_healed_len, lemma_swept_len, lemma_uncrossed_len, near_part, sliced,
    succ, swept, triangle, turned, turned_to, uncrossed, z_ranked, Pt,
};
use crate::scalar::Scalar;

verus! {

/// The nodes of a ring are places in a table of `n` points.
pub open spec fn in_table(r: Seq<int>, n: int) -> bool {
    forall|k: int| 0 <= k < r.len() ==> 0 <= #[trigger] r[k] < n
}

/// All vertex indices of the table are below `count`.
pub open spec fn within<C>(pts: Seq<Pt<C>>, count: int) -> bool {
    forall|h: int| 0 <= h < pts.len() ==> (#[trigger] pts[h]).i < count
}

/// All vertex indices of a list are below `count`.
pub open spec fn all_below(tris: Seq<usize>, count: int) -> bool {
    forall|k: int| 0 <= k < tris.len() ==> #[trigger] tris[k] < count
}

// ---------------------------------------------------------------------------------------------
// Slicing
// ---------------------------------------------------------------------------------------------
/// Dropping nodes backwards keeps a ring in the table.
proof fn lemma_backtracked_in<C: Scalar>(pts: Seq<Pt<C>>, r: Seq<int>, n: int)
    requires
        in_table(r, n),
    ensures
        in_table(backtracked(pts, r), n),
    decreases r.len(),
{
    if degenerate(pts, r) {
        let d = dropped_back(r);
        assert forall|k: int| 0 <= k < d.len() implies 0 <= #[trigger] d[k] < n by {
            if k == 0 {
                assert(d[k] == r[r.len() - 1]);
            } else {
                assert(d[k] == r[k]);
            }
        }
        lemma_backtracked_in(pts, d, n);
    }
}

/// Turning keeps a ring in the table.
pub(crate) proof fn lemma_turned_in(r: Seq<int>, n: int)
    requires
        in_table(r, n),
        r.len() > 0,
    ensures
        in_table(turned(r), n),
{
    let t = turned(r);
    assert forall|k: int| 0 <= k < t.len() implies 0 <= #[trigger] t[k] < n by {
        assert(t[k] == r[after(k, r.len() as int)]);
    }
}

/// Healing keeps a ring in the table.
proof fn lemma_healed_in<C: Scalar>(pts: Seq<Pt<C>>, r: Seq<int>, n: int)
    requires
        in_table(r, n),
        r.len() > 0,
    ensures
        in_table(healed(pts, r), n),
{
    lemma_backtracked_len(pts, r);
    lemma_backtracked_in(pts, r, n);
    lemma_turned_in(backtracked(pts, r), n);
    lemma_backtracked_in(pts, turned(backtracked(pts, r)), n);
}

/// Sweeping keeps a ring in the table.
proof fn lemma_swept_in<C: Scalar>(pts: Seq<Pt<C>>, r: Seq<int>, checked: nat, n: int)
    requires
        in_table(r, n),
        r.len() > 0,
    ensures
        in_table(swept(pts, r, checked), n),
    decreases r.len(), r.len() - checked,
{
    lemma_turned_in(r, n);
    if degenerate(pts, r) {
        let d = dropped_back(r);
        assert forall|k: int| 0 <= k < d.len() implies 0 <= #[trigger] d[k] < n by {
            if k == 0 {
                assert(d[k] == r[r.len() - 1]);
            } else {
                assert(d[k] == r[k]);
            }
        }
        lemma_swept_in(pts, d, 0, n);
    } else if checked + 1 >= r.len() {
    } else {
        lemma_swept_in(pts, turned(r), checked + 1, n);
    }
}

/// Curing keeps a ring in the table, and its triangles are of vertices of the table.
proof fn lemma_uncrossed_in<C: Scalar>(
    pts: Seq<Pt<C>>,
    r: Seq<int>,
    passed: nat,
    count: int,
)
    requires
        in_table(r, pts.len() as int),
        within(pts, count),
        r.len() > 0,
    ensures
        in_table(uncrossed(pts, r, passed).ring, pts.len() as int),
        all_below(uncrossed(pts, r, passed).tris, count),
        uncrossed(pts, r, passed).tris.len() % 3 == 0,
    decreases r.len(), r.len() - passed,
{
    let len = r.len() as int;
    lemma_turned_in(r, pts.len() as int);
    if curable(pts, r) {
        let d = r.subrange(3, len).push(r[2]);
        assert forall|k: int| 0 <= k < d.len() implies 0 <= #[trigger] d[k] < pts.len() by {
            if k < len - 3 {
                assert(d[k] == r[k + 3]);
            } else {
                assert(d[k] == r[2]);
            }
        }
        lemma_uncrossed_in(pts, d, 1, count);
        assert(all_below(triangle(pts, r[len - 1], r[0], r[2]), count));
    } else if passed + 1 >= r.len() {
    } else {
        lemma_uncrossed_in(pts, turned(r), passed + 1, count);
    }
}

/// Curing keeps a ring in the table, and its triangles are of vertices of the table.
proof fn lemma_cured_in<C: Scalar>(pts: Seq<Pt<C>>, r: Seq<int>, count: int)
    requires
        in_table(r, pts.len() as int),
        within(pts, count),
        r.len() > 0,
    ensures
        in_table(cured(pts, r).ring, pts.len() as int),
        all_below(cured(pts, r).tris, count),
        cured(pts, r).tris.len() % 3 == 0,
{
    lemma_uncrossed_in(pts, r, 0, count);
    lemma_uncrossed_len(pts, r, 0);
    let u = uncrossed(pts, r, 0);
    if u.tris.len() > 0 {
        lemma_swept_in(pts, u.ring, 0, pts.len() as int);
    }
}

/// From a ring of at most three nodes nothing is cut off.
pub(crate) proof fn lemma_uncrossed_small<C: Scalar>(pts: Seq<Pt<C>>, r: Seq<int>, passed: nat)
    requires
        0 < r.len() <= 3,
    ensures
        uncrossed(pts, r, passed).tris.len() == 0,
    decreases r.len() - passed,
{
    if passed + 1 < r.len() {
        lemma_uncrossed_small(pts, turned(r), passed + 1);
    }
}

/// The ring that is split is in the table.
proof fn lemma_first_split_in<C: Scalar>(pts: Seq<Pt<C>>, r: Seq<int>, left: int, n: int)
    requires
        in_table(r, n),
        r.len() > 0,
    ensures
        first_split(pts, r, left) matches Some((s, j)) ==> in_table(s, n),
    decreases left,
{
    if left > 0 && first_diagonal(pts, r, 2) is None {
        lemma_turned_in(r, n);
        lemma_first_split_in(pts, turned(r), left - 1, n);
    }
}

/// Doubling two nodes adds no vertex.
proof fn lemma_bridged_within<C>(pts: Seq<Pt<C>>, a: int, b: int, count: int)
    requires
        within(pts, count),
        0 <= a < pts.len(),
        0 <= b < pts.len(),
    ensures
        within(bridged(pts, a, b), count),
        bridged(pts, a, b).len() == pts.len() + 2,
{
    let all = bridged(pts, a, b);
    assert(pts[a].i < count && pts[b].i < count);
    assert forall|h: int| 0 <= h < all.len() implies (#[trigger] all[h]).i < count by {
        if h < pts.len() {
            assert(all[h] == pts[h]);
        }
    }
}

/// The triangulation of a ring of `n` nodes has at most `n - 2` triangles, all of vertices of the
/// table, and is complete if it has as many. The table grows only by nodes that double others.
pub proof fn lemma_sliced<C: Scalar>(pts: Seq<Pt<C>>, r: Seq<int>, g: Grid<C>, count: int)
    requires
        in_table(r, pts.len() as int),
        within(pts, count),
        r.len() > 0,
    ensures
        sliced(pts, r, g).tris.len() % 3 == 0,
        r.len() <= 2 ==> sliced(pts, r, g).tris.len() == 0,
        r.len() >= 2 ==> sliced(pts, r, g).tris.len() <= 3 * (r.len() - 2),
        r.len() >= 2 && sliced(pts, r, g).tris.len() == 3 * (r.len() - 2) ==> sliced(
            pts,
            r,
            g,
        ).complete,
        all_below(sliced(pts, r, g).tris, count),
        pts.is_prefix_of(sliced(pts, r, g).pts),
        within(sliced(pts, r, g).pts, count),
    decreases r.len(), 3int, 0int,
{
    let ord = if hashed(g) {
        z_ranked(pts, r, g)
    } else {
        Seq::empty()
    };
    lemma_clipped(pts, r, ord, 0, false, g, count);
}

/// What holds of the triangulation of a ring holds of the triangulation of what is left of it.
pub(crate) proof fn lemma_clipped<C: Scalar>(
    pts: Seq<Pt<C>>,
    r: Seq<int>,
    ord: Seq<int>,
    passed: nat,
    cured_once: bool,
    g: Grid<C>,
    count: int,
)
    requires
        in_table(r, pts.len() as int),
        within(pts, count),
        r.len() > 0,
    ensures
        ({
            let s = clipped(pts, r, ord, passed, cured_once, g);
            &&& s.tris.len() % 3 == 0
            &&& r.len() <= 2 ==> s.tris.len() == 0
            &&& r.len() >= 2 ==> s.tris.len() <= 3 * (r.len() - 2)
            &&& r.len() >= 2 && s.tris.len() == 3 * (r.len() - 2) ==> s.complete
            &&& all_below(s.tris, count)
            &&& pts.is_prefix_of(s.pts)
            &&& within(s.pts, count)
        }),
    decreases
            r.len(),
            (if cured_once {
                1int
            } else {
                2int
            }),
            r.len() - passed,
{
    let n = pts.len() as int;
    if r.len() <= 2 {
    } else if clippable(pts, r, ord, g) {
        let d = r.drop_first();
        assert forall|k: int| 0 <= k < d.len() implies 0 <= #[trigger] d[k] < n by {
            assert(d[k] == r[k + 1]);
        }
        lemma_clipped(pts, d, ord, 0, cured_once, g, count);
        let last = r[r.len() - 1];
        assert(all_below(triangle(pts, r.last(), r[0], r[1]), count)) by {
            assert(0 <= last < n);
        }
    } else if passed + 1 < r.len() {
        lemma_turned_in(r, n);
        lemma_clipped(pts, turned(r), ord, passed + 1, cured_once, g, count);
    } else {
        let t = turned(r);
        let f = swept(pts, t, 0);
        lemma_turned_in(r, n);
        lemma_swept_len(pts, t, 0);
        lemma_swept_in(pts, t, 0, n);
        if f.len() < r.len() {
            lemma_clipped(pts, f, ord, 0, cured_once, g, count);
        } else if !cured_once {
            let c = cured(pts, f);
            lemma_cured_len(pts, f);
            lemma_cured_in(pts, f, count);
            if f.len() <= 3 {
                lemma_uncrossed_small(pts, f, 0);
            }
            lemma_clipped(pts, c.ring, ord, 0, true, g, count);
        } else {
            lemma_halved(pts, f, g, count);
        }
    }
}

/// What holds of the triangulation of a ring holds of the triangulations of its parts.
proof fn lemma_halved<C: Scalar>(pts: Seq<Pt<C>>, r: Seq<int>, g: Grid<C>, count: int)
    requires
        in_table(r, pts.len() as int),
        within(pts, count),
        r.len() > 2,
    ensures
        ({
            let s = halved(pts, r, g);
            &&& s.tris.len() % 3 == 0
            &&& s.tris.len() <= 3 * (r.len() - 2)
            &&& s.tris.len() == 3 * (r.len() - 2) ==> s.complete
            &&& all_below(s.tris, count)
            &&& pts.is_prefix_of(s.pts)
            &&& within(s.pts, count)
        }),
    decreases r.len(), 0int, 0int,
{
    let n = pts.len() as int;
    match first_split(pts, r, r.len() as int) {
        None => {},
        Some((s, j)) => {
            lemma_first_split(pts, r, r.len() as int);
            lemma_first_split_in(pts, r, r.len() as int, n);
            assert(0 <= s[0] < n && 0 <= s[j] < n);
            let all = bridged(pts, s[0], s[j]);
            let near0 = near_part(s, j);
            let far0 = far_part(s, j, n);
            lemma_bridged_within(pts, s[0], s[j], count);
            assert forall|k: int| 0 <= k < near0.len() implies 0 <= #[trigger] near0[k] < n + 2 by {
                if k == 0 {
                    assert(near0[k] == s[0]);
                } else {
                    assert(near0[k] == s[k + j - 1]);
                }
            }
            assert forall|k: int| 0 <= k < far0.len() implies 0 <= #[trigger] far0[k] < n + 2 by {
                if k >= 2 {
                    assert(far0[k] == s[k - 1]);
                }
            }
            lemma_healed_in(all, near0, n + 2);
            lemma_healed_in(all, far0, n + 2);
            lemma_healed_len(all, near0);
            lemma_healed_len(all, far0);
            let near = healed(all, near0);
            let far = healed(all, far0);
            lemma_sliced(all, near, g, count);
            let one = sliced(all, near, g);
            assert(all.len() <= one.pts.len());
            lemma_sliced(one.pts, far, g, count);
            let two = sliced(one.pts, far, g);
            let res = halved(pts, r, g);
            assert(res.tris == one.tris + two.tris && res.pts == two.pts);
            assert(pts.is_prefix_of(all));
            assert(pts.is_prefix_of(two.pts)) by {
                assert forall|h: int| 0 <= h < pts.len() implies pts[h] == two.pts[h] by {
                    assert(pts[h] == all[h]);
                    assert(all[h] == one.pts[h]);
                    assert(one.pts[h] == two.pts[h]);
                }
            }
            assert(one.tris.len() <= 3 * (near.len() - 2) || near.len() <= 2);
            assert(near0.len() == s.len() - j + 1);
            assert(far0.len() == j + 1);
            assert(res.tris.len() <= 3 * (r.len() - 2));
        },
    }
}

// ---------------------------------------------------------------------------------------------
// Merging holes
// ---------------------------------------------------------------------------------------------
/// What a ring cast at the ring finds is a node of the ring.
pub(crate) proof fn lemma_ray_over_in<C: Scalar>(
    pts: Seq<Pt<C>>,
    r: Seq<int>,
    hx: C,
    hy: C,
    nodes: Seq<int>,
    s: Ray<C>,
)
    requires
        s.m matches Some(m) ==> r.contains(m),
    ensures
        ray_over(pts, r, hx, hy, nodes, s).m matches Some(m) ==> r.contains(m),
    decreases nodes.len(),
{
    if nodes.len() > 0 {
        lemma_ray_over_in(pts, r, hx, hy, nodes.drop_last(), s);
        let p = nodes.last();
        if r.contains(p) {
            let k = r.index_of(p);
            assert(0 <= k < r.len() && r[k] == p);
            assert(r.contains(succ(r, k)));
        }
    }
}

/// What a ray cast at blocks finds is a node of the ring.
pub(crate) proof fn lemma_ray_blocks_in<C: Scalar>(o: Outline<C>, hx: C, hy: C, k: int)
    ensures
        ray_blocks(o, hx, hy, k).m matches Some(m) ==> o.ring.contains(m),
    decreases k,
{
    if k > 0 {
        lemma_ray_blocks_in(o, hx, hy, k - 1);
        lemma_ray_over_in(
            o.pts,
            o.ring,
            hx,
            hy,
            o.lists[k - 1],
            ray_blocks(o, hx, hy, k - 1),
        );
    }
}

/// The best of the nodes is a node of the ring.
proof fn lemma_lean_over_in<C: Scalar>(
    pts: Seq<Pt<C>>,
    r: Seq<int>,
    hole: int,
    qx: C,
    m0: int,
    nodes: Seq<int>,
    s: Lean<C>,
)
    requires
        r.contains(s.m),
    ensures
        r.contains(lean_over(pts, r, hole, qx, m0, nodes, s).m),
    decreases nodes.len(),
{
    if nodes.len() > 0 {
        lemma_lean_over_in(pts, r, hole, qx, m0, nodes.drop_last(), s);
    }
}

/// The best of the nodes in blocks is a node of the ring.
proof fn lemma_lean_blocks_in<C: Scalar>(o: Outline<C>, hole: int, qx: C, m0: int, k: int)
    requires
        o.ring.contains(m0),
    ensures
        o.ring.contains(lean_blocks(o, hole, qx, m0, k).m),
    decreases k,
{
    if k > 0 {
        lemma_lean_blocks_in(o, hole, qx, m0, k - 1);
        lemma_lean_over_in(
            o.pts,
            o.ring,
            hole,
            qx,
            m0,
            o.lists[k - 1],
            lean_blocks(o, hole, qx, m0, k - 1),
        );
    }
}

/// A hole is connected to a node of the ring, if to any.
pub proof fn lemma_bridge<C: Scalar>(o: Outline<C>, hole: int)
    requires
        o.ring.len() > 0,
    ensures
        bridge(o, hole) matches Some(b) ==> o.ring.contains(b),
{
    let h = o.pts[hole];
    assert(o.ring.contains(o.ring[0]));
    lemma_ray_over_in(o.pts, o.ring, h.x, h.y, o.ring, ray_start());
    lemma_ray_blocks_in(o, h.x, h.y, o.boxes.len() as int);
    let ray = ray_cast(o, h.x, h.y);
    match ray.m {
        None => {},
        Some(m0) => {
            lemma_lean_over_in(
                o.pts,
                o.ring,
                hole,
                ray.qx,
                m0,
                o.ring,
                Lean { m: m0, tan: C::infinity_spec() },
            );
            lemma_lean_blocks_in(o, hole, ray.qx, m0, o.boxes.len() as int);
        },
    }
}

/// Seeing a ring from one of its nodes keeps it in the table.
pub(crate) proof fn lemma_seen_from_in(r: Seq<int>, h: int, n: int)
    requires
        in_table(r, n),
        r.contains(h),
    ensures
        in_table(seen_from(r, h), n),
        seen_from(r, h).len() == r.len(),
        seen_from(r, h)[0] == h,
{
    let j = r.index_of(h);
    let t = seen_from(r, h);
    assert(0 <= j < r.len() && r[j] == h);
    assert forall|k: int| 0 <= k < t.len() implies 0 <= #[trigger] t[k] < n by {
        if k < r.len() - j {
            assert(t[k] == r[k + j]);
        } else {
            assert(t[k] == r[k + j - r.len()]);
        }
    }
}

/// The outline is in the table, with vertex indices below `count`, and its ring has at most `len`
/// nodes.
pub open spec fn outline_ok<C>(o: Outline<C>, count: int, len: int) -> bool {
    &&& in_table(o.ring, o.pts.len() as int)
    &&& within(o.pts, count)
    &&& 0 < o.ring.len() <= len
}

/// Healing keeps an outline in the table.
proof fn lemma_healed_outline<C: Scalar>(o: Outline<C>, count: int, len: int)
    requires
        outline_ok(o, count, len),
    ensures
        outline_ok(healed_outline(o), count, len),
        healed_outline(o).pts == o.pts,
{
    lemma_healed_in(o.pts, o.ring, o.pts.len() as int);
    lemma_healed_len(o.pts, o.ring);
}

/// Merging a hole keeps the outline in the table and adds at most the hole's nodes and two more.
pub proof fn lemma_merged<C: Scalar>(o: Outline<C>, hole: Seq<int>, count: int, len: int)
    requires
        outline_ok(o, count, len),
        in_table(hole, o.pts.len() as int),
        hole.len() > 0,
    ensures
        outline_ok(merged(o, hole), count, len + hole.len() + 2),
        o.pts.is_prefix_of(merged(o, hole).pts),
{
    let n = o.pts.len() as int;
    lemma_bridge(o, hole[0]);
    match bridge(o, hole[0]) {
        None => {},
        Some(b) => {
            let r = seen_from(o.ring, b);
            let c = connected(o, hole, b);
            lemma_seen_from_in(o.ring, b, n);
            assert(0 <= r[0] < n && 0 <= hole[0] < n);
            lemma_bridged_within(o.pts, b, hole[0], count);
            lemma_turned_in(r, n);
            let t = joined(r, hole, n);
            assert(c.ring == t);
            assert forall|k: int| 0 <= k < t.len() implies 0 <= #[trigger] t[k] < n + 2 by {
                if 2 <= k < r.len() + 2 {
                    assert(t[k] == turned(r)[k - 2]);
                } else if k >= r.len() + 2 {
                    assert(t[k] == hole[k - 2 - r.len()]);
                }
            }
            let more = len + hole.len() + 2;
            assert(outline_ok(c, count, more));
            lemma_healed_outline(c, count, more);
            let one = healed_outline(c);
            lemma_healed_outline(one, count, more);
            if one.ring.contains(b) {
                lemma_seen_from_in(one.ring, b, n + 2);
                lemma_healed_outline(
                    Outline { ring: seen_from(one.ring, b), ..one },
                    count,
                    more,
                );
            }
        },
    }
}

/// The number of nodes of the first `k` rings.
pub open spec fn total_len(q: Seq<Seq<int>>, k: int) -> nat
    decreases k,
{
    if k <= 0 {
        0
    } else {
        total_len(q, k - 1) + q[k - 1].len()
    }
}

/// Merging holes keeps the outline in the table and adds at most their nodes and two more for
/// each.
pub proof fn lemma_merged_all<C: Scalar>(
    o: Outline<C>,
    q: Seq<Seq<int>>,
    k: int,
    count: int,
    len: int,
)
    requires
        outline_ok(o, count, len),
        forall|j: int|
            0 <= j < q.len() ==> in_table(#[trigger] q[j], o.pts.len() as int) && q[j].len() > 0,
        0 <= k <= q.len(),
    ensures
        outline_ok(merged_all(o, q, k), count, len + total_len(q, k) + 2 * k),
        o.pts.is_prefix_of(merged_all(o, q, k).pts),
    decreases k,
{
    if k > 0 {
        lemma_merged_all(o, q, k - 1, count, len);
        let m = merged_all(o, q, k - 1);
        assert(in_table(q[k - 1], o.pts.len() as int));
        assert(o.pts.len() <= m.pts.len());
        lemma_merged(m, q[k - 1], count, len + total_len(q, k - 1) + 2 * (k - 1));
    }
}

/// Reading vertices adds those vertices, in a ring of at most their number.
pub proof fn lemma_listed<C: Scalar>(
    pts: Seq<Pt<C>>,
    data: Seq<C>,
    dim: int,
    from: int,
    to: int,
    clockwise: bool,
    count: int,
)
    requires
        within(pts, count),
        0 <= from,
        to <= count,
        count <= usize::MAX,
    ensures
        ({
            let l = listed(pts, data, dim, from, to, clockwise);
            &&& within(l.pts, count)
            &&& in_table(l.ring, l.pts.len() as int)
            &&& l.ring.len() <= count_between(from, to)
            &&& l.ring.len() == 0 <==> from >= to
            &&& pts.is_prefix_of(l.pts)
        }),
{
    let l = listed(pts, data, dim, from, to, clockwise);
    let more = wound(data, dim, from, to, clockwise);
    assert forall|h: int| 0 <= h < l.pts.len() implies (#[trigger] l.pts[h]).i < count by {
        if h < pts.len() {
            assert(l.pts[h] == pts[h]);
        } else {
            assert(l.pts[h] == more[h - pts.len()]);
        }
    }
}

/// The leftmost node is at a place of the ring.
pub proof fn lemma_leftmost<C: Scalar>(pts: Seq<Pt<C>>, r: Seq<int>, k: int)
    requires
        1 <= k <= r.len(),
    ensures
        0 <= leftmost(pts, r, k) < k,
    decreases k,
{
    if k > 1 {
        lemma_leftmost(pts, r, k - 1);
    }
}

/// The number of vertices in the first `k` holes.
pub open spec fn hole_vertices(holes: Seq<usize>, count: int, k: int) -> nat
    decreases k,
{
    if k <= 0 {
        0
    } else {
        hole_vertices(holes, count, k - 1) + count_between(
            holes[k - 1] as int,
            hole_end(holes, count, k - 1),
        )
    }
}

/// Reading holes adds their vertices.
pub proof fn lemma_queued<C: Scalar>(
    pts: Seq<Pt<C>>,
    data: Seq<C>,
    dim: int,
    holes: Seq<usize>,
    k: int,
    count: int,
)
    requires
        within(pts, count),
        count == data.len() as int / dim,
        count <= usize::MAX,
        forall|i: int| 0 <= i < holes.len() ==> #[trigger] holes[i] <= count,
        0 <= k <= holes.len(),
    ensures
        ({
            let q = queued(pts, data, dim, holes, k);
            &&& within(q.pts, count)
            &&& pts.len() <= q.pts.len()
            &&& q.holes.len() <= k
            &&& forall|j: int|
                0 <= j < q.holes.len() ==> in_table(#[trigger] q.holes[j], q.pts.len() as int)
                    && q.holes[j].len() > 0
            &&& total_len(q.holes, q.holes.len() as int) <= hole_vertices(holes, count, k)
        }),
    decreases k,
{
    if k > 0 {
        lemma_queued(pts, data, dim, holes, k - 1, count);
        let q = queued(pts, data, dim, holes, k - 1);
        let from = holes[k - 1] as int;
        let to = hole_end(holes, count, k - 1);
        let l = listed(q.pts, data, dim, from, to, false);
        lemma_listed(q.pts, data, dim, from, to, false, count);
        let next = queued(pts, data, dim, holes, k);
        if l.ring.len() > 0 {
            assert(0 <= l.ring[0] < l.pts.len());
            if l.ring.len() > 1 {
                let at = leftmost(l.pts, l.ring, l.ring.len() as int);
                lemma_leftmost(l.pts, l.ring, l.ring.len() as int);
                let s = turned_to(l.ring, at);
                assert forall|i: int| 0 <= i < s.len() implies 0 <= #[trigger] s[i]
                    < l.pts.len() by {
                    if i < l.ring.len() - at {
                        assert(s[i] == l.ring[i + at]);
                    } else {
                        assert(s[i] == l.ring[i + at - l.ring.len()]);
                    }
                }
            }
            let m = q.holes.len() as int;
            assert forall|j: int| 0 <= j < next.holes.len() implies in_table(
                #[trigger] next.holes[j],
                next.pts.len() as int,
            ) && next.holes[j].len() > 0 by {
                if j < m {
                    assert(next.holes[j] == q.holes[j]);
                    assert(in_table(q.holes[j], q.pts.len() as int));
                }
            }
            lemma_total_prefix(q.holes, next.holes, m);
            assert forall|h: int| 0 <= h < next.pts.len() implies (#[trigger] next.pts[h]).i
                < count by {
                assert(l.pts[h].i < count);
            }
        }
    }
}

/// The number of nodes of the first rings depends on those only.
proof fn lemma_total_prefix(q: Seq<Seq<int>>, s: Seq<Seq<int>>, k: int)
    requires
        0 <= k <= q.len(),
        k <= s.len(),
        forall|j: int| 0 <= j < k ==> q[j] == #[trigger] s[j],
    ensures
        total_len(q, k) == total_len(s, k),
    decreases k,
{
    if k > 0 {
        lemma_total_prefix(q, s, k - 1);
        assert(q[k - 1] == s[k - 1]);
    }
}

/// Putting a hole in its place changes no length and brings in no other hole.
proof fn lemma_put_in_ok<C: Scalar>(pts: Seq<Pt<C>>, q: Seq<Seq<int>>, hole: Seq<int>, n: int)
    requires
        forall|j: int| 0 <= j < q.len() ==> in_table(#[trigger] q[j], n) && q[j].len() > 0,
        in_table(hole, n),
        hole.len() > 0,
    ensures
        ({
            let s = put_in(pts, q, hole);
            &&& s.len() == q.len() + 1
            &&& forall|j: int| 0 <= j < s.len() ==> in_table(#[trigger] s[j], n) && s[j].len() > 0
            &&& total_len(s, s.len() as int) == total_len(q, q.len() as int) + hole.len()
        }),
    decreases q.len(),
{
    let s = put_in(pts, q, hole);
    let d = q.drop_last();
    if q.len() > 0 && crate::hole_model::comes_after(pts, q.last(), hole) {
        assert forall|j: int| 0 <= j < d.len() implies in_table(#[trigger] d[j], n) && d[j].len()
            > 0 by {
            assert(d[j] == q[j]);
        }
        lemma_put_in_ok(pts, d, hole, n);
        let p = put_in(pts, d, hole);
        lemma_total_prefix(p, s, p.len() as int);
        lemma_total_prefix(d, q, d.len() as int);
        assert(in_table(q[q.len() - 1], n) && q[q.len() - 1].len() > 0);
        assert forall|j: int| 0 <= j < s.len() implies in_table(#[trigger] s[j], n) && s[j].len()
            > 0 by {
            if j < p.len() {
                assert(s[j] == p[j]);
            } else {
                assert(s[j] == q[q.len() - 1]);
            }
        }
    } else {
        lemma_total_prefix(q, s, q.len() as int);
        assert forall|j: int| 0 <= j < s.len() implies in_table(#[trigger] s[j], n) && s[j].len()
            > 0 by {
            if j < q.len() {
                assert(s[j] == q[j]);
            }
        }
    }
}

/// Putting holes in order changes no length and brings in no other hole.
pub(crate) proof fn lemma_in_order_ok<C: Scalar>(pts: Seq<Pt<C>>, q: Seq<Seq<int>>, n: int)
    requires
        forall|j: int| 0 <= j < q.len() ==> in_table(#[trigger] q[j], n) && q[j].len() > 0,
    ensures
        ({
            let s = in_order(pts, q);
            &&& s.len() == q.len()
            &&& forall|j: int| 0 <= j < s.len() ==> in_table(#[trigger] s[j], n) && s[j].len() > 0
            &&& total_len(s, s.len() as int) == total_len(q, q.len() as int)
        }),
    decreases q.len(),
{
    if q.len() > 0 {
        let d = q.drop_last();
        assert forall|j: int| 0 <= j < d.len() implies in_table(#[trigger] d[j], n) && d[j].len()
            > 0 by {
            assert(d[j] == q[j]);
        }
        lemma_in_order_ok(pts, d, n);
        assert(in_table(q[q.len() - 1], n) && q[q.len() - 1].len() > 0);
        lemma_put_in_ok(pts, in_order(pts, d), q.last(), n);
        lemma_total_prefix(d, q, d.len() as int);
    }
}

/// Linking the holes into the outer ring keeps it in the table and adds at most their vertices
/// and two more nodes for each.
pub proof fn lemma_without_holes<C: Scalar>(
    l: Listed<C>,
    data: Seq<C>,
    dim: int,
    holes: Seq<usize>,
    count: int,
)
    requires
        within(l.pts, count),
        in_table(l.ring, l.pts.len() as int),
        l.ring.len() > 0,
        count == data.len() as int / dim,
        count <= usize::MAX,
        forall|i: int| 0 <= i < holes.len() ==> #[trigger] holes[i] <= count,
    ensures
        ({
            let w = without_holes(l, data, dim, holes);
            &&& within(w.pts, count)
            &&& in_table(w.ring, w.pts.len() as int)
            &&& 0 < w.ring.len() <= l.ring.len() + hole_vertices(holes, count, holes.len() as int)
                + 2 * holes.len()
        }),
{
    let q = queued(l.pts, data, dim, holes, holes.len() as int);
    lemma_queued(l.pts, data, dim, holes, holes.len() as int, count);
    let s = in_order(q.pts, q.holes);
    let n = q.pts.len() as int;
    lemma_in_order_ok(q.pts, q.holes, n);
    let o = outline(q.pts, l.ring, count);
    assert(outline_ok(o, count, l.ring.len() as int)) by {
        assert(o.ring == l.ring && o.pts == q.pts);
        assert forall|k: int| 0 <= k < o.ring.len() implies 0 <= #[trigger] o.ring[k] < n by {
            assert(0 <= l.ring[k] < l.pts.len());
        }
    }
    lemma_merged_all(o, s, s.len() as int, count, l.ring.len() as int);
    let all = merged_all(o, s, s.len() as int);
    lemma_swept_len(all.pts, all.ring, 0);
    lemma_swept_in(all.pts, all.ring, 0, all.pts.len() as int);
}

} // verus!
