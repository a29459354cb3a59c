//! Rings stay rings of distinct nodes of the table.
use vstd::prelude::*;
use crate::bounds::{in_table, lemma_bridge, lemma_leftmost};
use crate::hole_model::{
    bridge, closed_ring, comes_after, connected, healed_outline, in_order, joined, leftmost, listed,
    merged, merged_all, outline, put_in, queued, seen_from, without_holes, Listed, Outline,
};
use crate::model::{
    after, backtracked, curable, degenerate, dropped_back, far_part, first_diagonal, first_split,
    healed, near_part, swept, turned, turned_to, uncrossed, Pt,
};
use crate::scalar::Scalar;

verus! {

/// A ring of distinct nodes of a table of `n` points.
pub open spec fn is_ring(r: Seq<int>, n: int) -> bool {
    &&& r.len() > 0
    &&& r.no_duplicates()
    &&& in_table(r, n)
}

/// A turned ring is a ring of the same nodes.
pub(crate) proof fn lemma_turned_ring(r: Seq<int>, n: int)
    requires
        is_ring(r, n),
    ensures
        is_ring(turned(r), n),
        forall|h: int| #[trigger] turned(r).contains(h) ==> r.contains(h),
{
    let t = turned(r);
    let len = r.len() as int;
    assert forall|k: int| 0 <= k < len implies #[trigger] t[k] == r[after(k, len)] by {}
    assert forall|i: int, k: int| 0 <= i < len && 0 <= k < len && i != k implies t[i] != t[k] by {
        assert(t[i] == r[after(i, len)] && t[k] == r[after(k, len)]);
    }
    assert forall|k: int| 0 <= k < t.len() implies 0 <= #[trigger] t[k] < n by {
        assert(t[k] == r[after(k, len)]);
    }
    assert forall|h: int| #[trigger] t.contains(h) implies r.contains(h) by {
        let k = choose|k: int| 0 <= k < len && t[k] == h;
        assert(r[after(k, len)] == h);
    }
}

/// A ring without its first node is a ring of nodes of the ring.
pub(crate) proof fn lemma_dropped_ring(r: Seq<int>, n: int)
    requires
        is_ring(r, n),
        r.len() >= 2,
    ensures
        is_ring(r.drop_first(), n),
        is_ring(dropped_back(r), n),
        forall|h: int| #[trigger] r.drop_first().contains(h) ==> r.contains(h),
        forall|h: int| #[trigger] dropped_back(r).contains(h) ==> r.contains(h),
{
    let len = r.len() as int;
    let d = r.drop_first();
    let b = dropped_back(r);
    assert forall|k: int| 0 <= k < len - 1 implies #[trigger] d[k] == r[k + 1] by {}
    assert forall|k: int| 0 <= k < len - 1 implies #[trigger] b[k] == (if k == 0 {
        r[len - 1]
    } else {
        r[k]
    }) by {}
    assert forall|k: int| 0 <= k < d.len() implies 0 <= #[trigger] d[k] < n by {
        assert(0 <= r[k + 1] < n);
    }
    assert forall|k: int| 0 <= k < b.len() implies 0 <= #[trigger] b[k] < n by {
        assert(0 <= r[len - 1] < n && 0 <= r[k] < n);
    }
    assert forall|h: int| #[trigger] d.contains(h) implies r.contains(h) by {
        let k = choose|k: int| 0 <= k < len - 1 && d[k] == h;
        assert(r[k + 1] == h);
    }
    assert forall|h: int| #[trigger] b.contains(h) implies r.contains(h) by {
        let k = choose|k: int| 0 <= k < len - 1 && b[k] == h;
        assert(r[len - 1] == h || r[k] == h);
    }
}

/// A swept ring is a ring of nodes of the ring.
pub(crate) proof fn lemma_swept_ring<C: Scalar>(pts: Seq<Pt<C>>, r: Seq<int>, checked: nat, n: int)
    requires
        is_ring(r, n),
    ensures
        is_ring(swept(pts, r, checked), n),
        forall|h: int| #[trigger] swept(pts, r, checked).contains(h) ==> r.contains(h),
    decreases r.len(), r.len() - checked,
{
    lemma_turned_ring(r, n);
    if degenerate(pts, r) {
        lemma_dropped_ring(r, n);
        lemma_swept_ring(pts, dropped_back(r), 0, n);
    } else if checked + 1 >= r.len() {
    } else {
        lemma_swept_ring(pts, turned(r), checked + 1, n);
    }
}

/// A ring with nodes dropped backwards is a ring of nodes of the ring.
pub(crate) proof fn lemma_backtracked_ring<C: Scalar>(pts: Seq<Pt<C>>, r: Seq<int>, n: int)
    requires
        is_ring(r, n),
    ensures
        is_ring(backtracked(pts, r), n),
    decreases r.len(),
{
    if degenerate(pts, r) {
        lemma_dropped_ring(r, n);
        lemma_backtracked_ring(pts, dropped_back(r), n);
    }
}

/// A healed ring is a ring.
pub(crate) proof fn lemma_healed_ring<C: Scalar>(pts: Seq<Pt<C>>, r: Seq<int>, n: int)
    requires
        is_ring(r, n),
    ensures
        is_ring(healed(pts, r), n),
{
    lemma_backtracked_ring(pts, r, n);
    lemma_turned_ring(backtracked(pts, r), n);
    lemma_backtracked_ring(pts, turned(backtracked(pts, r)), n);
}

/// A cured ring is a ring of nodes of the ring.
pub(crate) proof fn lemma_uncrossed_ring<C: Scalar>(
    pts: Seq<Pt<C>>,
    r: Seq<int>,
    passed: nat,
    n: int,
)
    requires
        is_ring(r, n),
    ensures
        is_ring(uncrossed(pts, r, passed).ring, n),
        forall|h: int| #[trigger]
            uncrossed(pts, r, passed).ring.contains(h) ==> r.contains(h),
    decreases r.len(), r.len() - passed,
{
    let len = r.len() as int;
    lemma_turned_ring(r, n);
    if curable(pts, r) {
        let d = r.subrange(3, len).push(r[2]);
        assert forall|k: int| 0 <= k < len - 2 implies #[trigger] d[k] == (if k < len - 3 {
            r[k + 3]
        } else {
            r[2]
        }) by {}
        assert forall|k: int| 0 <= k < d.len() implies 0 <= #[trigger] d[k] < n by {
            assert(0 <= r[2] < n);
            if k < len - 3 {
                assert(0 <= r[k + 3] < n);
            }
        }
        assert forall|h: int| #[trigger] d.contains(h) implies r.contains(h) by {
            let k = choose|k: int| 0 <= k < len - 2 && d[k] == h;
            assert(r[k + 3] == h || r[2] == h);
        }
        lemma_uncrossed_ring(pts, d, 1, n);
    } else if passed + 1 >= r.len() {
    } else {
        lemma_uncrossed_ring(pts, turned(r), passed + 1, n);
    }
}

/// The parts of a ring that is split are rings.
pub(crate) proof fn lemma_parts_rings(r: Seq<int>, j: int, n: int)
    requires
        is_ring(r, n),
        2 <= j < r.len() - 1,
    ensures
        is_ring(near_part(r, j), n + 2),
        is_ring(far_part(r, j, n), n + 2),
{
    let near = near_part(r, j);
    let far = far_part(r, j, n);
    assert forall|k: int| 0 <= k < near.len() implies 0 <= #[trigger] near[k] < n && near[k]
        == r[if k == 0 {
        0
    } else {
        k + j - 1
    }] by {
        if k > 0 {
            assert(0 <= r[k + j - 1] < n);
        } else {
            assert(0 <= r[0] < n);
        }
    }
    assert forall|i: int, k: int| 0 <= i < near.len() && 0 <= k < near.len() && i != k implies near[i]
        != near[k] by {}
    assert forall|k: int| 2 <= k < far.len() implies 0 <= #[trigger] far[k] < n && far[k] == r[k
        - 1] by {
        assert(0 <= r[k - 1] < n);
    }
    assert forall|i: int, k: int| 0 <= i < far.len() && 0 <= k < far.len() && i != k implies far[i]
        != far[k] by {}
}

/// A split is of a ring.
pub(crate) proof fn lemma_first_split_ring<C: Scalar>(
    pts: Seq<Pt<C>>,
    r: Seq<int>,
    left: int,
    n: int,
)
    requires
        is_ring(r, n),
    ensures
        first_split(pts, r, left) matches Some((s, j)) ==> is_ring(s, n) && (forall|h: int|
            #[trigger] s.contains(h) ==> r.contains(h)),
    decreases left,
{
    if left > 0 && first_diagonal(pts, r, 2) is None {
        lemma_turned_ring(r, n);
        lemma_first_split_ring(pts, turned(r), left - 1, n);
    }
}

/// The ring and the hole have no node in common.
pub open spec fn apart_from(r: Seq<int>, hole: Seq<int>) -> bool {
    forall|h: int| #[trigger] hole.contains(h) ==> !r.contains(h)
}

/// Rings that are apart are joined to a ring.
pub(crate) proof fn lemma_joined_ring(r: Seq<int>, hole: Seq<int>, n: int)
    requires
        is_ring(r, n),
        is_ring(hole, n),
        forall|h: int| #[trigger] hole.contains(h) ==> !r.contains(h),
    ensures
        is_ring(joined(r, hole, n), n + 2),
{
    let t = joined(r, hole, n);
    let len = r.len() as int;
    let m = hole.len() as int;
    assert forall|k: int| 0 <= k < len implies #[trigger] t[k + 2] == r[after(k, len)] by {}
    assert forall|k: int| 0 <= k < m implies #[trigger] t[k + 2 + len] == hole[k] by {}
    assert forall|k: int| 0 <= k < t.len() implies 0 <= #[trigger] t[k] < n + 2 && (2 <= k < len + 2
        ==> t[k] == r[after(k - 2, len)] && t[k] < n) && (k >= len + 2 ==> t[k] == hole[k - 2 - len]
        && t[k] < n) by {
        if 2 <= k < len + 2 {
            assert(t[(k - 2) + 2] == r[after(k - 2, len)]);
            assert(0 <= r[after(k - 2, len)] < n);
        } else if k >= len + 2 {
            assert(t[(k - 2 - len) + 2 + len] == hole[k - 2 - len]);
            assert(0 <= hole[k - 2 - len] < n);
        }
    }
    assert forall|i: int, k: int| 0 <= i < t.len() && 0 <= k < t.len() && i != k implies t[i]
        != t[k] by {
        assert(t[i] == t[i] && t[k] == t[k]);
        if 2 <= i < len + 2 {
            assert(r.contains(t[i]));
        } else if i >= len + 2 {
            assert(hole.contains(t[i]));
        }
        if 2 <= k < len + 2 {
            assert(r.contains(t[k]));
        } else if k >= len + 2 {
            assert(hole.contains(t[k]));
        }
    }
}

/// Healing brings in no node.
pub(crate) proof fn lemma_healed_nodes<C: Scalar>(pts: Seq<Pt<C>>, r: Seq<int>, n: int)
    requires
        is_ring(r, n),
    ensures
        forall|h: int| #[trigger] healed(pts, r).contains(h) ==> r.contains(h),
{
    lemma_backtracked_nodes(pts, r, n);
    let b = backtracked(pts, r);
    lemma_backtracked_ring(pts, r, n);
    lemma_turned_ring(b, n);
    lemma_backtracked_nodes(pts, turned(b), n);
}

/// Dropping nodes backwards brings in no node.
pub(crate) proof fn lemma_backtracked_nodes<C: Scalar>(pts: Seq<Pt<C>>, r: Seq<int>, n: int)
    requires
        is_ring(r, n),
    ensures
        forall|h: int| #[trigger] backtracked(pts, r).contains(h) ==> r.contains(h),
    decreases r.len(),
{
    if degenerate(pts, r) {
        lemma_dropped_ring(r, n);
        lemma_backtracked_nodes(pts, dropped_back(r), n);
        assert(backtracked(pts, r) == backtracked(pts, dropped_back(r)));
        assert forall|h: int| #[trigger] backtracked(pts, r).contains(h) implies r.contains(h) by {
            assert(dropped_back(r).contains(h));
        }
    }
}

/// Seeing a ring from one of its nodes keeps it a ring of the same nodes.
pub(crate) proof fn lemma_turned_to_ring(r: Seq<int>, j: int, n: int)
    requires
        is_ring(r, n),
        0 <= j <= r.len(),
    ensures
        is_ring(turned_to(r, j), n),
        forall|h: int| #[trigger] turned_to(r, j).contains(h) ==> r.contains(h),
    decreases j,
{
    if j == 0 {
        assert(turned_to(r, 0) =~= r);
    } else {
        lemma_turned_to_ring(r, j - 1, n);
        lemma_turned_ring(turned_to(r, j - 1), n);
        assert(turned(turned_to(r, j - 1)) =~= turned_to(r, j));
        assert forall|h: int| #[trigger] turned_to(r, j).contains(h) implies r.contains(h) by {
            assert(turned_to(r, j - 1).contains(h));
        }
    }
}

/// Merging a hole keeps the ring a ring, and brings in no nodes but those of the hole and two more.
pub proof fn lemma_merged_ring<C: Scalar>(o: Outline<C>, hole: Seq<int>)
    requires
        is_ring(o.ring, o.pts.len() as int),
        is_ring(hole, o.pts.len() as int),
        apart_from(o.ring, hole),
    ensures
        is_ring(merged(o, hole).ring, merged(o, hole).pts.len() as int),
        o.pts.len() <= merged(o, hole).pts.len(),
        forall|h: int| #[trigger]
            merged(o, hole).ring.contains(h) && h < o.pts.len() ==> o.ring.contains(h)
                || hole.contains(h),
{
    let n = o.pts.len() as int;
    lemma_bridge(o, hole[0]);
    match bridge(o, hole[0]) {
        None => {},
        Some(b) => {
            let at = o.ring.index_of(b);
            assert(0 <= at < o.ring.len() && o.ring[at] == b);
            let r = seen_from(o.ring, b);
            lemma_turned_to_ring(o.ring, at, n);
            let t = joined(r, hole, n);
            let c = connected(o, hole, b);
            let len = r.len() as int;
            assert forall|h: int| #[trigger] hole.contains(h) implies !r.contains(h) by {
                assert(!o.ring.contains(h));
            }
            lemma_joined_ring(r, hole, n);
            assert(c.ring == t && c.pts.len() == n + 2);
            assert forall|h: int| #[trigger] t.contains(h) && h < n implies o.ring.contains(h)
                || hole.contains(h) by {
                let k = choose|k: int| 0 <= k < t.len() && t[k] == h;
                if 2 <= k < len + 2 {
                    assert(turned(r)[k - 2] == h);
                    assert(r[after(k - 2, len)] == h);
                    assert(r.contains(h));
                } else if k >= len + 2 {
                    assert(hole[k - 2 - len] == h);
                }
            }
            lemma_healed_ring(c.pts, c.ring, n + 2);
            lemma_healed_nodes(c.pts, c.ring, n + 2);
            let one = healed_outline(c);
            lemma_healed_ring(one.pts, one.ring, n + 2);
            lemma_healed_nodes(one.pts, one.ring, n + 2);
            if one.ring.contains(b) {
                let i = one.ring.index_of(b);
                assert(0 <= i < one.ring.len() && one.ring[i] == b);
                lemma_turned_to_ring(one.ring, i, n + 2);
                let two = seen_from(one.ring, b);
                lemma_healed_ring(one.pts, two, n + 2);
                lemma_healed_nodes(one.pts, two, n + 2);
            }
        },
    }
}

/// The holes are rings, apart from each other and from the outer ring.
pub open spec fn rings_apart(ring: Seq<int>, q: Seq<Seq<int>>, n: int) -> bool {
    &&& forall|j: int| 0 <= j < q.len() ==> is_ring(#[trigger] q[j], n) && apart_from(ring, q[j])
    &&& forall|i: int, j: int|
        0 <= i < q.len() && 0 <= j < q.len() && i != j ==> apart_from(
            #[trigger] q[i],
            #[trigger] q[j],
        )
}

/// Merging holes keeps the ring a ring.
pub proof fn lemma_merged_all_ring<C: Scalar>(o: Outline<C>, q: Seq<Seq<int>>, k: int)
    requires
        is_ring(o.ring, o.pts.len() as int),
        rings_apart(o.ring, q, o.pts.len() as int),
        0 <= k <= q.len(),
    ensures
        ({
            let m = merged_all(o, q, k);
            &&& is_ring(m.ring, m.pts.len() as int)
            &&& o.pts.len() <= m.pts.len()
            &&& forall|j: int| k <= j < q.len() ==> apart_from(m.ring, #[trigger] q[j])
        }),
    decreases k,
{
    let n = o.pts.len() as int;
    if k > 0 {
        lemma_merged_all_ring(o, q, k - 1);
        let m = merged_all(o, q, k - 1);
        let hole = q[k - 1];
        assert(is_ring(hole, n));
        assert forall|i: int| 0 <= i < hole.len() implies 0 <= #[trigger] hole[i]
            < m.pts.len() by {}
        lemma_merged_ring(m, hole);
        let next = merged(m, hole);
        assert forall|j: int| k <= j < q.len() implies apart_from(next.ring, #[trigger] q[j]) by {
            assert(is_ring(q[j], n));
            assert(apart_from(m.ring, q[j]));
            assert(apart_from(q[k - 1], q[j]));
            assert forall|h: int| #[trigger] q[j].contains(h) implies !next.ring.contains(h) by {
                let i = choose|i: int| 0 <= i < q[j].len() && q[j][i] == h;
                assert(0 <= q[j][i] < n);
                assert(!m.ring.contains(h) && !hole.contains(h));
            }
        }
    }
}

/// A ring read from the data is a ring of new nodes.
pub(crate) proof fn lemma_listed_ring<C: Scalar>(
    pts: Seq<Pt<C>>,
    data: Seq<C>,
    dim: int,
    from: int,
    to: int,
    clockwise: bool,
)
    requires
        from < to,
    ensures
        ({
            let l = listed(pts, data, dim, from, to, clockwise);
            &&& is_ring(l.ring, l.pts.len() as int)
            &&& forall|h: int| #[trigger] l.ring.contains(h) ==> h >= pts.len()
            &&& pts.len() <= l.pts.len()
        }),
{
    let l = listed(pts, data, dim, from, to, clockwise);
    let n = pts.len() as int;
    let r = closed_ring(l.pts, n);
    assert(l.ring == r);
    assert forall|k: int| 0 <= k < r.len() implies n <= #[trigger] r[k] < l.pts.len() by {}
    assert(r.no_duplicates());
}

/// Putting a hole in its place keeps the holes apart.
proof fn lemma_put_in_apart<C: Scalar>(
    pts: Seq<Pt<C>>,
    ring: Seq<int>,
    q: Seq<Seq<int>>,
    hole: Seq<int>,
    n: int,
)
    requires
        rings_apart(ring, q, n),
        is_ring(hole, n),
        apart_from(ring, hole),
        forall|j: int|
            0 <= j < q.len() ==> apart_from(#[trigger] q[j], hole) && apart_from(hole, q[j]),
    ensures
        rings_apart(ring, put_in(pts, q, hole), n),
        forall|x: Seq<int>| #[trigger]
            put_in(pts, q, hole).contains(x) ==> x == hole || q.contains(x),
    decreases q.len(),
{
    let s = put_in(pts, q, hole);
    let m = q.len() as int;
    if m > 0 && comes_after(pts, q.last(), hole) {
        let d = q.drop_last();
        let last = q[m - 1];
        assert forall|j: int| 0 <= j < d.len() implies is_ring(#[trigger] d[j], n) && apart_from(
            ring,
            d[j],
        ) && apart_from(d[j], hole) && apart_from(hole, d[j]) by {
            assert(d[j] == q[j]);
        }
        assert forall|i: int, j: int|
            0 <= i < d.len() && 0 <= j < d.len() && i != j implies apart_from(
            #[trigger] d[i],
            #[trigger] d[j],
        ) by {
            assert(d[i] == q[i] && d[j] == q[j]);
        }
        lemma_put_in_apart(pts, ring, d, hole, n);
        let p = put_in(pts, d, hole);
        assert(s == p.push(last));
        assert forall|i: int| 0 <= i < p.len() implies apart_from(#[trigger] p[i], last)
            && apart_from(last, p[i]) by {
            assert(p.contains(p[i]));
            if p[i] != hole {
                let k = choose|k: int| 0 <= k < d.len() && d[k] == p[i];
                assert(q[k] == p[i]);
                assert(apart_from(q[k], q[m - 1]) && apart_from(q[m - 1], q[k]));
            }
        }
        assert forall|j: int| 0 <= j < s.len() implies is_ring(#[trigger] s[j], n) && apart_from(
            ring,
            s[j],
        ) by {
            if j < p.len() {
                assert(s[j] == p[j]);
            } else {
                assert(s[j] == q[m - 1]);
            }
        }
        assert forall|i: int, j: int|
            0 <= i < s.len() && 0 <= j < s.len() && i != j implies apart_from(
            #[trigger] s[i],
            #[trigger] s[j],
        ) by {
            if i < p.len() && j < p.len() {
                assert(s[i] == p[i] && s[j] == p[j]);
            } else if i < p.len() {
                assert(s[i] == p[i] && s[j] == last);
            } else {
                assert(s[j] == p[j] && s[i] == last);
            }
        }
        assert forall|x: Seq<int>| #[trigger] s.contains(x) implies x == hole || q.contains(x) by {
            let i = choose|i: int| 0 <= i < s.len() && s[i] == x;
            if i < p.len() {
                assert(p[i] == x);
                assert(p.contains(x));
                if x != hole {
                    let k = choose|k: int| 0 <= k < d.len() && d[k] == x;
                    assert(q[k] == x);
                }
            } else {
                assert(q[m - 1] == x);
            }
        }
    } else {
        assert forall|j: int| 0 <= j < s.len() implies is_ring(#[trigger] s[j], n) && apart_from(
            ring,
            s[j],
        ) by {
            if j < m {
                assert(s[j] == q[j]);
            }
        }
        assert forall|i: int, j: int|
            0 <= i < s.len() && 0 <= j < s.len() && i != j implies apart_from(
            #[trigger] s[i],
            #[trigger] s[j],
        ) by {
            if i < m {
                assert(s[i] == q[i]);
            }
            if j < m {
                assert(s[j] == q[j]);
            }
        }
        assert forall|x: Seq<int>| #[trigger] s.contains(x) implies x == hole || q.contains(x) by {
            let i = choose|i: int| 0 <= i < s.len() && s[i] == x;
            if i < m {
                assert(q[i] == x);
            }
        }
    }
}

/// Putting holes in order keeps them apart.
pub(crate) proof fn lemma_in_order_apart<C: Scalar>(
    pts: Seq<Pt<C>>,
    ring: Seq<int>,
    q: Seq<Seq<int>>,
    n: int,
)
    requires
        rings_apart(ring, q, n),
    ensures
        rings_apart(ring, in_order(pts, q), n),
        forall|x: Seq<int>| #[trigger] in_order(pts, q).contains(x) ==> q.contains(x),
    decreases q.len(),
{
    let m = q.len() as int;
    if m > 0 {
        let d = q.drop_last();
        assert forall|j: int| 0 <= j < d.len() implies is_ring(#[trigger] d[j], n) && apart_from(
            ring,
            d[j],
        ) by {
            assert(d[j] == q[j]);
        }
        assert forall|i: int, j: int|
            0 <= i < d.len() && 0 <= j < d.len() && i != j implies apart_from(
            #[trigger] d[i],
            #[trigger] d[j],
        ) by {
            assert(d[i] == q[i] && d[j] == q[j]);
        }
        lemma_in_order_apart(pts, ring, d, n);
        let p = in_order(pts, d);
        let hole = q[m - 1];
        assert forall|j: int| 0 <= j < p.len() implies apart_from(#[trigger] p[j], hole)
            && apart_from(hole, p[j]) by {
            assert(p.contains(p[j]));
            let k = choose|k: int| 0 <= k < d.len() && d[k] == p[j];
            assert(q[k] == p[j]);
            assert(apart_from(q[k], q[m - 1]) && apart_from(q[m - 1], q[k]));
        }
        assert(is_ring(hole, n) && apart_from(ring, hole));
        lemma_put_in_apart(pts, ring, p, hole, n);
        assert forall|x: Seq<int>| #[trigger] in_order(pts, q).contains(x) implies q.contains(
            x,
        ) by {
            if x == hole {
                assert(q[m - 1] == x);
            } else {
                assert(p.contains(x));
                let k = choose|k: int| 0 <= k < d.len() && d[k] == x;
                assert(q[k] == x);
            }
        }
    }
}

/// The holes that are read are rings of new nodes, apart from each other.
pub(crate) proof fn lemma_queued_rings<C: Scalar>(
    pts: Seq<Pt<C>>,
    data: Seq<C>,
    dim: int,
    holes: Seq<usize>,
    k: int,
    ring: Seq<int>,
)
    requires
        in_table(ring, pts.len() as int),
        0 <= k <= holes.len(),
    ensures
        ({
            let q = queued(pts, data, dim, holes, k);
            &&& rings_apart(ring, q.holes, q.pts.len() as int)
            &&& pts.len() <= q.pts.len()
        }),
    decreases k,
{
    if k > 0 {
        lemma_queued_rings(pts, data, dim, holes, k - 1, ring);
        let q = queued(pts, data, dim, holes, k - 1);
        let from = holes[k - 1] as int;
        let to = crate::hole_model::hole_end(holes, data.len() as int / dim, k - 1);
        let l = listed(q.pts, data, dim, from, to, false);
        let next = queued(pts, data, dim, holes, k);
        if l.ring.len() > 0 {
            assert(from < to);
            lemma_listed_ring(q.pts, data, dim, from, to, false);
            let n = q.pts.len() as int;
            let m = q.holes.len() as int;
            let at = leftmost(l.pts, l.ring, l.ring.len() as int);
            lemma_leftmost(l.pts, l.ring, l.ring.len() as int);
            lemma_turned_to_ring(l.ring, at, l.pts.len() as int);
            let s = next.holes[m];
            assert(next.holes == q.holes.push(s));
            assert(next.pts.len() == l.pts.len());
            assert(is_ring(s, next.pts.len() as int));
            assert forall|h: int| #[trigger] s.contains(h) implies h >= n by {
                assert(l.ring.contains(h));
            }
            assert forall|j: int| 0 <= j < next.holes.len() implies is_ring(
                #[trigger] next.holes[j],
                next.pts.len() as int,
            ) && apart_from(ring, next.holes[j]) by {
                if j < m {
                    assert(next.holes[j] == q.holes[j]);
                    let x = q.holes[j];
                    assert(is_ring(x, n));
                    assert forall|i: int| 0 <= i < x.len() implies 0 <= #[trigger] x[i]
                        < next.pts.len() by {}
                } else {
                    assert forall|h: int| #[trigger] s.contains(h) implies !ring.contains(h) by {
                        if ring.contains(h) {
                            let i = choose|i: int| 0 <= i < ring.len() && ring[i] == h;
                            assert(0 <= ring[i] < pts.len());
                        }
                    }
                }
            }
            assert forall|i: int| 0 <= i < m implies apart_from(#[trigger] q.holes[i], s)
                && apart_from(s, q.holes[i]) by {
                let x = q.holes[i];
                assert(is_ring(x, n));
                assert forall|h: int| #[trigger] x.contains(h) implies h < n by {
                    let e = choose|e: int| 0 <= e < x.len() && x[e] == h;
                    assert(0 <= x[e] < n);
                }
            }
            assert forall|i: int, j: int|
                0 <= i < next.holes.len() && 0 <= j < next.holes.len() && i != j implies apart_from(
                #[trigger] next.holes[i],
                #[trigger] next.holes[j],
            ) by {
                if i < m && j < m {
                    assert(next.holes[i] == q.holes[i] && next.holes[j] == q.holes[j]);
                } else if i < m {
                    assert(next.holes[i] == q.holes[i]);
                } else {
                    assert(next.holes[j] == q.holes[j]);
                }
            }
        }
    }
}

/// Linking the holes into the outer ring gives a ring.
pub proof fn lemma_without_holes_ring<C: Scalar>(
    l: Listed<C>,
    data: Seq<C>,
    dim: int,
    holes: Seq<usize>,
)
    requires
        is_ring(l.ring, l.pts.len() as int),
    ensures
        ({
            let w = without_holes(l, data, dim, holes);
            is_ring(w.ring, w.pts.len() as int)
        }),
{
    let q = queued(l.pts, data, dim, holes, holes.len() as int);
    let n = q.pts.len() as int;
    lemma_queued_rings(l.pts, data, dim, holes, holes.len() as int, l.ring);
    lemma_in_order_apart(q.pts, l.ring, q.holes, n);
    let s = in_order(q.pts, q.holes);
    let o = outline(q.pts, l.ring, data.len() as int / dim);
    assert(o.ring == l.ring && o.pts == q.pts);
    assert forall|k: int| 0 <= k < l.ring.len() implies 0 <= #[trigger] l.ring[k] < n by {}
    lemma_merged_all_ring(o, s, s.len() as int);
    let all = merged_all(o, s, s.len() as int);
    lemma_swept_ring(all.pts, all.ring, 0, all.pts.len() as int);
}

} // verus!
