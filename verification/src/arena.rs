//! The nodes of the rings, linked in a table.
use vstd::prelude::*;
use crate::hole_model::joined;
use crate::model::{
    after, before, bridged, dropped_back, far_part, grown_box, near_part, pred, succ, turned,
    turned_to, BBox, Pt,
};
use crate::scalar::Scalar;

verus! {

/// Link value for "no node".
pub(crate) const NULL: usize = usize::MAX;

/// A vertex in a ring.
pub(crate) struct Node<C> {
    /// Vertex index in the input coordinates array.
    pub i: usize,
    /// Whether the node stands for a hole of a single point.
    pub steiner: bool,
    /// z-order curve value.
    pub z: i32,
    /// Block of the hole-bridge index that owns the node.
    pub block: usize,
    pub x: C,
    pub y: C,
    /// Previous and next nodes in a polygon ring.
    pub prev: usize,
    pub next: usize,
    /// Previous and next nodes in z-order (`NULL` if none).
    pub prev_z: usize,
    pub next_z: usize,
}

impl<C: Copy> Clone for Node<C> {
    fn clone(&self) -> (r: Self)
        ensures
            r == *self,
    {
        *self
    }
}

impl<C: Copy> Copy for Node<C> {

}

impl<C> Node<C> {
    pub(crate) open spec fn pt(self) -> Pt<C> {
        Pt { i: self.i, steiner: self.steiner, x: self.x, y: self.y }
    }

    fn new(i: usize, x: C, y: C) -> (n: Self)
        ensures
            n.pt() == (Pt { i, steiner: false, x, y }),
            n.prev_z == NULL,
            n.next_z == NULL,
            n.block == 0,
    {
        Node {
            i,
            steiner: false,
            z: 0,
            block: 0,
            x,
            y,
            prev: NULL,
            next: NULL,
            prev_z: NULL,
            next_z: NULL,
        }
    }
}

/// The table of nodes backing the rings, with the hole-bridge index and the buffers that are
/// kept between triangulations.
pub(crate) struct Arena<C> {
    pub nodes: Vec<Node<C>>,
    /// Set whenever a node is dropped from a ring as degenerate.
    pub filtered_out: bool,
    /// Bounding box of each block of the hole-bridge index.
    pub block_bbox: Vec<BBox<C>>,
    /// The nodes that the blocks own, block by block.
    pub block_nodes: Vec<usize>,
    /// Where each block's nodes start in `block_nodes`, and where the last one's end.
    pub block_start: Vec<usize>,
    /// True while holes are merged and the index is in use, so that dropping a node keeps the
    /// boxes covering the healed edge.
    pub index_active: bool,
    pub z_order_buf: Vec<(i32, usize)>,
    pub z_order_scratch: Vec<(i32, usize)>,
}

/// The node `p` has been taken out of the z-order: its neighbours there are linked past it, and no
/// other link in z-order differs.
pub(crate) open spec fn z_bypassed<C>(old: Seq<Node<C>>, new: Seq<Node<C>>, p: int) -> bool {
    &&& new.len() == old.len()
    &&& forall|h: int|
        #![trigger new[h]]
        0 <= h < old.len() ==> new[h].prev_z == (if h == old[p].next_z {
            old[p].prev_z
        } else {
            old[h].prev_z
        }) && new[h].next_z == (if h == old[p].prev_z {
            old[p].next_z
        } else {
            old[h].next_z
        })
}

/// What the nodes stand for.
pub(crate) open spec fn points<C>(nodes: Seq<Node<C>>) -> Seq<Pt<C>> {
    Seq::new(nodes.len(), |h: int| nodes[h].pt())
}

/// The node at place `k` of the ring is linked to its neighbours.
pub(crate) open spec fn linked_at<C>(nodes: Seq<Node<C>>, r: Seq<int>, k: int) -> bool {
    &&& 0 <= r[k] < nodes.len()
    &&& nodes[r[k]].next == succ(r, k)
    &&& nodes[r[k]].prev == pred(r, k)
}

/// The nodes of `r` are linked in a ring.
pub(crate) open spec fn ring_ok<C>(nodes: Seq<Node<C>>, r: Seq<int>) -> bool {
    &&& r.len() > 0
    &&& r.no_duplicates()
    &&& forall|k: int| 0 <= k < r.len() ==> #[trigger] linked_at(nodes, r, k)
}

/// The neighbours of the first node of the ring have been linked to each other, and no other
/// ring link has changed.
pub(crate) open spec fn unlinked<C>(old: Seq<Node<C>>, new: Seq<Node<C>>, r: Seq<int>) -> bool {
    &&& new.len() == old.len()
    &&& forall|h: int|
        #![trigger new[h]]
        0 <= h < old.len() ==> new[h].prev == (if h == r[1] {
            r.last()
        } else {
            old[h].prev as int
        }) && new[h].next == (if h == r.last() {
            r[1]
        } else {
            old[h].next as int
        })
}

/// All z-order links lead to nodes of the table.
pub(crate) open spec fn z_in_bounds<C>(nodes: Seq<Node<C>>) -> bool {
    forall|h: int|
        #![trigger nodes[h]]
        0 <= h < nodes.len() ==> (nodes[h].prev_z == NULL || nodes[h].prev_z < nodes.len()) && (
        nodes[h].next_z == NULL || nodes[h].next_z < nodes.len())
}

/// The points of the table are kept, and the ring links of all nodes outside `r`.
pub(crate) open spec fn kept<C>(old: Seq<Node<C>>, new: Seq<Node<C>>, r: Seq<int>) -> bool {
    &&& new.len() >= old.len()
    &&& forall|h: int|
        #![trigger new[h]]
        #![trigger old[h]]
        0 <= h < old.len() ==> new[h].pt() == old[h].pt() && (!r.contains(h) ==> new[h].prev
            == old[h].prev && new[h].next == old[h].next)
}

/// The z-order values and block numbers of all nodes are kept.
pub(crate) open spec fn labels_kept<C>(old: Seq<Node<C>>, new: Seq<Node<C>>) -> bool {
    &&& new.len() == old.len()
    &&& forall|h: int|
        #![trigger new[h]]
        #![trigger old[h]]
        0 <= h < old.len() ==> new[h].z == old[h].z && new[h].block == old[h].block
}

/// The block of the hole-bridge index that owns each node.
pub(crate) open spec fn owners<C>(nodes: Seq<Node<C>>) -> Seq<int> {
    Seq::new(nodes.len(), |h: int| nodes[h].block as int)
}

/// No node has been owned by a block of the hole-bridge index yet.
pub(crate) open spec fn unowned<C>(nodes: Seq<Node<C>>) -> bool {
    forall|h: int| 0 <= h < nodes.len() ==> #[trigger] nodes[h].block == 0
}

/// The node has been taken out of its ring: the node before it no longer leads to it.
pub(crate) open spec fn dead<C>(nodes: Seq<Node<C>>, h: int) -> bool {
    nodes[h].prev < nodes.len() && nodes[nodes[h].prev as int].next != h
}

/// `j` and `k` are neighbours among the live places of `ord`.
pub(crate) open spec fn neighbours(ord: Seq<int>, live: Set<int>, j: int, k: int) -> bool {
    &&& 0 <= j < k < ord.len()
    &&& live.contains(ord[j])
    &&& live.contains(ord[k])
    &&& forall|m: int| j < m < k ==> !live.contains(#[trigger] ord[m])
}

/// `k` is the lowest live place of `ord`.
pub(crate) open spec fn lowest(ord: Seq<int>, live: Set<int>, k: int) -> bool {
    &&& 0 <= k < ord.len()
    &&& live.contains(ord[k])
    &&& forall|m: int| 0 <= m < k ==> !live.contains(#[trigger] ord[m])
}

/// `k` is the highest live place of `ord`.
pub(crate) open spec fn highest(ord: Seq<int>, live: Set<int>, k: int) -> bool {
    &&& 0 <= k < ord.len()
    &&& live.contains(ord[k])
    &&& forall|m: int| k < m < ord.len() ==> !live.contains(#[trigger] ord[m])
}

/// The live nodes of `ord` are linked in that order.
pub(crate) open spec fn z_linked<C>(nodes: Seq<Node<C>>, ord: Seq<int>, live: Set<int>) -> bool {
    &&& ord.no_duplicates()
    &&& forall|k: int| 0 <= k < ord.len() ==> 0 <= #[trigger] ord[k] < nodes.len()
    &&& forall|j: int, k: int| #[trigger]
        neighbours(ord, live, j, k) ==> nodes[ord[k]].prev_z == ord[j] && nodes[ord[j]].next_z
            == ord[k]
    &&& forall|k: int| #[trigger] lowest(ord, live, k) ==> nodes[ord[k]].prev_z == NULL
    &&& forall|k: int| #[trigger] highest(ord, live, k) ==> nodes[ord[k]].next_z == NULL
}

// ---------------------------------------------------------------------------------------------
// Rings
// ---------------------------------------------------------------------------------------------
/// The node at place `k` of a ring, and both its neighbours, are linked.
pub(crate) proof fn lemma_at<C>(nodes: Seq<Node<C>>, r: Seq<int>, k: int)
    requires
        ring_ok(nodes, r),
        0 <= k < r.len(),
    ensures
        linked_at(nodes, r, k),
        0 <= succ(r, k) < nodes.len(),
        0 <= pred(r, k) < nodes.len(),
{
    assert(linked_at(nodes, r, k));
    assert(linked_at(nodes, r, after(k, r.len() as int)));
    assert(linked_at(nodes, r, before(k, r.len() as int)));
}

/// A ring is a ring from its next node too.
pub(crate) proof fn lemma_turned<C>(nodes: Seq<Node<C>>, r: Seq<int>)
    requires
        ring_ok(nodes, r),
    ensures
        ring_ok(nodes, turned(r)),
        turned(r).to_set() == r.to_set(),
{
    let t = turned(r);
    let n = r.len() as int;
    assert forall|k: int| 0 <= k < n implies #[trigger] linked_at(nodes, t, k) by {
        lemma_at(nodes, r, after(k, n));
        assert(t[k] == r[after(k, n)]);
    }
    lemma_same_nodes(r, t);
}

/// Turning keeps the nodes of a ring.
pub(crate) proof fn lemma_same_nodes(r: Seq<int>, t: Seq<int>)
    requires
        r.len() > 0,
        t == turned(r),
    ensures
        t.to_set() == r.to_set(),
        r.no_duplicates() ==> t.no_duplicates(),
{
    let n = r.len() as int;
    assert forall|x: int| r.contains(x) implies t.contains(x) by {
        let k = choose|k: int| 0 <= k < n && r[k] == x;
        assert(t[before(k, n)] == x);
    }
    assert forall|x: int| t.contains(x) implies r.contains(x) by {
        let k = choose|k: int| 0 <= k < n && t[k] == x;
        assert(r[after(k, n)] == x);
    }
    assert(t.to_set() =~= r.to_set());
}

/// A ring is a ring from any of its nodes.
pub(crate) proof fn lemma_turned_to<C>(nodes: Seq<Node<C>>, r: Seq<int>, j: int)
    requires
        ring_ok(nodes, r),
        0 <= j <= r.len(),
    ensures
        ring_ok(nodes, turned_to(r, j)),
        turned_to(r, j).to_set() == r.to_set(),
    decreases j,
{
    if j == 0 {
        assert(turned_to(r, 0) =~= r);
    } else {
        lemma_turned_to(nodes, r, j - 1);
        lemma_turned(nodes, turned_to(r, j - 1));
        assert(turned(turned_to(r, j - 1)) =~= turned_to(r, j));
    }
}

/// A ring whose links are untouched stays a ring.
pub(crate) proof fn lemma_ring_frame<C>(
    old: Seq<Node<C>>,
    new: Seq<Node<C>>,
    touched: Seq<int>,
    r: Seq<int>,
)
    requires
        ring_ok(old, r),
        kept(old, new, touched),
        r.to_set().disjoint(touched.to_set()),
    ensures
        ring_ok(new, r),
{
    assert forall|k: int| 0 <= k < r.len() implies #[trigger] linked_at(new, r, k) by {
        assert(linked_at(old, r, k));
        assert(r.to_set().contains(r[k]));
        assert(!touched.to_set().contains(r[k]));
    }
}

/// Keeping composes.
pub(crate) proof fn lemma_kept_trans<C>(
    a: Seq<Node<C>>,
    b: Seq<Node<C>>,
    c: Seq<Node<C>>,
    r: Seq<int>,
    s: Seq<int>,
)
    requires
        kept(a, b, r),
        kept(b, c, s),
        forall|h: int| 0 <= h < a.len() && #[trigger] s.contains(h) ==> r.contains(h),
    ensures
        kept(a, c, r),
{
    assert forall|h: int| #![trigger c[h]] 0 <= h < a.len() implies c[h].pt() == a[h].pt() && (
    !r.contains(h) ==> c[h].prev == a[h].prev && c[h].next == a[h].next) by {
        assert(b[h].pt() == a[h].pt());
        assert(c[h].pt() == b[h].pt());
    }
}

/// Only the nodes of the touched ring matter.
pub(crate) proof fn lemma_kept_same<C>(
    a: Seq<Node<C>>,
    b: Seq<Node<C>>,
    r: Seq<int>,
    s: Seq<int>,
)
    requires
        kept(a, b, r),
        forall|h: int| #[trigger] r.contains(h) ==> s.contains(h),
    ensures
        kept(a, b, s),
{
}

/// The neighbours of the first node, linked to each other, make a ring without it.
pub(crate) proof fn lemma_unlinked<C>(old: Seq<Node<C>>, new: Seq<Node<C>>, r: Seq<int>)
    requires
        ring_ok(old, r),
        r.len() >= 2,
        unlinked(old, new, r),
    ensures
        ring_ok(new, r.drop_first()),
        ring_ok(new, dropped_back(r)),
{
    let n = r.len() as int;
    let d = r.drop_first();
    assert forall|k: int| 0 <= k < n - 1 implies #[trigger] linked_at(new, d, k) by {
        assert(linked_at(old, r, k + 1));
        assert(d[k] == r[k + 1]);
        assert(r[1] == d[0] && r.last() == d[n - 2]);
    }
    lemma_turned_to(new, d, n - 2);
    assert(turned_to(d, n - 2) =~= dropped_back(r));
}

/// The nodes that are left when the first is dropped.
pub(crate) proof fn lemma_dropped_nodes(r: Seq<int>)
    requires
        r.len() >= 2,
        r.no_duplicates(),
    ensures
        r.drop_first().to_set() == r.to_set().remove(r[0]),
        dropped_back(r).to_set() == r.to_set().remove(r[0]),
        dropped_back(r).no_duplicates(),
{
    let n = r.len() as int;
    let d = r.drop_first();
    let b = dropped_back(r);
    assert forall|x: int| r.contains(x) && x != r[0] implies d.contains(x) && b.contains(x) by {
        let k = choose|k: int| 0 <= k < n && r[k] == x;
        assert(d[k - 1] == x);
        if k == n - 1 {
            assert(b[0] == x);
        } else {
            assert(b[k] == x);
        }
    }
    assert forall|x: int| d.contains(x) implies r.contains(x) && x != r[0] by {
        let k = choose|k: int| 0 <= k < n - 1 && d[k] == x;
        assert(r[k + 1] == x);
    }
    assert forall|x: int| b.contains(x) implies r.contains(x) && x != r[0] by {
        let k = choose|k: int| 0 <= k < n - 1 && b[k] == x;
        if k == 0 {
            assert(r[n - 1] == x);
        } else {
            assert(r[k] == x);
        }
    }
    assert(d.to_set() =~= r.to_set().remove(r[0]));
    assert(b.to_set() =~= r.to_set().remove(r[0]));
}

// ---------------------------------------------------------------------------------------------
// z-order links
// ---------------------------------------------------------------------------------------------
/// The next live place above `k`, searched from `from` on.
pub(crate) proof fn lemma_next_live(ord: Seq<int>, live: Set<int>, k: int, from: int) -> (m: int)
    requires
        0 <= k < from <= ord.len(),
        live.contains(ord[k]),
        forall|i: int| k < i < from ==> !live.contains(#[trigger] ord[i]),
    ensures
        k < m <= ord.len(),
        m < ord.len() ==> neighbours(ord, live, k, m),
        m >= ord.len() ==> highest(ord, live, k),
    decreases ord.len() - from,
{
    if from == ord.len() {
        from
    } else if live.contains(ord[from]) {
        from
    } else {
        lemma_next_live(ord, live, k, from + 1)
    }
}

/// The next live place below `k`, searched from `from` down.
pub(crate) proof fn lemma_prev_live(ord: Seq<int>, live: Set<int>, k: int, from: int) -> (m: int)
    requires
        -1 <= from < k < ord.len(),
        live.contains(ord[k]),
        forall|i: int| from < i < k ==> !live.contains(#[trigger] ord[i]),
    ensures
        -1 <= m < k,
        m >= 0 ==> neighbours(ord, live, m, k),
        m < 0 ==> lowest(ord, live, k),
    decreases from + 1,
{
    if from < 0 {
        from
    } else if live.contains(ord[from]) {
        from
    } else {
        lemma_prev_live(ord, live, k, from - 1)
    }
}

/// Linking the z-order neighbours of a node to each other takes it out of the z-order.
pub(crate) proof fn lemma_z_unlinked<C>(
    old: Seq<Node<C>>,
    new: Seq<Node<C>>,
    ord: Seq<int>,
    live: Set<int>,
    k0: int,
)
    requires
        z_linked(old, ord, live),
        0 <= k0 < ord.len(),
        live.contains(ord[k0]),
        old.len() <= NULL,
        new.len() == old.len(),
        forall|h: int|
            #![trigger new[h]]
            0 <= h < old.len() ==> new[h].prev_z == (if h == old[ord[k0]].next_z {
                old[ord[k0]].prev_z
            } else {
                old[h].prev_z
            }) && new[h].next_z == (if h == old[ord[k0]].prev_z {
                old[ord[k0]].next_z
            } else {
                old[h].next_z
            }),
    ensures
        z_linked(new, ord, live.remove(ord[k0])),
{
    let rest = live.remove(ord[k0]);
    let up = lemma_next_live(ord, live, k0, k0 + 1);
    let down = lemma_prev_live(ord, live, k0, k0 - 1);
    assert forall|j: int, k: int| #[trigger] neighbours(ord, rest, j, k) implies new[ord[k]].prev_z
        == ord[j] && new[ord[j]].next_z == ord[k] by {
        assert(ord[j] != ord[k0] && ord[k] != ord[k0]);
        assert(j != k0 && k != k0);
        if j < k0 < k {
            assert(neighbours(ord, live, j, k0));
            assert(neighbours(ord, live, k0, k));
        } else {
            assert forall|m: int| j < m < k implies !live.contains(#[trigger] ord[m]) by {
                assert(!rest.contains(ord[m]));
                assert(ord[m] != ord[k0]);
            }
            assert(neighbours(ord, live, j, k));
            if up < ord.len() && k == up {
                assert(j > k0);
                assert(!live.contains(ord[j]));
            }
            if down >= 0 && j == down {
                assert(k < k0);
                assert(!live.contains(ord[k]));
            }
        }
    }
    assert forall|k: int| #[trigger] lowest(ord, rest, k) implies new[ord[k]].prev_z == NULL by {
        assert(k != k0);
        if k0 < k {
            assert forall|m: int| 0 <= m < k0 implies !live.contains(#[trigger] ord[m]) by {
                assert(!rest.contains(ord[m]));
            }
            assert forall|m: int| k0 < m < k implies !live.contains(#[trigger] ord[m]) by {
                assert(!rest.contains(ord[m]));
            }
            assert(lowest(ord, live, k0));
            assert(neighbours(ord, live, k0, k));
        } else {
            assert forall|m: int| 0 <= m < k implies !live.contains(#[trigger] ord[m]) by {
                assert(!rest.contains(ord[m]));
            }
            assert(lowest(ord, live, k));
        }
    }
    assert forall|k: int| #[trigger] highest(ord, rest, k) implies new[ord[k]].next_z == NULL by {
        assert(k != k0);
        if k < k0 {
            assert forall|m: int| k0 < m < ord.len() implies !live.contains(#[trigger] ord[m]) by {
                assert(!rest.contains(ord[m]));
            }
            assert forall|m: int| k < m < k0 implies !live.contains(#[trigger] ord[m]) by {
                assert(!rest.contains(ord[m]));
            }
            assert(highest(ord, live, k0));
            assert(neighbours(ord, live, k, k0));
        } else {
            assert forall|m: int| k < m < ord.len() implies !live.contains(#[trigger] ord[m]) by {
                assert(!rest.contains(ord[m]));
            }
            assert(highest(ord, live, k));
        }
    }
}

/// What taking the first node out of a ring and out of the z-order does to the links.
proof fn lemma_removed<C>(
    was: Seq<Node<C>>,
    mid: Seq<Node<C>>,
    now: Seq<Node<C>>,
    r: Seq<int>,
    ord: Seq<int>,
)
    requires
        ring_ok(was, r),
        r.len() >= 2,
        z_in_bounds(was),
        was.len() <= NULL,
        ord.len() > 0 ==> ord.contains(r[0]),
        z_linked(was, ord, r.to_set()),
        mid.len() == was.len(),
        now.len() == was.len(),
        forall|h: int|
            0 <= h < was.len() ==> #[trigger] mid[h] == (Node {
                prev: if h == was[r[0]].next {
                    was[r[0]].prev
                } else {
                    was[h].prev
                },
                next: if h == was[r[0]].prev {
                    was[r[0]].next
                } else {
                    was[h].next
                },
                ..was[h]
            }),
        forall|h: int|
            0 <= h < was.len() ==> #[trigger] now[h] == (Node {
                prev_z: if h == was[r[0]].next_z {
                    was[r[0]].prev_z
                } else {
                    mid[h].prev_z
                },
                next_z: if h == was[r[0]].prev_z {
                    was[r[0]].next_z
                } else {
                    mid[h].next_z
                },
                ..mid[h]
            }),
    ensures
        unlinked(was, now, r),
        ring_ok(now, r.drop_first()),
        ring_ok(now, dropped_back(r)),
        kept(was, now, r),
        labels_kept(was, now),
        z_in_bounds(now),
        z_linked(now, ord, r.to_set().remove(r[0])),
        forall|h: int| 0 <= h < was.len() ==> #[trigger] now[h].pt() == was[h].pt(),
{
    let p = r[0];
    lemma_at(was, r, 0);
    assert forall|h: int| #![trigger now[h]] 0 <= h < was.len() implies now[h].prev == (if h
        == r[1] {
        r.last()
    } else {
        was[h].prev as int
    }) && now[h].next == (if h == r.last() {
        r[1]
    } else {
        was[h].next as int
    }) by {
        assert(now[h].prev == mid[h].prev && now[h].next == mid[h].next);
    }
    assert(unlinked(was, now, r));
    lemma_unlinked(was, now, r);
    assert(r.contains(r[1]) && r.contains(r.last()));
    assert forall|h: int| 0 <= h < was.len() implies #[trigger] now[h].pt() == was[h].pt() by {
        assert(now[h].pt() == mid[h].pt());
    }
    assert forall|h: int| #![trigger now[h]] 0 <= h < was.len() implies (now[h].prev_z == NULL
        || now[h].prev_z < now.len()) && (now[h].next_z == NULL || now[h].next_z < now.len()) by {
        assert(mid[h].prev_z == was[h].prev_z);
        assert(was[p].prev_z == was[p].prev_z);
    }
    assert forall|h: int| #![trigger now[h]] 0 <= h < was.len() implies now[h].z == was[h].z
        && now[h].block == was[h].block by {
        assert(mid[h].z == was[h].z);
    }
    assert forall|h: int| #![trigger now[h]] 0 <= h < was.len() implies now[h].prev_z == (if h
        == was[p].next_z {
        was[p].prev_z
    } else {
        was[h].prev_z
    }) && now[h].next_z == (if h == was[p].prev_z {
        was[p].next_z
    } else {
        was[h].next_z
    }) by {
        assert(mid[h].prev_z == was[h].prev_z);
    }
    if ord.len() > 0 {
        let k0 = choose|k: int| 0 <= k < ord.len() && ord[k] == p;
        assert(r.to_set().contains(p));
        lemma_z_unlinked(was, now, ord, r.to_set(), k0);
    }
}

// ---------------------------------------------------------------------------------------------
// Bridges
// ---------------------------------------------------------------------------------------------
/// The node `a` has been linked to `b` by a bridge whose way back runs over two new nodes.
pub(crate) open spec fn spliced<C>(old: Seq<Node<C>>, new: Seq<Node<C>>, a: int, b: int) -> bool {
    let n = old.len() as int;
    let an = old[a].next as int;
    let bp = old[b].prev as int;
    &&& new.len() == n + 2
    &&& points(new) == bridged(points(old), a, b)
    &&& new[n].next == an
    &&& new[n].prev == n + 1
    &&& new[n + 1].next == n
    &&& new[n + 1].prev == bp
    &&& forall|h: int|
        #![trigger new[h]]
        0 <= h < n ==> new[h].next == (if h == a {
            b
        } else if h == bp {
            n + 1
        } else {
            old[h].next as int
        }) && new[h].prev == (if h == b {
            a
        } else if h == an {
            n
        } else {
            old[h].prev as int
        }) && new[h].z == old[h].z && new[h].block == old[h].block && new[h].prev_z == old[h].prev_z
            && new[h].next_z == old[h].next_z
    &&& new[n].prev_z == NULL && new[n].next_z == NULL
    &&& new[n + 1].prev_z == NULL && new[n + 1].next_z == NULL
    &&& new[n].block == 0 && new[n + 1].block == 0
}

/// A bridge between nodes of one ring splits it in two.
pub(crate) proof fn lemma_split_ring<C>(old: Seq<Node<C>>, new: Seq<Node<C>>, r: Seq<int>, j: int)
    requires
        ring_ok(old, r),
        2 <= j < r.len() - 1,
        spliced(old, new, r[0], r[j]),
    ensures
        ring_ok(new, near_part(r, j)),
        ring_ok(new, far_part(r, j, old.len() as int)),
        near_part(r, j).to_set().disjoint(far_part(r, j, old.len() as int).to_set()),
        forall|h: int|
            0 <= h < old.len() && (#[trigger] near_part(r, j).contains(h) || #[trigger] far_part(
                r,
                j,
                old.len() as int,
            ).contains(h)) ==> r.contains(h),
        kept(old, new, r),
{
    let n = old.len() as int;
    let len = r.len() as int;
    let near = near_part(r, j);
    let far = far_part(r, j, n);
    lemma_at(old, r, 0);
    lemma_at(old, r, j);
    assert forall|k: int| 0 <= k < len implies 0 <= #[trigger] r[k] < n by {
        assert(linked_at(old, r, k));
    }
    assert forall|k: int| 0 <= k < near.len() implies #[trigger] linked_at(new, near, k) by {
        let o = if k == 0 {
            0
        } else {
            k + j - 1
        };
        assert(near[k] == r[o]);
        assert(linked_at(old, r, o));
        assert(near.len() == len - j + 1);
        if k > 0 && k + 1 < near.len() {
            assert(near[k + 1] == r[o + 1]);
        }
        if k > 1 {
            assert(near[k - 1] == r[o - 1]);
        }
    }
    assert forall|k: int| 0 <= k < far.len() implies #[trigger] linked_at(new, far, k) by {
        assert(far.len() == j + 1);
        if k >= 2 {
            let o = k - 1;
            assert(far[k] == r[o]);
            assert(linked_at(old, r, o));
            if k + 1 < far.len() {
                assert(far[k + 1] == r[o + 1]);
            }
            if k > 2 {
                assert(far[k - 1] == r[o - 1]);
            }
        }
        assert(far[2] == r[1]);
        assert(far[far.len() - 1] == r[j - 1]);
    }
    assert(near.no_duplicates());
    assert(far.no_duplicates());
    assert forall|h: int| near.contains(h) implies r.contains(h) && !far.contains(h) by {
        let k = choose|k: int| 0 <= k < near.len() && near[k] == h;
        let o = if k == 0 {
            0
        } else {
            k + j - 1
        };
        assert(r[o] == h);
        if far.contains(h) {
            let m = choose|m: int| 0 <= m < far.len() && far[m] == h;
            assert(m >= 2);
            assert(far[m] == r[m - 1]);
        }
    }
    assert forall|h: int| far.contains(h) && h < n implies r.contains(h) by {
        let m = choose|m: int| 0 <= m < far.len() && far[m] == h;
        assert(far[m] == r[m - 1]);
    }
    assert forall|h: int| 0 <= h < n implies #[trigger] new[h].pt() == old[h].pt() by {
        assert(points(new)[h] == points(old)[h]);
    }
    assert(r.contains(r[0]) && r.contains(r[j]));
    assert(r.contains(succ(r, 0)) && r.contains(pred(r, j)));
}

/// A bridge between nodes of two rings joins them.
pub(crate) proof fn lemma_join_rings<C>(
    old: Seq<Node<C>>,
    new: Seq<Node<C>>,
    r: Seq<int>,
    s: Seq<int>,
)
    requires
        ring_ok(old, r),
        ring_ok(old, s),
        r.to_set().disjoint(s.to_set()),
        spliced(old, new, r[0], s[0]),
    ensures
        ring_ok(new, joined(r, s, old.len() as int)),
        forall|h: int|
            0 <= h < old.len() ==> (#[trigger] joined(r, s, old.len() as int).contains(h) <==> (
            r.contains(h) || s.contains(h))),
        kept(old, new, r + s),
{
    let n = old.len() as int;
    let t = joined(r, s, n);
    let rl = r.len() as int;
    let sl = s.len() as int;
    lemma_at(old, r, 0);
    lemma_at(old, s, 0);
    assert forall|k: int| 0 <= k < rl implies 0 <= #[trigger] r[k] < n && !s.contains(r[k]) by {
        assert(linked_at(old, r, k));
        assert(r.to_set().contains(r[k]));
        assert(!s.to_set().contains(r[k]));
    }
    assert forall|k: int| 0 <= k < sl implies 0 <= #[trigger] s[k] < n && !r.contains(s[k]) by {
        assert(linked_at(old, s, k));
        assert(s.to_set().contains(s[k]));
        assert(!r.to_set().contains(s[k]));
    }
    assert forall|k: int| 0 <= k < rl implies #[trigger] t[k + 2] == r[after(k, rl)] by {}
    assert forall|k: int| 0 <= k < sl implies #[trigger] t[k + 2 + rl] == s[k] by {}
    assert(t[rl + 1] == r[0]);
    assert(t[rl + 2] == s[0]);
    assert(r.contains(r[0]) && s.contains(s[0]));
    assert forall|k: int| 0 <= k < t.len() implies #[trigger] linked_at(new, t, k) by {
        if k >= 2 && k < rl + 2 {
            let o = after(k - 2, rl);
            assert(t[(k - 2) + 2] == r[o]);
            assert(linked_at(old, r, o));
            assert(t[k] == r[o]);
            if o != 0 {
                assert(t[(k - 1) + 2] == r[after(o, rl)]);
                assert(t[k + 1] == r[after(o, rl)]);
            }
            if k > 2 {
                assert(t[(k - 3) + 2] == r[after(k - 3, rl)]);
                assert(t[k - 1] == r[before(o, rl)]);
            } else {
                assert(o == after(0, rl));
                assert(t[k - 1] == n);
            }
            assert(!s.contains(r[o]));
        } else if k >= rl + 2 {
            let o = k - rl - 2;
            assert(t[o + 2 + rl] == s[o]);
            assert(linked_at(old, s, o));
            assert(!r.contains(s[o]));
            if o + 1 < sl {
                assert(t[(o + 1) + 2 + rl] == s[o + 1]);
            }
            if o > 0 {
                assert(t[(o - 1) + 2 + rl] == s[o - 1]);
            }
        }
        assert(t[t.len() - 1] == s[sl - 1]);
    }
    assert(t.no_duplicates()) by {
        assert forall|i: int, k: int| 0 <= i < t.len() && 0 <= k < t.len() && i != k implies t[i]
            != t[k] by {
            if i >= 2 && i < rl + 2 {
                assert(t[(i - 2) + 2] == r[after(i - 2, rl)]);
            }
            if k >= 2 && k < rl + 2 {
                assert(t[(k - 2) + 2] == r[after(k - 2, rl)]);
            }
            if i >= rl + 2 {
                assert(t[(i - rl - 2) + 2 + rl] == s[i - rl - 2]);
            }
            if k >= rl + 2 {
                assert(t[(k - rl - 2) + 2 + rl] == s[k - rl - 2]);
            }
        }
    }
    assert forall|h: int| 0 <= h < n implies (#[trigger] t.contains(h) <==> (r.contains(h)
        || s.contains(h))) by {
        if t.contains(h) {
            let k = choose|k: int| 0 <= k < t.len() && t[k] == h;
            if k < rl + 2 {
                assert(t[(k - 2) + 2] == r[after(k - 2, rl)]);
            } else {
                assert(t[(k - rl - 2) + 2 + rl] == s[k - rl - 2]);
            }
        }
        if r.contains(h) {
            let k = choose|k: int| 0 <= k < rl && r[k] == h;
            let b = before(k, rl);
            assert(t[b + 2] == r[after(b, rl)]);
        }
        if s.contains(h) {
            let k = choose|k: int| 0 <= k < sl && s[k] == h;
            assert(t[k + 2 + rl] == s[k]);
        }
    }
    assert forall|h: int| 0 <= h < n implies #[trigger] new[h].pt() == old[h].pt() by {
        assert(points(new)[h] == points(old)[h]);
    }
    let u = r + s;
    assert forall|k: int| 0 <= k < rl implies u.contains(#[trigger] r[k]) by {
        assert(u[k] == r[k]);
    }
    assert forall|k: int| 0 <= k < sl implies u.contains(#[trigger] s[k]) by {
        assert(u[k + rl] == s[k]);
    }
}

impl<C: Scalar> Arena<C> {
    /// The points of the table.
    pub(crate) open spec fn pts(self) -> Seq<Pt<C>> {
        points(self.nodes@)
    }

    /// Whether everything of the hole-bridge index but its boxes is as in `o`.
    pub(crate) open spec fn same_index(self, o: Self) -> bool {
        &&& self.block_nodes == o.block_nodes
        &&& self.block_start == o.block_start
        &&& self.index_active == o.index_active
    }

    /// Whether everything but the nodes and the boxes of the index is as in `o`.
    pub(crate) open spec fn same_state(self, o: Self) -> bool {
        self.same_index(o) && self.filtered_out == o.filtered_out
    }

    /// An empty table.
    pub(crate) fn new() -> (a: Self)
        ensures
            a.nodes@.len() == 0,
            !a.filtered_out,
            !a.index_active,
            a.block_bbox@.len() == 0,
    {
        Arena {
            nodes: Vec::new(),
            filtered_out: false,
            block_bbox: Vec::new(),
            block_nodes: Vec::new(),
            block_start: Vec::new(),
            index_active: false,
            z_order_buf: Vec::new(),
            z_order_scratch: Vec::new(),
        }
    }

    /// Empties the table while keeping every buffer's allocation.
    pub(crate) fn reset(&mut self)
        ensures
            final(self).nodes@.len() == 0,
            !final(self).filtered_out,
            !final(self).index_active,
            final(self).block_bbox@.len() == 0,
    {
        self.nodes.clear();
        self.filtered_out = false;
        self.block_bbox.clear();
        self.index_active = false;
    }

    /// Adds a node that is in no ring yet.
    pub(crate) fn create_node(&mut self, i: usize, x: C, y: C) -> (p: usize)
        ensures
            p == old(self).nodes@.len(),
            p < NULL,
            final(self).nodes@.len() == old(self).nodes@.len() + 1,
            forall|h: int|
                #![trigger final(self).nodes@[h]]
                0 <= h < old(self).nodes@.len() ==> final(self).nodes@[h] == old(self).nodes@[h],
            final(self).nodes@[p as int].pt() == (Pt { i, steiner: false, x, y }),
            final(self).nodes@[p as int].prev_z == NULL,
            final(self).nodes@[p as int].next_z == NULL,
            final(self).nodes@[p as int].block == 0,
            final(self).same_state(*old(self)),
            final(self).block_bbox == old(self).block_bbox,
    {
        let p: usize = self.nodes.len();
        self.nodes.push(Node::new(i, x, y));
        let len: usize = self.nodes.len();
        p
    }

    /// Creates a node and links it behind `last`, the last node of the ring `r`, or in a ring of
    /// its own if there is none.
    pub(crate) fn insert_node(
        &mut self,
        i: usize,
        x: C,
        y: C,
        last: usize,
        Ghost(r): Ghost<Seq<int>>,
    ) -> (p: usize)
        requires
            r.len() == 0 <==> last == NULL,
            r.len() > 0 ==> ring_ok(old(self).nodes@, r) && last == r.last(),
            z_in_bounds(old(self).nodes@),
        ensures
            p == old(self).nodes@.len(),
            p < NULL,
            ring_ok(final(self).nodes@, r.push(p as int)),
            final(self).pts() == old(self).pts().push(Pt { i, steiner: false, x, y }),
            kept(old(self).nodes@, final(self).nodes@, r),
            z_in_bounds(final(self).nodes@),
            unowned(old(self).nodes@) ==> unowned(final(self).nodes@),
            final(self).same_state(*old(self)),
            final(self).block_bbox == old(self).block_bbox,
    {
        let p = self.create_node(i, x, y);
        let ghost made = self.nodes@;
        let ghost n = old(self).nodes@.len() as int;
        let ghost t = r.push(p as int);
        assert(made[n] == made[p as int]);
        if last == NULL {
            self.nodes[p].prev = p;
            self.nodes[p].next = p;
            assert(linked_at(self.nodes@, t, 0));
        } else {
            proof {
                lemma_at(old(self).nodes@, r, r.len() - 1);
                lemma_at(old(self).nodes@, r, 0);
            }
            let last_next: usize = self.nodes[last].next;
            self.nodes[p].next = last_next;
            self.nodes[p].prev = last;
            self.nodes[last_next].prev = p;
            self.nodes[last].next = p;
            proof {
                assert forall|k: int| 0 <= k < t.len() implies #[trigger] linked_at(
                    self.nodes@,
                    t,
                    k,
                ) by {
                    if k < r.len() {
                        assert(linked_at(old(self).nodes@, r, k));
                        assert(made[r[k]] == old(self).nodes@[r[k]]);
                    }
                }
                assert(t.no_duplicates()) by {
                    assert forall|k: int| 0 <= k < r.len() implies #[trigger] r[k] < n by {
                        assert(linked_at(old(self).nodes@, r, k));
                    }
                }
                assert(r.contains(r[0]) && r.contains(r.last()));
            }
        }
        proof {
            assert forall|h: int| 0 <= h < n implies #[trigger] self.nodes@[h].pt() == old(
                self,
            ).nodes@[h].pt() by {
                assert(made[h] == old(self).nodes@[h]);
            }
            assert(self.pts() =~= old(self).pts().push(Pt { i, steiner: false, x, y }));
            assert forall|h: int| unowned(old(self).nodes@) && 0 <= h < n + 1 implies
                #[trigger] self.nodes@[h].block == 0 by {
                if h < n {
                    assert(made[h] == old(self).nodes@[h]);
                    assert(old(self).nodes@[h].block == 0);
                }
            }
            assert forall|h: int| #![trigger self.nodes@[h]] 0 <= h < n + 1 implies (
            self.nodes@[h].prev_z == NULL || self.nodes@[h].prev_z < n + 1) && (
            self.nodes@[h].next_z == NULL || self.nodes@[h].next_z < n + 1) by {
                if h < n {
                    assert(made[h] == old(self).nodes@[h]);
                }
            }
        }
        p
    }

    /// Grows the box of the block that owns `head` to cover `tail`, which a healed edge from
    /// `head` now reaches.
    fn grow_block(&mut self, head: usize, tail: usize)
        requires
            head < old(self).nodes@.len(),
            tail < old(self).nodes@.len(),
            old(self).nodes@[head as int].block < old(self).block_bbox@.len(),
        ensures
            final(self).nodes == old(self).nodes,
            final(self).same_state(*old(self)),
            ({
                let b = old(self).nodes@[head as int].block as int;
                final(self).block_bbox@ == old(self).block_bbox@.update(
                    b,
                    grown_box(
                        old(self).block_bbox@[b],
                        old(self).nodes@[tail as int].x,
                        old(self).nodes@[tail as int].y,
                    ),
                )
            }),
    {
        let b: usize = self.nodes[head].block;
        let tx = self.nodes[tail].x;
        let ty = self.nodes[tail].y;
        let mut bb = self.block_bbox[b];
        if tx.less(bb.min_x) {
            bb.min_x = tx;
        }
        if ty.less(bb.min_y) {
            bb.min_y = ty;
        }
        if bb.max_x.less(tx) {
            bb.max_x = tx;
        }
        if bb.max_y.less(ty) {
            bb.max_y = ty;
        }
        self.block_bbox[b] = bb;
    }

    /// Takes the first node `p` out of the ring `r`, and out of the z-order.
    pub(crate) fn remove_node(
        &mut self,
        p: usize,
        Ghost(r): Ghost<Seq<int>>,
        Ghost(ord): Ghost<Seq<int>>,
    )
        requires
            ring_ok(old(self).nodes@, r),
            r.len() >= 2,
            p == r[0],
            z_in_bounds(old(self).nodes@),
            ord.len() > 0 ==> ord.contains(p as int),
            z_linked(old(self).nodes@, ord, r.to_set()),
            old(self).index_active ==> old(self).nodes@[r.last()].block < old(
                self,
            ).block_bbox@.len(),
        ensures
            unlinked(old(self).nodes@, final(self).nodes@, r),
            ring_ok(final(self).nodes@, r.drop_first()),
            ring_ok(final(self).nodes@, dropped_back(r)),
            kept(old(self).nodes@, final(self).nodes@, r),
            final(self).pts() == old(self).pts(),
            labels_kept(old(self).nodes@, final(self).nodes@),
            z_in_bounds(final(self).nodes@),
            z_linked(final(self).nodes@, ord, r.to_set().remove(p as int)),
            z_bypassed(old(self).nodes@, final(self).nodes@, p as int),
            final(self).same_state(*old(self)),
            !old(self).index_active ==> final(self).block_bbox == old(self).block_bbox,
            old(self).index_active ==> ({
                let b = old(self).nodes@[r.last()].block as int;
                let tail = old(self).pts()[r[1]];
                final(self).block_bbox@ == old(self).block_bbox@.update(
                    b,
                    grown_box(old(self).block_bbox@[b], tail.x, tail.y),
                )
            }),
    {
        let ghost was = self.nodes@;
        let len: usize = self.nodes.len();
        let node = self.nodes[p];
        let prev: usize = node.prev;
        let next: usize = node.next;
        let prev_z: usize = node.prev_z;
        let next_z: usize = node.next_z;
        proof {
            lemma_at(was, r, 0);
            assert(was[p as int] == node);
        }
        self.nodes[next].prev = prev;
        self.nodes[prev].next = next;
        let ghost mid = self.nodes@;
        assert forall|h: int| 0 <= h < was.len() implies #[trigger] mid[h] == (Node {
            prev: if h == next {
                prev
            } else {
                was[h].prev
            },
            next: if h == prev {
                next
            } else {
                was[h].next
            },
            ..was[h]
        }) by {}
        if prev_z != NULL {
            self.nodes[prev_z].next_z = next_z;
        }
        if next_z != NULL {
            self.nodes[next_z].prev_z = prev_z;
        }
        proof {
            let now = self.nodes@;
            assert forall|h: int| 0 <= h < was.len() implies #[trigger] now[h] == (Node {
                prev_z: if h == next_z {
                    prev_z
                } else {
                    mid[h].prev_z
                },
                next_z: if h == prev_z {
                    next_z
                } else {
                    mid[h].next_z
                },
                ..mid[h]
            }) by {}
            lemma_removed(was, mid, now, r, ord);
            assert(self.pts() =~= old(self).pts());
        }
        if self.index_active {
            self.grow_block(prev, next);
        }
    }

    /// Links node `a` to node `b` by a bridge. If both belong to one ring, it splits the ring in
    /// two; if they belong to different rings, it joins them into one.
    pub(crate) fn split_polygon(&mut self, a: usize, b: usize) -> (b2: usize)
        requires
            a < old(self).nodes@.len(),
            b < old(self).nodes@.len(),
            old(self).nodes@[a as int].next < old(self).nodes@.len(),
            old(self).nodes@[b as int].prev < old(self).nodes@.len(),
            old(self).nodes@[a as int].next != b,
            old(self).nodes@[b as int].prev != a,
            a != b,
            z_in_bounds(old(self).nodes@),
        ensures
            b2 == old(self).nodes@.len() + 1,
            spliced(old(self).nodes@, final(self).nodes@, a as int, b as int),
            final(self).pts() == bridged(old(self).pts(), a as int, b as int),
            z_in_bounds(final(self).nodes@),
            final(self).same_state(*old(self)),
            final(self).block_bbox == old(self).block_bbox,
    {
        let ghost was = self.nodes@;
        let an: usize = self.nodes[a].next;
        let bp: usize = self.nodes[b].prev;
        let na = self.nodes[a];
        let nb = self.nodes[b];
        let a2 = self.create_node(na.i, na.x, na.y);
        let ghost one = self.nodes@;
        let b2 = self.create_node(nb.i, nb.x, nb.y);
        let ghost two = self.nodes@;
        proof {
            let n = was.len() as int;
            assert forall|h: int| 0 <= h < n implies #[trigger] two[h] == was[h] by {
                assert(one[h] == was[h]);
            }
            assert(two[n] == one[n]);
            assert(two[n].pt() == Pt { steiner: false, ..was[a as int].pt() });
            assert(two[n + 1].pt() == Pt { steiner: false, ..was[b as int].pt() });
        }
        self.nodes[a].next = b;
        self.nodes[b].prev = a;
        self.nodes[a2].next = an;
        self.nodes[an].prev = a2;
        self.nodes[b2].next = a2;
        self.nodes[a2].prev = b2;
        self.nodes[bp].next = b2;
        self.nodes[b2].prev = bp;
        proof {
            let n = was.len() as int;
            let now = self.nodes@;
            assert forall|h: int| 0 <= h < n + 2 implies #[trigger] now[h].pt() == two[h].pt()
                && now[h].prev_z == two[h].prev_z && now[h].next_z == two[h].next_z by {}
            assert(self.pts() =~= bridged(points(was), a as int, b as int));
            assert forall|h: int| #![trigger now[h]] 0 <= h < n + 2 implies (now[h].prev_z == NULL
                || now[h].prev_z < n + 2) && (now[h].next_z == NULL || now[h].next_z < n + 2) by {
                if h < n {
                    assert(two[h] == was[h]);
                }
            }
        }
        b2
    }
}

} // verus!
