//! Dropping collinear and coincident points.
use vstd::prelude::*;
use crate::arena::{
    dead, kept, labels_kept, lemma_at, lemma_dropped_nodes, lemma_kept_trans, lemma_turned, owners,
    ring_ok, unlinked, z_in_bounds, z_linked, Arena, Node,
};
use crate::model::{
    backtracked, backtracked_boxes, degenerate, dropped_back, healed, healed_boxes,
    lemma_backtracked_len, swept, turned,
};
use crate::scalar::Scalar;

verus! {

/// Checks whether the first node of a ring can be dropped.
fn is_degenerate<C: Scalar>(arena: &Arena<C>, p: usize, Ghost(r): Ghost<Seq<int>>) -> (res: bool)
    requires
        ring_ok(arena.nodes@, r),
        p == r[0],
    ensures
        res == degenerate(arena.pts(), r),
{
    proof {
        lemma_at(arena.nodes@, r, 0);
    }
    let n = arena.nodes[p];
    p != n.next && !n.steiner && (arena.equals(p, n.next) || arena.area(n.prev, p, n.next).same(
        C::from_int(0),
    ))
}

/// Dropping the first node keeps dead nodes dead and makes that node dead.
proof fn lemma_dead_step<C>(old: Seq<Node<C>>, new: Seq<Node<C>>, r: Seq<int>)
    requires
        ring_ok(old, r),
        r.len() >= 2,
        unlinked(old, new, r),
    ensures
        dead(new, r[0]),
        new[r[0]].next == r[1],
        forall|h: int|
            0 <= h < old.len() && !r.contains(h) && #[trigger] dead(old, h) ==> dead(new, h),
        forall|h: int|
            0 <= h < old.len() && !r.contains(h) ==> #[trigger] new[h].next == old[h].next
                && new[h].prev == old[h].prev,
{
    lemma_at(old, r, 0);
    lemma_at(old, r, 1);
    lemma_at(old, r, r.len() - 1);
    assert(r.contains(r[1]) && r.contains(r.last()));
    assert forall|h: int| 0 <= h < old.len() && !r.contains(h) && #[trigger] dead(old, h) implies
        dead(new, h) by {
        assert(new[h].prev == old[h].prev);
        let q = old[h].prev as int;
        assert(new[q].next == (if q == r.last() {
            r[1]
        } else {
            old[q].next as int
        }));
    }
}

/// Drops nodes backwards from `start`, the first node of the ring `r`, as long as they are
/// degenerate.
fn backtrack<C: Scalar>(arena: &mut Arena<C>, start: usize, Ghost(r): Ghost<Seq<int>>) -> (p: usize)
    requires
        ring_ok(old(arena).nodes@, r),
        start == r[0],
        z_in_bounds(old(arena).nodes@),
        old(arena).index_active ==> forall|h: int| #[trigger]
            r.contains(h) ==> old(arena).nodes@[h].block < old(arena).block_bbox@.len(),
    ensures
        ({
            let s = backtracked(old(arena).pts(), r);
            &&& ring_ok(final(arena).nodes@, s)
            &&& p == s[0]
            &&& forall|h: int| #[trigger] s.contains(h) ==> r.contains(h)
            &&& forall|h: int|
                0 <= h < old(arena).nodes@.len() && !s.contains(h) && (r.contains(h) || dead(
                    old(arena).nodes@,
                    h,
                )) ==> #[trigger] dead(final(arena).nodes@, h)
            &&& forall|h: int|
                r.contains(h) && !s.contains(h) ==> #[trigger] final(arena).nodes@[h].next == r[1]
            &&& final(arena).filtered_out == (old(arena).filtered_out || s.len() < r.len())
        }),
        kept(old(arena).nodes@, final(arena).nodes@, r),
        labels_kept(old(arena).nodes@, final(arena).nodes@),
        final(arena).pts() == old(arena).pts(),
        z_in_bounds(final(arena).nodes@),
        final(arena).same_index(*old(arena)),
        !old(arena).index_active ==> final(arena).block_bbox == old(arena).block_bbox,
        old(arena).index_active ==> final(arena).block_bbox@ == backtracked_boxes(
            old(arena).pts(),
            r,
            owners(old(arena).nodes@),
            old(arena).block_bbox@,
        ),
        final(arena).block_bbox@.len() == old(arena).block_bbox@.len(),
{
    let ghost was = arena.nodes@;
    let ghost pts = arena.pts();
    let ghost own = owners(was);
    let mut p: usize = start;
    let ghost mut q = r;
    loop
        invariant
            ring_ok(was, r),
            ring_ok(arena.nodes@, q),
            p == q[0],
            pts == arena.pts(),
            own == owners(arena.nodes@),
            z_in_bounds(arena.nodes@),
            kept(was, arena.nodes@, r),
            labels_kept(was, arena.nodes@),
            arena.same_index(*old(arena)),
            arena.block_bbox@.len() == old(arena).block_bbox@.len(),
            !arena.index_active ==> arena.block_bbox == old(arena).block_bbox,
            arena.index_active ==> backtracked_boxes(pts, q, own, arena.block_bbox@)
                == backtracked_boxes(pts, r, own, old(arena).block_bbox@),
            arena.index_active ==> forall|h: int| #[trigger]
                r.contains(h) ==> was[h].block < arena.block_bbox@.len(),
            backtracked(pts, q) == backtracked(pts, r),
            forall|h: int| #[trigger] q.contains(h) ==> r.contains(h),
            q.len() <= r.len(),
            arena.filtered_out == (old(arena).filtered_out || q.len() < r.len()),
            q.len() >= 2 ==> q[1] == r[1],
            forall|h: int|
                0 <= h < was.len() && !q.contains(h) && (r.contains(h) || dead(was, h))
                    ==> #[trigger] dead(arena.nodes@, h),
            forall|h: int|
                r.contains(h) && !q.contains(h) ==> #[trigger] arena.nodes@[h].next == r[1],
        ensures
            q == backtracked(pts, r),
            !degenerate(pts, q),
        decreases q.len(),
    {
        if !is_degenerate(arena, p, Ghost(q)) {
            break ;
        }
        proof {
            lemma_at(arena.nodes@, q, 0);
            assert(q.contains(q.last()));
            lemma_dropped_nodes(q);
        }
        let ghost before_drop = arena.nodes@;
        let prev: usize = arena.nodes[p].prev;
        arena.filtered_out = true;
        arena.remove_node(p, Ghost(q), Ghost(Seq::empty()));
        proof {
            let now = arena.nodes@;
            let d = dropped_back(q);
            lemma_kept_trans(was, before_drop, now, r, q);
            assert(own =~= owners(now));
            lemma_dead_step(before_drop, now, q);
            assert forall|h: int| d.contains(h) implies q.contains(h) && h != q[0] by {
                assert(d.to_set().contains(h));
            }
            assert forall|h: int| q.contains(h) && h != q[0] implies d.contains(h) by {
                assert(d.to_set().contains(h));
            }
            assert forall|h: int|
                0 <= h < was.len() && !d.contains(h) && (r.contains(h) || dead(was, h)) implies
                #[trigger] dead(now, h) by {
                if h != q[0] {
                    assert(!q.contains(h));
                    assert(dead(before_drop, h));
                }
            }
            assert forall|h: int|
                r.contains(h) && !d.contains(h) implies #[trigger] now[h].next == r[1] by {
                if h != q[0] {
                    assert(!q.contains(h));
                    assert(before_drop[h].next == r[1]);
                    let k = choose|k: int| 0 <= k < r.len() && r[k] == h;
                    lemma_at(was, r, k);
                }
            }
            q = d;
        }
        p = prev;
    }
    p
}

/// Sweeps the whole ring `r` from `start`, its first node, lapping until nothing is removable.
fn sweep<C: Scalar>(
    arena: &mut Arena<C>,
    start: usize,
    Ghost(r): Ghost<Seq<int>>,
    Ghost(ord): Ghost<Seq<int>>,
) -> (end: usize)
    requires
        ring_ok(old(arena).nodes@, r),
        start == r[0],
        z_in_bounds(old(arena).nodes@),
        ord.len() > 0 ==> forall|h: int| #[trigger] r.contains(h) ==> ord.contains(h),
        z_linked(old(arena).nodes@, ord, r.to_set()),
        !old(arena).index_active,
    ensures
        ({
            let s = swept(old(arena).pts(), r, 0);
            &&& ring_ok(final(arena).nodes@, s)
            &&& end == s[0]
            &&& forall|h: int| #[trigger] s.contains(h) ==> r.contains(h)
            &&& z_linked(final(arena).nodes@, ord, s.to_set())
            &&& final(arena).filtered_out == (old(arena).filtered_out || s.len() < r.len())
        }),
        kept(old(arena).nodes@, final(arena).nodes@, r),
        labels_kept(old(arena).nodes@, final(arena).nodes@),
        final(arena).pts() == old(arena).pts(),
        z_in_bounds(final(arena).nodes@),
        final(arena).same_index(*old(arena)),
        final(arena).block_bbox == old(arena).block_bbox,
{
    let ghost was = arena.nodes@;
    let ghost pts = arena.pts();
    let mut p: usize = start;
    let mut end: usize = start;
    let ghost mut q = r;
    let ghost mut checked: nat = 0;
    loop
        invariant_except_break
            checked < q.len(),
            end == q[if checked == 0 {
                0
            } else {
                q.len() - checked
            }],
            swept(pts, q, checked) == swept(pts, r, 0),
        invariant
            ring_ok(was, r),
            ring_ok(arena.nodes@, q),
            p == q[0],
            pts == arena.pts(),
            z_in_bounds(arena.nodes@),
            kept(was, arena.nodes@, r),
            labels_kept(was, arena.nodes@),
            arena.same_index(*old(arena)),
            arena.block_bbox == old(arena).block_bbox,
            !arena.index_active,
            ord.len() > 0 ==> forall|h: int| #[trigger] r.contains(h) ==> ord.contains(h),
            z_linked(arena.nodes@, ord, q.to_set()),
            forall|h: int| #[trigger] q.contains(h) ==> r.contains(h),
            q.len() <= r.len(),
            arena.filtered_out == (old(arena).filtered_out || q.len() < r.len()),
        ensures
            q == swept(pts, r, 0),
            end == p,
        decreases q.len(), q.len() - checked,
    {
        proof {
            lemma_at(arena.nodes@, q, 0);
            lemma_turned(arena.nodes@, q);
        }
        let prev: usize = arena.nodes[p].prev;
        let next: usize = arena.nodes[p].next;
        if is_degenerate(arena, p, Ghost(q)) {
            proof {
                lemma_dropped_nodes(q);
                assert(q.contains(q[0]));
            }
            let ghost before_drop = arena.nodes@;
            end = prev;
            arena.filtered_out = true;
            arena.remove_node(p, Ghost(q), Ghost(ord));
            proof {
                let d = dropped_back(q);
                lemma_kept_trans(was, before_drop, arena.nodes@, r, q);
                assert forall|h: int| #[trigger] d.contains(h) implies r.contains(h) by {
                    assert(d.to_set().contains(h));
                    assert(q.to_set().contains(h));
                }
                q = d;
                checked = 0;
            }
            p = prev;
        } else {
            proof {
                let t = turned(q);
                assert forall|h: int| #[trigger] t.contains(h) implies r.contains(h) by {
                    assert(t.to_set().contains(h));
                    assert(q.to_set().contains(h));
                }
                if checked + 1 < q.len() {
                    assert(t[t.len() - (checked + 1)] == end);
                    assert(t[0] != t[t.len() - (checked + 1)]);
                } else {
                    assert(t[0] == end);
                }
                q = t;
                checked = checked + 1;
            }
            p = next;
            if p == end {
                break ;
            }
        }
    }
    end
}

/// Removes collinear or coincident points; removability depends only on a node's immediate
/// neighbors, so the predecessor is checked again after each removal. With no `end`, the whole
/// ring is swept, lapping until nothing is removable. With an `end`, which is the node after
/// `start`, only the dirty window around a bridge or diagonal cut is healed.
pub(crate) fn filter_points<C: Scalar>(
    arena: &mut Arena<C>,
    start: usize,
    end: Option<usize>,
    Ghost(r): Ghost<Seq<int>>,
    Ghost(ord): Ghost<Seq<int>>,
) -> (res: usize)
    requires
        ring_ok(old(arena).nodes@, r),
        start == r[0],
        z_in_bounds(old(arena).nodes@),
        match end {
            None => {
                &&& ord.len() > 0 ==> forall|h: int| #[trigger] r.contains(h) ==> ord.contains(h)
                &&& z_linked(old(arena).nodes@, ord, r.to_set())
                &&& !old(arena).index_active
            },
            Some(e) => {
                &&& e == old(arena).nodes@[start as int].next
                &&& old(arena).index_active ==> forall|h: int| #[trigger]
                    r.contains(h) ==> old(arena).nodes@[h].block < old(arena).block_bbox@.len()
            },
        },
    ensures
        end is None ==> ({
            let s = swept(old(arena).pts(), r, 0);
            &&& ring_ok(final(arena).nodes@, s)
            &&& res == s[0]
            &&& forall|h: int| #[trigger] s.contains(h) ==> r.contains(h)
            &&& z_linked(final(arena).nodes@, ord, s.to_set())
            &&& final(arena).filtered_out == (old(arena).filtered_out || s.len() < r.len())
        }),
        end is Some ==> ({
            let s = healed(old(arena).pts(), r);
            &&& ring_ok(final(arena).nodes@, s)
            &&& res == s[0]
            &&& forall|h: int| #[trigger] s.contains(h) ==> r.contains(h)
            &&& forall|h: int|
                0 <= h < old(arena).nodes@.len() && !s.contains(h) && (r.contains(h) || dead(
                    old(arena).nodes@,
                    h,
                )) ==> #[trigger] dead(final(arena).nodes@, h)
            &&& forall|h: int|
                r.contains(h) && !s.contains(h) ==> (#[trigger] final(arena).nodes@[h].next == r[1]
                    <==> !backtracked(old(arena).pts(), r).contains(h))
            &&& final(arena).filtered_out == (old(arena).filtered_out || s.len() < r.len())
        }),
        kept(old(arena).nodes@, final(arena).nodes@, r),
        labels_kept(old(arena).nodes@, final(arena).nodes@),
        final(arena).pts() == old(arena).pts(),
        z_in_bounds(final(arena).nodes@),
        final(arena).same_index(*old(arena)),
        final(arena).block_bbox@.len() == old(arena).block_bbox@.len(),
        !old(arena).index_active ==> final(arena).block_bbox == old(arena).block_bbox,
        end is Some && old(arena).index_active ==> final(arena).block_bbox@ == healed_boxes(
            old(arena).pts(),
            r,
            owners(old(arena).nodes@),
            old(arena).block_bbox@,
        ),
{
    match end {
        None => sweep(arena, start, Ghost(r), Ghost(ord)),
        Some(_) => {
            let ghost was = arena.nodes@;
            let ghost pts = arena.pts();
            let p = backtrack(arena, start, Ghost(r));
            let ghost mid = arena.nodes@;
            let ghost b = backtracked(pts, r);
            let ghost t = turned(b);
            proof {
                lemma_backtracked_len(pts, r);
                lemma_backtracked_tail(pts, r);
                lemma_at(mid, b, 0);
                lemma_turned(mid, b);
                assert forall|h: int| #[trigger] t.contains(h) implies b.contains(h) by {
                    assert(t.to_set().contains(h));
                    assert(b.to_set().contains(h));
                }
                assert forall|h: int| #[trigger] b.contains(h) implies t.contains(h) by {
                    assert(b.to_set().contains(h));
                    assert(t.to_set().contains(h));
                }
                assert(owners(mid) =~= owners(was));
                assert forall|h: int| old(arena).index_active && #[trigger] t.contains(h) implies
                    mid[h].block < arena.block_bbox@.len() by {
                    assert(r.contains(h));
                    let k = choose|k: int| 0 <= k < r.len() && r[k] == h;
                    lemma_at(was, r, k);
                    assert(mid[h].block == was[h].block);
                }
            }
            let next: usize = arena.nodes[p].next;
            let q = backtrack(arena, next, Ghost(t));
            proof {
                let now = arena.nodes@;
                let s = healed(pts, r);
                lemma_backtracked_len(pts, t);
                lemma_kept_trans(was, mid, now, r, t);
                assert forall|h: int|
                    0 <= h < was.len() && !s.contains(h) && (r.contains(h) || dead(was, h)) implies
                    #[trigger] dead(now, h) by {
                    if !t.contains(h) {
                        assert(!b.contains(h));
                        assert(dead(mid, h));
                    }
                }
                assert forall|h: int| r.contains(h) && !s.contains(h) implies (#[trigger] now[h].next
                    == r[1] <==> !b.contains(h)) by {
                    let k = choose|k: int| 0 <= k < r.len() && r[k] == h;
                    lemma_at(was, r, k);
                    if b.contains(h) {
                        assert(t.contains(h));
                        assert(now[h].next == t[1]);
                        if b.len() >= 2 {
                            assert(t[0] == b[1]);
                            assert(t[0] != t[1]);
                        } else {
                            assert(!degenerate(pts, t));
                            assert(s =~= t);
                        }
                    } else {
                        assert(mid[h].next == r[1]);
                        assert(!t.contains(h));
                    }
                }
            }
            q
        },
    }
}

/// Dropping backwards keeps the node after the first.
pub(crate) proof fn lemma_backtracked_tail<C: Scalar>(pts: Seq<crate::model::Pt<C>>, r: Seq<int>)
    requires
        r.len() > 0,
    ensures
        backtracked(pts, r).len() >= 2 ==> backtracked(pts, r)[1] == r[1],
        r.len() >= 2 ==> backtracked(pts, r).contains(r[1]),
    decreases r.len(),
{
    if degenerate(pts, r) {
        lemma_backtracked_tail(pts, dropped_back(r));
        lemma_backtracked_len(pts, dropped_back(r));
        if r.len() == 2 {
            assert(dropped_back(r) =~= seq![r[1]]);
            assert(!degenerate(pts, dropped_back(r)));
            assert(dropped_back(r)[0] == r[1]);
        }
    } else if r.len() >= 2 {
        assert(r[1] == r[1]);
    }
}

} // verus!
