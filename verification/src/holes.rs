//! Merging holes into the outer ring.
use vstd::prelude::*;
use crate::arena::{
    dead, kept, lemma_at, lemma_join_rings, lemma_kept_same, lemma_kept_trans, lemma_ring_frame,
    lemma_turned_to, linked_at, owners, points, ring_ok, spliced, unowned, z_in_bounds, Arena, Node,
};
use crate::blocks::{index_is, is_run, list_is, runs_on};
use crate::bridge::{find_hole_bridge, lemma_place, outline_is, tracked_node};
use crate::filter::filter_points;
use crate::hole_model::{
    bridge, chunk_count, chunk_start, comes_after, connected, healed_outline, hole_end, holes_fit,
    in_order, indexed, joined, leftmost, listed, merged, merged_all, outline, put_in, queued,
    seen_from, slit_run, without_holes, Listed, Outline, BLOCK_INDEX_MIN_NODES, BLOCK_SIZE,
};
use crate::lists::{get_leftmost, linked_list};
use crate::model::{
    after, backtracked, bridged, healed, lemma_healed_len, pred, succ, turned, turned_to, Pt,
};
use crate::scalar::Scalar;

verus! {

/// Two rings have no node in common.
pub(crate) open spec fn apart(r: Seq<int>, s: Seq<int>) -> bool {
    r.to_set().disjoint(s.to_set())
}

/// A node of one of two rings that are apart is not in the other.
proof fn lemma_apart(r: Seq<int>, s: Seq<int>)
    requires
        apart(r, s),
    ensures
        apart(s, r),
        forall|h: int| #[trigger] r.contains(h) ==> !s.contains(h),
        forall|h: int| #[trigger] s.contains(h) ==> !r.contains(h),
{
    assert forall|h: int| #[trigger] r.contains(h) implies !s.contains(h) by {
        assert(r.to_set().contains(h));
        if s.contains(h) {
            assert(s.to_set().contains(h));
        }
    }
    assert forall|h: int| #[trigger] s.contains(h) implies !r.contains(h) by {
        if r.contains(h) {
            assert(!s.contains(h));
        }
    }
}

/// Rings that share no node are apart.
proof fn lemma_are_apart(r: Seq<int>, s: Seq<int>)
    requires
        forall|h: int| #[trigger] r.contains(h) ==> !s.contains(h),
    ensures
        apart(r, s),
{
    assert forall|h: int| #[trigger] r.to_set().contains(h) implies !s.to_set().contains(h) by {
        assert(r.contains(h));
    }
}

/// Whether rings have the same nodes can be told by their sets.
proof fn lemma_same_set(r: Seq<int>, s: Seq<int>)
    requires
        r.to_set() == s.to_set(),
    ensures
        forall|h: int| #[trigger] r.contains(h) <==> s.contains(h),
{
    assert forall|h: int| #[trigger] r.contains(h) <==> s.contains(h) by {
        assert(r.to_set().contains(h) == r.contains(h));
        assert(s.to_set().contains(h) == s.contains(h));
    }
}

/// The outline can be seen from any node of its ring.
proof fn lemma_outline_turned<C: Scalar>(arena: Arena<C>, o: Outline<C>, h: int)
    requires
        outline_is(arena, o),
        o.ring.contains(h),
    ensures
        outline_is(arena, (Outline { ring: seen_from(o.ring, h), ..o })),
        seen_from(o.ring, h)[0] == h,
        seen_from(o.ring, h).to_set() == o.ring.to_set(),
{
    let t = seen_from(o.ring, h);
    let n = Outline { ring: t, ..o };
    lemma_place(arena, o.ring, h);
    lemma_turned_to(arena.nodes@, o.ring, o.ring.index_of(h));
    lemma_same_set(t, o.ring);
    assert forall|j: int, k: int|
        0 <= j < n.lists.len() && 0 <= k < n.lists[j].len() implies #[trigger] tracked_node(
        arena,
        n.ring,
        n.lists[j][k],
    ) by {
        assert(tracked_node(arena, o.ring, o.lists[j][k]));
    }
}

/// Heals the ring of the outline around the edge from its first node.
fn heal<C: Scalar>(arena: &mut Arena<C>, start: usize, Ghost(o): Ghost<Outline<C>>) -> (res: usize)
    requires
        outline_is(*old(arena), o),
        start == o.ring[0],
    ensures
        outline_is(*final(arena), healed_outline(o)),
        res == healed_outline(o).ring[0],
        final(arena).filtered_out == (old(arena).filtered_out || healed_outline(o).ring.len()
            < o.ring.len()),
        kept(old(arena).nodes@, final(arena).nodes@, o.ring),
        final(arena).nodes@.len() == old(arena).nodes@.len(),
        forall|h: int| #[trigger]
            healed_outline(o).ring.contains(h) ==> o.ring.contains(h),
        forall|h: int|
            #![trigger final(arena).nodes@[h]]
            o.ring.contains(h) && !healed_outline(o).ring.contains(h) ==> dead(
                final(arena).nodes@,
                h,
            ) && (final(arena).nodes@[h].next == o.ring[1] <==> !backtracked(
                o.pts,
                o.ring,
            ).contains(h)),
{
    let ghost was = arena.nodes@;
    let ghost r = o.ring;
    proof {
        lemma_at(was, r, 0);
        assert forall|h: int| o.boxes.len() > 0 && #[trigger] r.contains(h) implies was[h].block
            < arena.block_bbox@.len() by {
            lemma_place(*arena, r, h);
            assert(o.owner[h] == was[h].block);
        }
        lemma_healed_len(o.pts, r);
    }
    let next: usize = arena.nodes[start].next;
    let res = filter_points(arena, start, Some(next), Ghost(r), Ghost(Seq::empty()));
    proof {
        let now = arena.nodes@;
        let n = healed_outline(o);
        assert(arena.block_bbox@ =~= n.boxes);
        assert(n.ring == healed(o.pts, r));
        assert(owners(now) =~= o.owner) by {
            assert forall|h: int| 0 <= h < was.len() implies now[h].block == was[h].block by {}
            assert(owners(was) =~= o.owner);
        }
        if o.boxes.len() > 0 {
            assert(index_is(*old(arena), o.boxes, o.lists));
            assert forall|j: int| 0 <= j < n.boxes.len() implies #[trigger] list_is(
                *arena,
                n.lists[j],
                j,
            ) by {
                assert(list_is(*old(arena), o.lists[j], j));
            }
        }
        assert forall|j: int, k: int|
            0 <= j < n.lists.len() && 0 <= k < n.lists[j].len() implies #[trigger] tracked_node(
            *arena,
            n.ring,
            n.lists[j][k],
        ) by {
            let h = o.lists[j][k];
            assert(tracked_node(*old(arena), r, h));
            if !n.ring.contains(h) {
                assert(dead(now, h));
            }
        }
        assert forall|h: int|
            #![trigger now[h]]
            r.contains(h) && !n.ring.contains(h) implies dead(now, h) && (now[h].next == r[1]
            <==> !backtracked(o.pts, r).contains(h)) by {
            lemma_place(*old(arena), r, h);
            assert(dead(now, h));
        }
    }
    res
}

/// A node that was dead before two rings were joined is dead after.
proof fn lemma_dead_spliced<C>(old: Seq<Node<C>>, new: Seq<Node<C>>, a: int, b: int, h: int)
    requires
        spliced(old, new, a, b),
        0 <= h < old.len(),
        dead(old, h),
        h != b,
        h != old[a].next,
    ensures
        dead(new, h),
{
    assert(new[h].prev == old[h].prev);
    let q = old[h].prev as int;
    assert(new[q].next == new[q].next);
}

/// The run of nodes that joining adds to the outline.
proof fn lemma_joined_run<C>(old: Seq<Node<C>>, new: Seq<Node<C>>, r: Seq<int>, s: Seq<int>)
    requires
        ring_ok(old, r),
        ring_ok(old, s),
        apart(r, s),
        spliced(old, new, r[0], s[0]),
    ensures
        ({
            let n = old.len() as int;
            is_run(new, slit_run(r[0], s, n), succ(r, 0))
        }),
        forall|h: int| #[trigger]
            slit_run(r[0], s, old.len() as int).contains(h) ==> joined(
                r,
                s,
                old.len() as int,
            ).contains(h),
{
    let n = old.len() as int;
    let m = s.len() as int;
    let run = slit_run(r[0], s, n);
    let tail = succ(r, 0);
    lemma_apart(r, s);
    lemma_at(old, r, 0);
    lemma_at(old, s, 0);
    assert(r.contains(r[0]) && r.contains(tail));
    assert forall|k: int| 0 <= k < m implies 0 <= #[trigger] s[k] < n && !r.contains(s[k]) by {
        assert(linked_at(old, s, k));
        assert(s.contains(s[k]));
    }
    assert forall|k: int| 0 <= k < run.len() implies #[trigger] runs_on(new, run, tail, k) by {
        if 1 <= k <= m {
            assert(run[k] == s[k - 1]);
            assert(linked_at(old, s, k - 1));
            if k < m {
                assert(run[k + 1] == s[k]);
                assert(s[k - 1] != s[m - 1]);
            } else {
                assert(run[k + 1] == n + 1);
            }
        } else if k == 0 {
            assert(run[1] == s[0]);
        }
    }
    assert(run.no_duplicates()) by {
        assert forall|i: int, k: int| 0 <= i < run.len() && 0 <= k < run.len() && i != k implies
            run[i] != run[k] by {
            if 1 <= i <= m {
                assert(run[i] == s[i - 1]);
            }
            if 1 <= k <= m {
                assert(run[k] == s[k - 1]);
            }
        }
    }
    assert forall|k: int| 1 <= k < run.len() implies #[trigger] run[k] != tail by {
        if k <= m {
            assert(run[k] == s[k - 1]);
        }
    }
    lemma_join_rings(old, new, r, s);
    assert forall|h: int| #[trigger] run.contains(h) implies joined(r, s, n).contains(h) by {
        let k = choose|k: int| 0 <= k < run.len() && run[k] == h;
        let t = joined(r, s, n);
        if 1 <= k <= m {
            assert(run[k] == s[k - 1]);
            assert(s.contains(h));
        } else if k == m + 1 {
            assert(t[0] == h);
        } else if k == m + 2 {
            assert(t[1] == h);
        } else {
            assert(r.contains(h));
        }
    }
}

/// The blocks of a run have the numbers that the index gives them.
proof fn lemma_run_owner(run: Seq<int>, h: int)
    requires
        run.contains(h),
    ensures
        0 <= run.index_of(h) / BLOCK_SIZE as int,
        run.index_of(h) / (BLOCK_SIZE as int) < chunk_count(run),
{
    let k = run.index_of(h);
    assert(0 <= k < run.len() && run[k] == h);
}

/// Every node on a list that indexing a run adds is in the run.
proof fn lemma_chunk_node(run: Seq<int>, j: int, k: int)
    requires
        run.len() > 0,
        0 <= j < chunk_count(run),
        0 <= k < run.subrange(chunk_start(run, j), chunk_start(run, j + 1)).len(),
    ensures
        run.contains(run.subrange(chunk_start(run, j), chunk_start(run, j + 1))[k]),
{
    assert(run.subrange(chunk_start(run, j), chunk_start(run, j + 1))[k] == run[chunk_start(run, j)
        + k]);
}

/// Joins a hole to the outer ring by a bridge to the node `b`, and indexes what that adds.
fn connect<C: Scalar>(
    arena: &mut Arena<C>,
    b: usize,
    hole: usize,
    Ghost(o): Ghost<Outline<C>>,
    Ghost(s): Ghost<Seq<int>>,
) -> (b2: usize)
    requires
        outline_is(*old(arena), o),
        o.ring.contains(b as int),
        ring_ok(old(arena).nodes@, s),
        hole == s[0],
        apart(o.ring, s),
    ensures
        outline_is(*final(arena), connected(o, s, b as int)),
        b2 == connected(o, s, b as int).ring[0],
        kept(old(arena).nodes@, final(arena).nodes@, o.ring + s),
        final(arena).nodes@.len() == old(arena).nodes@.len() + 2,
        connected(o, s, b as int).ring.contains(b as int),
        connected(o, s, b as int).ring[1] == old(arena).nodes@.len(),
        forall|h: int|
            0 <= h < old(arena).nodes@.len() && #[trigger] connected(o, s, b as int).ring.contains(
                h,
            ) ==> o.ring.contains(h) || s.contains(h),
{
    let ghost was = arena.nodes@;
    let ghost n = was.len() as int;
    let ghost r = seen_from(o.ring, b as int);
    let ghost c = connected(o, s, b as int);
    proof {
        lemma_outline_turned(*arena, o, b as int);
        lemma_same_set(r, o.ring);
        lemma_apart(o.ring, s);
        lemma_are_apart(r, s);
        lemma_at(was, r, 0);
        lemma_at(was, s, 0);
        assert(r.contains(r[0]) && r.contains(succ(r, 0)));
        assert(s.contains(s[0]) && s.contains(pred(s, 0)));
    }
    let b2 = arena.split_polygon(b, hole);
    let ghost mid = arena.nodes@;
    proof {
        lemma_join_rings(was, mid, r, s);
        assert forall|h: int| #[trigger] (r + s).contains(h) implies (o.ring + s).contains(h) by {
            let k = choose|k: int| 0 <= k < (r + s).len() && (r + s)[k] == h;
            if k < r.len() {
                assert(r.contains(h));
                let i = o.ring.index_of(h);
                assert((o.ring + s)[i] == h);
            } else {
                assert((o.ring + s)[k - r.len() + o.ring.len()] == h);
            }
        }
        lemma_kept_same(was, mid, r + s, o.ring + s);
        lemma_joined_run(was, mid, r, s);
        assert(owners(mid) =~= o.owner.push(0).push(0)) by {
            assert(owners(was) =~= o.owner);
        }
    }
    let ghost all = Outline {
        pts: bridged(o.pts, b as int, s[0]),
        ring: joined(r, s, n),
        owner: o.owner.push(0).push(0),
        ..o
    };
    let ghost run = slit_run(b as int, s, n);
    let ghost tail = succ(r, 0);
    assert(all.ring[0] == n + 1 && all.ring[1] == n);
    proof {
        lemma_at(mid, all.ring, 0);
        lemma_at(mid, all.ring, 1);
        assert(r.contains(b as int));
        assert(all.ring.contains(b as int));
        assert forall|j: int, k: int|
            0 <= j < o.lists.len() && 0 <= k < o.lists[j].len() implies #[trigger] tracked_node(
            *arena,
            all.ring,
            o.lists[j][k],
        ) by {
            let h = o.lists[j][k];
            assert(tracked_node(*old(arena), o.ring, h));
            if !o.ring.contains(h) {
                if s.contains(h) {
                    let i = choose|i: int| 0 <= i < s.len() && s[i] == h;
                    lemma_at(was, s, i);
                    lemma_at(was, s, crate::model::before(i, s.len() as int));
                }
                lemma_dead_spliced(was, mid, b as int, s[0], h);
            } else {
                assert(r.contains(h));
            }
        }
    }
    if arena.index_active {
        proof {
            assert forall|j: int| 0 <= j < o.boxes.len() implies #[trigger] list_is(
                *arena,
                o.lists[j],
                j,
            ) by {
                assert(list_is(*old(arena), o.lists[j], j));
            }
        }
        let bridge2: usize = arena.nodes[b2].next;
        let bridge2_next: usize = arena.nodes[bridge2].next;
        let ghost before = *arena;
        // index the merged-in segment before healing: the bridge, the hole, and both new nodes
        arena.index_segment(b, bridge2_next, Ghost(run), Ghost(all));
        proof {
            let now = arena.nodes@;
            assert(c == indexed(all, run, tail));
            assert forall|h: int| #[trigger] all.ring.contains(h) implies run.contains(h)
                || o.ring.contains(h) by {
                let k = choose|k: int| 0 <= k < all.ring.len() && all.ring[k] == h;
                if k == 0 {
                    assert(run[s.len() as int + 1] == h);
                } else if k == 1 {
                    assert(run[s.len() as int + 2] == h);
                } else if k < r.len() + 2 {
                    assert(turned(r)[k - 2] == h);
                    assert(r.contains(h)) by {
                        assert(r[after(k - 2, r.len() as int)] == h);
                    }
                } else {
                    assert(s[k - 2 - r.len()] == h);
                    assert(run[k - 1 - r.len()] == h);
                }
            }
            assert forall|h: int| #[trigger] o.ring.contains(h) implies 0 <= all.owner[h]
                < o.boxes.len() by {
                lemma_place(*old(arena), o.ring, h);
                assert(all.owner[h] == o.owner[h]);
            }
            lemma_indexed_outline(before, *arena, all, run, tail, o.ring);
            assert forall|h: int| #![trigger now[h]] 0 <= h < mid.len() implies now[h].pt()
                == mid[h].pt() && now[h].prev == mid[h].prev && now[h].next == mid[h].next by {}
            lemma_kept_trans(was, mid, now, o.ring + s, Seq::empty());
        }
    } else {
        assert(c == all);
    }
    b2
}

/// Indexing a run that covers what is new in the ring gives an outline.
proof fn lemma_indexed_outline<C: Scalar>(
    before: Arena<C>,
    now: Arena<C>,
    o: Outline<C>,
    run: Seq<int>,
    tail: int,
    covered: Seq<int>,
)
    requires
        ring_ok(before.nodes@, o.ring),
        o.lists.len() == o.boxes.len(),
        is_run(before.nodes@, run, tail),
        now.nodes@.len() == before.nodes@.len(),
        forall|h: int|
            #![trigger now.nodes@[h]]
            0 <= h < before.nodes@.len() ==> now.nodes@[h] == (Node {
                block: now.nodes@[h].block,
                ..before.nodes@[h]
            }),
        now.pts() == o.pts,
        z_in_bounds(now.nodes@),
        now.index_active,
        owners(now.nodes@) == indexed(o, run, tail).owner,
        index_is(now, indexed(o, run, tail).boxes, indexed(o, run, tail).lists),
        forall|j: int, k: int|
            0 <= j < o.lists.len() && 0 <= k < o.lists[j].len() ==> #[trigger] tracked_node(
                before,
                o.ring,
                o.lists[j][k],
            ),
        forall|h: int| #[trigger] run.contains(h) ==> o.ring.contains(h),
        forall|h: int| #[trigger] o.ring.contains(h) ==> run.contains(h) || covered.contains(h),
        forall|h: int| #[trigger]
            covered.contains(h) && o.ring.contains(h) ==> run.contains(h) || 0 <= o.owner[h]
                < o.boxes.len(),
        o.owner.len() == before.nodes@.len(),
    ensures
        outline_is(now, indexed(o, run, tail)),
{
    let n = indexed(o, run, tail);
    let base = o.lists.len() as int;
    assert forall|k: int| 0 <= k < o.ring.len() implies #[trigger] linked_at(
        now.nodes@,
        o.ring,
        k,
    ) by {
        assert(linked_at(before.nodes@, o.ring, k));
    }
    assert forall|j: int, k: int|
        0 <= j < n.lists.len() && 0 <= k < n.lists[j].len() implies #[trigger] tracked_node(
        now,
        n.ring,
        n.lists[j][k],
    ) by {
        let h = n.lists[j][k];
        if j < base {
            assert(n.lists[j] == o.lists[j]);
            assert(tracked_node(before, o.ring, o.lists[j][k]));
            if !o.ring.contains(h) {
                let q = before.nodes@[h].prev as int;
                assert(now.nodes@[h].prev == q);
                assert(now.nodes@[q].next == before.nodes@[q].next);
            }
        } else {
            lemma_chunk_node(run, j - base, k);
            assert(n.lists[j] == run.subrange(
                chunk_start(run, j - base),
                chunk_start(run, j - base + 1),
            ));
            assert(o.ring.contains(h));
            lemma_place(before, o.ring, h);
        }
    }
    assert(chunk_count(run) > 0);
    assert forall|h: int| #[trigger] n.ring.contains(h) implies 0 <= n.owner[h] < n.boxes.len() by {
        lemma_place(before, o.ring, h);
        if run.contains(h) {
            lemma_run_owner(run, h);
            assert(n.owner[h] == base + run.index_of(h) / BLOCK_SIZE as int);
        } else {
            assert(covered.contains(h) && o.ring.contains(h));
            assert(n.owner[h] == o.owner[h]);
        }
    }
}

/// Finds a bridge between vertices that connects a hole with the outer ring, and links it.
fn eliminate_hole<C: Scalar>(
    arena: &mut Arena<C>,
    hole: usize,
    outer_node: usize,
    Ghost(o): Ghost<Outline<C>>,
    Ghost(s): Ghost<Seq<int>>,
) -> (res: usize)
    requires
        outline_is(*old(arena), o),
        outer_node == o.ring[0],
        ring_ok(old(arena).nodes@, s),
        hole == s[0],
        apart(o.ring, s),
    ensures
        outline_is(*final(arena), merged(o, s)),
        res == merged(o, s).ring[0],
        kept(old(arena).nodes@, final(arena).nodes@, o.ring + s),
        forall|h: int|
            0 <= h < old(arena).nodes@.len() && #[trigger] merged(o, s).ring.contains(h)
                ==> o.ring.contains(h) || s.contains(h),
{
    let ghost was = arena.nodes@;
    let ghost n = was.len() as int;
    proof {
        lemma_at(was, s, 0);
    }
    let bridge = match find_hole_bridge(arena, hole, outer_node, Ghost(o)) {
        Some(b) => b,
        None => {
            return outer_node;
        },
    };
    let ghost b = bridge as int;
    let ghost c = connected(o, s, b);
    let bridge_reverse = connect(arena, bridge, hole, Ghost(o), Ghost(s));
    let ghost joined_nodes = arena.nodes@;
    proof {
        lemma_at(joined_nodes, c.ring, 0);
        lemma_place(*arena, c.ring, b);
        assert forall|h: int| 0 <= h < n && #[trigger] c.ring.contains(h) implies (o.ring
            + s).contains(h) by {
            lemma_in_sum(o.ring, s, h);
        }
    }
    let bridge2: usize = arena.nodes[bridge_reverse].next;
    // heal collinear and coincident points around the two new slit edges
    let ghost one = healed_outline(c);
    let end = heal(arena, bridge_reverse, Ghost(c));
    let ghost healed_nodes = arena.nodes@;
    proof {
        lemma_kept_trans(was, joined_nodes, healed_nodes, o.ring + s, c.ring);
        assert(dead(healed_nodes, b) || one.ring.contains(b));
        if one.ring.contains(b) {
            lemma_place(*arena, one.ring, b);
            lemma_at(
                healed_nodes,
                one.ring,
                crate::model::before(one.ring.index_of(b), one.ring.len() as int),
            );
        }
    }
    let bridge_prev: usize = arena.nodes[bridge].prev;
    if arena.is_live(bridge, bridge_prev) {
        let ghost two = Outline { ring: seen_from(one.ring, b), ..one };
        proof {
            lemma_outline_turned(*arena, one, b);
            lemma_same_set(two.ring, one.ring);
        }
        let res = heal(arena, bridge, Ghost(two));
        proof {
            lemma_kept_trans(was, healed_nodes, arena.nodes@, o.ring + s, two.ring);
        }
        res
    } else if arena.nodes[bridge].next == bridge2 {
        // the bridge has been dropped on the way back from the first edge, which has been healed
        end
    } else {
        // the bridge has been dropped on the way back from the edge after the first
        let res = heal(arena, end, Ghost(one));
        proof {
            lemma_kept_trans(was, healed_nodes, arena.nodes@, o.ring + s, one.ring);
        }
        res
    }
}

/// A node of either ring is in both put together.
proof fn lemma_in_sum(r: Seq<int>, s: Seq<int>, h: int)
    ensures
        (r + s).contains(h) <==> r.contains(h) || s.contains(h),
{
    if r.contains(h) {
        let k = choose|k: int| 0 <= k < r.len() && r[k] == h;
        assert((r + s)[k] == h);
    }
    if s.contains(h) {
        let k = choose|k: int| 0 <= k < s.len() && s[k] == h;
        assert((r + s)[k + r.len()] == h);
    }
    if (r + s).contains(h) {
        let k = choose|k: int| 0 <= k < (r + s).len() && (r + s)[k] == h;
        if k < r.len() {
            assert(r[k] == h);
        } else {
            assert(s[k - r.len()] == h);
        }
    }
}

// ---------------------------------------------------------------------------------------------
// The queue of holes
// ---------------------------------------------------------------------------------------------
/// The holes are rings that are apart from each other.
pub(crate) open spec fn holes_ok<C>(nodes: Seq<Node<C>>, q: Seq<Seq<int>>) -> bool {
    &&& forall|k: int| 0 <= k < q.len() ==> #[trigger] ring_ok(nodes, q[k])
    &&& forall|j: int, k: int|
        0 <= j < q.len() && 0 <= k < q.len() && j != k ==> #[trigger] apart(q[j], q[k])
}

/// The queue holds the first nodes of the holes.
pub(crate) open spec fn heads_are(queue: Seq<usize>, q: Seq<Seq<int>>) -> bool {
    &&& queue.len() == q.len()
    &&& forall|k: int| 0 <= k < q.len() ==> #[trigger] queue[k] == q[k][0]
}

/// Compares two holes by their first nodes, and those in the same place by the slopes of their
/// edges; tells whether the first hole comes after the second.
fn compare_xy_slope<C: Scalar>(
    arena: &Arena<C>,
    a: usize,
    b: usize,
    Ghost(r): Ghost<Seq<int>>,
    Ghost(s): Ghost<Seq<int>>,
) -> (res: bool)
    requires
        ring_ok(arena.nodes@, r),
        ring_ok(arena.nodes@, s),
        a == r[0],
        b == s[0],
    ensures
        res == comes_after(arena.pts(), r, s),
{
    proof {
        lemma_at(arena.nodes@, r, 0);
        lemma_at(arena.nodes@, s, 0);
    }
    let an = arena.nodes[a];
    let bn = arena.nodes[b];
    if !an.x.same(bn.x) {
        return bn.x.less(an.x);
    }
    if !an.y.same(bn.y) {
        return bn.y.less(an.y);
    }
    let a_next = arena.nodes[an.next];
    let b_next = arena.nodes[bn.next];
    let slope_a = a_next.y.minus(an.y).over(a_next.x.minus(an.x));
    let slope_b = b_next.y.minus(bn.y).over(b_next.x.minus(bn.x));
    slope_b.less(slope_a)
}

/// Putting a hole in its place adds it and keeps the others.
pub proof fn lemma_put_in<C: Scalar>(pts: Seq<Pt<C>>, q: Seq<Seq<int>>, hole: Seq<int>)
    ensures
        put_in(pts, q, hole).to_multiset() == q.to_multiset().insert(hole),
        put_in(pts, q, hole).len() == q.len() + 1,
    decreases q.len(),
{
    broadcast use vstd::seq_lib::group_to_multiset_ensures;

    if q.len() > 0 && comes_after(pts, q.last(), hole) {
        lemma_put_in(pts, q.drop_last(), hole);
        assert(q.drop_last().push(q.last()) =~= q);
        assert(put_in(pts, q, hole).to_multiset() =~= q.to_multiset().insert(hole));
    }
}

/// Putting holes in order keeps them all.
pub proof fn lemma_in_order<C: Scalar>(pts: Seq<Pt<C>>, q: Seq<Seq<int>>)
    ensures
        in_order(pts, q).to_multiset() == q.to_multiset(),
        in_order(pts, q).len() == q.len(),
    decreases q.len(),
{
    broadcast use vstd::seq_lib::group_to_multiset_ensures;

    if q.len() > 0 {
        lemma_in_order(pts, q.drop_last());
        lemma_put_in(pts, in_order(pts, q.drop_last()), q.last());
        assert(q.drop_last().push(q.last()) =~= q);
    }
}

/// The holes are rings apart from each other in whatever order.
proof fn lemma_holes_permuted<C>(nodes: Seq<Node<C>>, q: Seq<Seq<int>>, s: Seq<Seq<int>>)
    requires
        holes_ok(nodes, q),
        s.to_multiset() == q.to_multiset(),
    ensures
        holes_ok(nodes, s),
{
    broadcast use vstd::seq_lib::group_to_multiset_ensures;

    assert forall|j: int, k: int| 0 <= j < q.len() && 0 <= k < q.len() && j != k implies q[j]
        != q[k] by {
        assert(apart(q[j], q[k]));
        lemma_apart(q[j], q[k]);
        assert(ring_ok(nodes, q[j]));
        assert(q[j].contains(q[j][0]));
    }
    assert(q.no_duplicates());
    q.lemma_multiset_has_no_duplicates();
    s.lemma_multiset_has_no_duplicates_conv();
    assert forall|k: int| 0 <= k < s.len() implies #[trigger] q.contains(s[k]) by {
        assert(s.contains(s[k]));
        assert(s.to_multiset().count(s[k]) > 0);
    }
    assert forall|k: int| 0 <= k < s.len() implies #[trigger] ring_ok(nodes, s[k]) by {
        assert(q.contains(s[k]));
        let i = choose|i: int| 0 <= i < q.len() && q[i] == s[k];
        assert(ring_ok(nodes, q[i]));
    }
    assert forall|j: int, k: int|
        0 <= j < s.len() && 0 <= k < s.len() && j != k implies #[trigger] apart(s[j], s[k]) by {
        assert(q.contains(s[j]) && q.contains(s[k]));
        assert(s[j] != s[k]);
        let i = choose|i: int| 0 <= i < q.len() && q[i] == s[j];
        let l = choose|l: int| 0 <= l < q.len() && q[l] == s[k];
        assert(apart(q[i], q[l]));
    }
}

/// Where a hole is put, seen while holes that come after it are passed.
proof fn lemma_put_in_front<C: Scalar>(
    pts: Seq<Pt<C>>,
    q: Seq<Seq<int>>,
    hole: Seq<int>,
    j: int,
)
    requires
        0 < j <= q.len(),
        comes_after(pts, q[j - 1], hole),
        put_in(pts, q, hole) == put_in(pts, q.take(j), hole) + q.skip(j),
    ensures
        put_in(pts, q, hole) == put_in(pts, q.take(j - 1), hole) + q.skip(j - 1),
{
    let t = q.take(j);
    assert(t.drop_last() =~= q.take(j - 1));
    assert(t.last() == q[j - 1]);
    assert(put_in(pts, t, hole) == put_in(pts, q.take(j - 1), hole).push(q[j - 1]));
    assert(put_in(pts, q, hole) =~= put_in(pts, q.take(j - 1), hole) + q.skip(j - 1)) by {
        assert(q.skip(j - 1) =~= seq![q[j - 1]] + q.skip(j));
    }
}

/// Puts the last hole of the queue in its place among those before it, which are in order.
fn put_last_in_place<C: Scalar>(
    arena: &Arena<C>,
    queue: &mut Vec<usize>,
    i: usize,
    Ghost(q): Ghost<Seq<Seq<int>>>,
    Ghost(rest): Ghost<Seq<Seq<int>>>,
    Ghost(s): Ghost<Seq<int>>,
)
    requires
        i < old(queue)@.len(),
        q.len() == i,
        forall|k: int| 0 <= k < q.len() ==> #[trigger] ring_ok(arena.nodes@, q[k]),
        ring_ok(arena.nodes@, s),
        heads_are(old(queue)@, q.push(s) + rest),
    ensures
        heads_are(final(queue)@, put_in(arena.pts(), q, s) + rest),
{
    let ghost pts = arena.pts();
    let ghost full = q.push(s) + rest;
    let ghost was = queue@;
    assert(was[i as int] == full[i as int][0]);
    let hole: usize = queue[i];
    let mut j: usize = i;
    proof {
        assert(q.take(i as int) =~= q);
        assert(put_in(pts, q, s) + q.skip(i as int) =~= put_in(pts, q, s));
        assert forall|k: int| 0 <= k < i implies #[trigger] was[k] == q[k][0] by {
            assert(was[k] == full[k][0]);
        }
        assert forall|k: int| i < k < was.len() implies #[trigger] was[k] == rest[k - i - 1][0] by {
            assert(was[k] == full[k][0]);
        }
    }
    loop
        invariant
            i < queue@.len(),
            queue@.len() == was.len(),
            was.len() == i + 1 + rest.len(),
            q.len() == i,
            j <= i,
            pts == arena.pts(),
            hole == s[0],
            ring_ok(arena.nodes@, s),
            forall|k: int| 0 <= k < q.len() ==> #[trigger] ring_ok(arena.nodes@, q[k]),
            forall|k: int| 0 <= k < j ==> #[trigger] queue@[k] == q[k][0],
            forall|k: int| j < k <= i ==> #[trigger] queue@[k] == q[k - 1][0],
            forall|k: int| i < k < was.len() ==> #[trigger] queue@[k] == rest[k - i - 1][0],
            put_in(pts, q, s) == put_in(pts, q.take(j as int), s) + q.skip(j as int),
        ensures
            j == 0 || !comes_after(pts, q[j - 1], s),
        decreases j,
    {
        if j == 0 {
            break ;
        }
        assert(ring_ok(arena.nodes@, q[j - 1]));
        assert(queue@[j - 1] == q[j - 1][0]);
        if !compare_xy_slope(arena, queue[j - 1], hole, Ghost(q[j - 1]), Ghost(s)) {
            break ;
        }
        proof {
            lemma_put_in_front(pts, q, s, j as int);
        }
        let moved: usize = queue[j - 1];
        queue.set(j, moved);
        j = j - 1;
    }
    queue.set(j, hole);
    proof {
        let t = q.take(j as int);
        assert(j > 0 ==> t.last() == q[j - 1]);
        let done = put_in(pts, q, s);
        assert(done =~= t.push(s) + q.skip(j as int));
        let all = done + rest;
        lemma_put_in(pts, q, s);
        assert forall|k: int| 0 <= k < all.len() implies #[trigger] queue@[k] == all[k][0] by {
            if k < j {
                assert(all[k] == q[k]);
            } else if k == j {
                assert(all[k] == s);
            } else if k <= i {
                assert(all[k] == q[k - 1]);
            } else {
                assert(all[k] == rest[k - i - 1]);
            }
        }
    }
}

/// Puts the holes in the order in which they are merged, by insertion.
fn sort_queue<C: Scalar>(arena: &Arena<C>, queue: &mut Vec<usize>, Ghost(q): Ghost<Seq<Seq<int>>>)
    requires
        heads_are(old(queue)@, q),
        holes_ok(arena.nodes@, q),
    ensures
        heads_are(final(queue)@, in_order(arena.pts(), q)),
{
    let ghost pts = arena.pts();
    let n: usize = queue.len();
    let mut i: usize = 0;
    proof {
        assert(q.take(0) =~= Seq::<Seq<int>>::empty());
        assert(in_order(pts, q.take(0)) + q.skip(0) =~= q);
    }
    while i < n
        invariant
            n == q.len(),
            i <= n,
            pts == arena.pts(),
            holes_ok(arena.nodes@, q),
            heads_are(queue@, in_order(pts, q.take(i as int)) + q.skip(i as int)),
        decreases n - i,
    {
        let ghost front = in_order(pts, q.take(i as int));
        let ghost s = q[i as int];
        let ghost rest = q.skip(i + 1);
        proof {
            lemma_in_order(pts, q.take(i as int));
            assert forall|j: int, k: int|
                0 <= j < i && 0 <= k < i && j != k implies #[trigger] apart(
                q.take(i as int)[j],
                q.take(i as int)[k],
            ) by {
                assert(apart(q[j], q[k]));
            }
            assert forall|k: int| 0 <= k < i implies #[trigger] ring_ok(
                arena.nodes@,
                q.take(i as int)[k],
            ) by {
                assert(ring_ok(arena.nodes@, q[k]));
            }
            lemma_holes_permuted(arena.nodes@, q.take(i as int), front);
            assert(front + q.skip(i as int) =~= front.push(s) + rest);
            assert(ring_ok(arena.nodes@, q[i as int]));
        }
        put_last_in_place(arena, queue, i, Ghost(front), Ghost(rest), Ghost(s));
        proof {
            assert(q.take(i + 1).drop_last() =~= q.take(i as int));
        }
        i = i + 1;
    }
    proof {
        assert(q.take(n as int) =~= q);
        assert(in_order(pts, q) + q.skip(n as int) =~= in_order(pts, q));
    }
}

/// A hole read from the data goes to the end of the queue.
proof fn lemma_hole_added<C>(
    before: Seq<Node<C>>,
    now: Seq<Node<C>>,
    q: Seq<Seq<int>>,
    s: Seq<int>,
    n: int,
)
    requires
        holes_ok(before, q),
        kept(before, now, Seq::empty()),
        ring_ok(now, s),
        forall|h: int| #[trigger] s.contains(h) ==> h >= before.len(),
        forall|k: int, h: int|
            0 <= k < q.len() && #[trigger] q[k].contains(h) ==> n <= h,
        n <= before.len(),
    ensures
        holes_ok(now, q.push(s)),
        forall|k: int, h: int|
            0 <= k <= q.len() && #[trigger] q.push(s)[k].contains(h) ==> n <= h,
{
    let t = q.push(s);
    assert forall|k: int| 0 <= k < t.len() implies #[trigger] ring_ok(now, t[k]) by {
        if k < q.len() {
            assert(ring_ok(before, q[k]));
            lemma_are_apart(q[k], Seq::<int>::empty());
            lemma_ring_frame(before, now, Seq::empty(), q[k]);
        }
    }
    assert forall|j: int| 0 <= j < q.len() implies #[trigger] apart(q[j], s) && apart(s, q[j]) by {
        assert(ring_ok(before, q[j]));
        assert forall|h: int| #[trigger] q[j].contains(h) implies !s.contains(h) by {
            let k = choose|k: int| 0 <= k < q[j].len() && q[j][k] == h;
            lemma_at(before, q[j], k);
        }
        lemma_are_apart(q[j], s);
        lemma_apart(q[j], s);
    }
    assert forall|j: int, k: int|
        0 <= j < t.len() && 0 <= k < t.len() && j != k implies #[trigger] apart(t[j], t[k]) by {
        if j < q.len() && k < q.len() {
            assert(apart(q[j], q[k]));
        } else if j < q.len() {
            assert(apart(q[j], s));
        } else {
            assert(apart(q[k], s));
        }
    }
    assert forall|k: int, h: int|
        0 <= k <= q.len() && #[trigger] t[k].contains(h) implies n <= h by {
        if k < q.len() {
            assert(q[k].contains(h));
        }
    }
}

/// Reads the holes from the data and queues the leftmost node of each.
pub(crate) fn queue_holes<C: Scalar>(
    arena: &mut Arena<C>,
    data: &[C],
    hole_indices: &[usize],
    dim: usize,
) -> (queue: Vec<usize>)
    requires
        dim >= 2,
        data@.len() % (dim as nat) == 0,
        holes_fit(data@.len() as int / dim as int, hole_indices@),
        z_in_bounds(old(arena).nodes@),
        unowned(old(arena).nodes@),
        !old(arena).index_active,
    ensures
        ({
            let q = queued(
                old(arena).pts(),
                data@,
                dim as int,
                hole_indices@,
                hole_indices@.len() as int,
            );
            &&& final(arena).pts() == q.pts
            &&& heads_are(queue@, q.holes)
            &&& holes_ok(final(arena).nodes@, q.holes)
            &&& forall|k: int, h: int|
                0 <= k < q.holes.len() && #[trigger] q.holes[k].contains(h) ==> h >= old(
                    arena,
                ).nodes@.len()
        }),
        kept(old(arena).nodes@, final(arena).nodes@, Seq::empty()),
        z_in_bounds(final(arena).nodes@),
        unowned(final(arena).nodes@),
        final(arena).same_state(*old(arena)),
        final(arena).block_bbox == old(arena).block_bbox,
{
    let ghost was = arena.nodes@;
    let ghost count = data@.len() as int / dim as int;
    let ghost base = arena.pts();
    let len: usize = hole_indices.len();
    let size: usize = data.len();
    let mut queue: Vec<usize> = Vec::new();
    let mut i: usize = 0;
    proof {
        lemma_count(data@.len() as int, dim as int);
    }
    while i < len
        invariant
            dim >= 2,
            len == hole_indices@.len(),
            count == data@.len() as int / dim as int,
            count * dim == data@.len(),
            size == data@.len(),
            holes_fit(count, hole_indices@),
            i <= len,
            ({
                let q = queued(base, data@, dim as int, hole_indices@, i as int);
                &&& arena.pts() == q.pts
                &&& heads_are(queue@, q.holes)
                &&& holes_ok(arena.nodes@, q.holes)
                &&& forall|k: int, h: int|
                    0 <= k < q.holes.len() && #[trigger] q.holes[k].contains(h) ==> h >= was.len()
            }),
            was.len() <= arena.nodes@.len(),
            kept(was, arena.nodes@, Seq::empty()),
            z_in_bounds(arena.nodes@),
            unowned(arena.nodes@),
            !arena.index_active,
            arena.same_state(*old(arena)),
            arena.block_bbox == old(arena).block_bbox,
        decreases len - i,
    {
        let ghost q = queued(base, data@, dim as int, hole_indices@, i as int);
        let ghost from = hole_indices@[i as int] as int;
        let ghost to = hole_end(hole_indices@, count, i as int);
        let ghost before = arena.nodes@;
        proof {
            lemma_fits(from, count, dim as int);
            lemma_fits(to, count, dim as int);
        }
        let start: usize = hole_indices[i] * dim;
        let end: usize = if i < len - 1 {
            hole_indices[i + 1] * dim
        } else {
            size
        };
        let ghost l = listed(q.pts, data@, dim as int, from, to, false);
        let list = linked_list(arena, data, start, end, dim, false, Ghost(from), Ghost(to));
        let ghost mid = arena.nodes@;
        match list {
            Some(list) => {
                proof {
                    lemma_at(mid, l.ring, 0);
                    if l.ring.len() > 1 {
                        assert(l.ring[0] != l.ring[1]);
                    }
                }
                if list == arena.nodes[list].next {
                    arena.nodes[list].steiner = true;
                }
                let ghost now = arena.nodes@;
                let ghost next = queued(base, data@, dim as int, hole_indices@, i + 1);
                proof {
                    assert(arena.pts() =~= next.pts);
                    assert forall|k: int| 0 <= k < l.ring.len() implies #[trigger] linked_at(
                        now,
                        l.ring,
                        k,
                    ) by {
                        assert(linked_at(mid, l.ring, k));
                    }
                    assert forall|h: int| 0 <= h < now.len() implies #[trigger] now[h].block
                        == 0 by {
                        assert(mid[h].block == 0);
                    }
                    assert(l.ring.contains(l.ring[0]));
                    assert(list >= before.len());
                    assert forall|h: int| #![trigger now[h]] 0 <= h < before.len() implies now[h]
                        == mid[h] by {}
                    assert(kept(before, now, Seq::empty())) by {
                        assert forall|h: int|
                            #![trigger now[h]]
                            #![trigger before[h]]
                            0 <= h < before.len() implies now[h].pt() == before[h].pt()
                            && now[h].prev == before[h].prev && now[h].next == before[h].next by {
                            assert(mid[h].pt() == before[h].pt());
                            assert(!Seq::<int>::empty().contains(h));
                        }
                    }
                }
                let first = get_leftmost(arena, list, Ghost(l.ring));
                queue.push(first);
                proof {
                    let at = leftmost(arena.pts(), l.ring, l.ring.len() as int);
                    let s = turned_to(l.ring, at);
                    lemma_turned_to(now, l.ring, at);
                    lemma_same_set(s, l.ring);
                    assert(s[0] == l.ring[at]);
                    if l.ring.len() == 1 {
                        assert(s =~= l.ring);
                    }
                    assert(next.holes == q.holes.push(s));
                    lemma_hole_added(before, now, q.holes, s, was.len() as int);
                    lemma_kept_trans(was, before, now, Seq::empty(), Seq::empty());
                    assert forall|k: int| 0 <= k < next.holes.len() implies #[trigger] queue@[k]
                        == next.holes[k][0] by {}
                }
            },
            None => {
                proof {
                    assert(l.pts =~= q.pts);
                    lemma_kept_trans(was, before, mid, Seq::empty(), Seq::empty());
                    assert forall|k: int| 0 <= k < q.holes.len() implies #[trigger] ring_ok(
                        mid,
                        q.holes[k],
                    ) by {
                        assert(ring_ok(before, q.holes[k]));
                        lemma_are_apart(q.holes[k], Seq::<int>::empty());
                        lemma_ring_frame(before, mid, Seq::empty(), q.holes[k]);
                    }
                }
            },
        }
        i = i + 1;
    }
    queue
}

/// The vertices fill the data.
pub(crate) proof fn lemma_count(len: int, dim: int)
    requires
        dim > 0,
        len % dim == 0,
    ensures
        (len / dim) * dim == len,
{
    vstd::arithmetic::div_mod::lemma_fundamental_div_mod(len, dim);
    assert(dim * (len / dim) == (len / dim) * dim) by (nonlinear_arith);
}

/// The coordinates of a vertex in range stand in the data.
pub(crate) proof fn lemma_fits(v: int, count: int, dim: int)
    requires
        0 <= v <= count,
        dim > 0,
    ensures
        0 <= v * dim <= count * dim,
{
    assert(0 <= v * dim <= count * dim) by (nonlinear_arith)
        requires
            0 <= v <= count,
            dim > 0,
    ;
}

/// Links every hole into the outer loop, producing a single-ring polygon without holes.
pub(crate) fn eliminate_holes<C: Scalar>(
    arena: &mut Arena<C>,
    data: &[C],
    hole_indices: &[usize],
    outer_node: usize,
    dim: usize,
    Ghost(l): Ghost<Listed<C>>,
) -> (res: usize)
    requires
        dim >= 2,
        data@.len() % (dim as nat) == 0,
        holes_fit(data@.len() as int / dim as int, hole_indices@),
        old(arena).pts() == l.pts,
        ring_ok(old(arena).nodes@, l.ring),
        outer_node == l.ring[0],
        z_in_bounds(old(arena).nodes@),
        unowned(old(arena).nodes@),
        !old(arena).index_active,
        old(arena).block_bbox@.len() == 0,
    ensures
        ({
            let w = without_holes(l, data@, dim as int, hole_indices@);
            &&& final(arena).pts() == w.pts
            &&& ring_ok(final(arena).nodes@, w.ring)
            &&& res == w.ring[0]
        }),
        z_in_bounds(final(arena).nodes@),
        !final(arena).index_active,
{
    let ghost was = arena.nodes@;
    let ghost q = queued(l.pts, data@, dim as int, hole_indices@, hole_indices@.len() as int);
    let mut queue = queue_holes(arena, data, hole_indices, dim);
    let ghost listed_nodes = arena.nodes@;
    let ghost s = in_order(q.pts, q.holes);
    sort_queue(arena, &mut queue, Ghost(q.holes));
    let ghost count = data@.len() as int / dim as int;
    let ghost start = outline(q.pts, l.ring, count);
    proof {
        lemma_in_order(q.pts, q.holes);
        lemma_holes_permuted(listed_nodes, q.holes, s);
        lemma_are_apart(l.ring, Seq::<int>::empty());
        lemma_ring_frame(was, listed_nodes, Seq::empty(), l.ring);
        lemma_outer_apart(was, listed_nodes, l.ring, q.holes, s);
    }
    // The index amortizes its setup cost on larger rings. Small polygons are faster with the
    // linear bridge scan.
    let use_block_index: bool = data.len() / dim >= BLOCK_INDEX_MIN_NODES;
    if use_block_index {
        let ghost bare = Outline {
            pts: q.pts,
            ring: l.ring,
            boxes: Seq::empty(),
            lists: Seq::empty(),
            owner: Seq::new(q.pts.len(), |h: int| 0),
        };
        arena.build_block_index();
        proof {
            assert(owners(arena.nodes@) =~= bare.owner);
            lemma_ring_run(arena.nodes@, l.ring);
        }
        let ghost before = *arena;
        arena.index_segment(outer_node, outer_node, Ghost(l.ring), Ghost(bare));
        let ghost filled = *arena;
        arena.index_active = true;
        proof {
            let n = indexed(bare, l.ring, l.ring[0]);
            assert forall|j: int| 0 <= j < n.boxes.len() implies #[trigger] list_is(
                *arena,
                n.lists[j],
                j,
            ) by {
                assert(list_is(filled, n.lists[j], j));
            }
            lemma_indexed_outline(before, *arena, bare, l.ring, l.ring[0], l.ring);
            assert(kept(listed_nodes, arena.nodes@, Seq::empty()));
        }
    } else {
        proof {
            assert(owners(arena.nodes@) =~= start.owner);
            assert(arena.block_bbox@ =~= start.boxes);
        }
    }
    proof {
        assert forall|k: int| 0 <= k < s.len() implies #[trigger] ring_ok(arena.nodes@, s[k]) by {
            assert(ring_ok(listed_nodes, s[k]));
            lemma_are_apart(s[k], Seq::<int>::empty());
            lemma_ring_frame(listed_nodes, arena.nodes@, Seq::empty(), s[k]);
        }
    }
    // process holes from left to right
    let mut outer: usize = outer_node;
    let n: usize = queue.len();
    let mut k: usize = 0;
    while k < n
        invariant
            n == queue@.len(),
            k <= n,
            heads_are(queue@, s),
            outline_is(*arena, merged_all(start, s, k as int)),
            outer == merged_all(start, s, k as int).ring[0],
            holes_ok(listed_nodes, s),
            forall|j: int| k <= j < s.len() ==> #[trigger] ring_ok(arena.nodes@, s[j]),
            forall|j: int|
                k <= j < s.len() ==> #[trigger] apart(merged_all(start, s, k as int).ring, s[j]),
        decreases n - k,
    {
        let ghost o = merged_all(start, s, k as int);
        let ghost before = arena.nodes@;
        assert(ring_ok(before, s[k as int]));
        assert(apart(o.ring, s[k as int]));
        assert(queue@[k as int] == s[k as int][0]);
        outer = eliminate_hole(arena, queue[k], outer, Ghost(o), Ghost(s[k as int]));
        proof {
            let m = merged(o, s[k as int]);
            assert(merged_all(start, s, k + 1) == m);
            assert forall|j: int| k < j < s.len() implies #[trigger] ring_ok(arena.nodes@, s[j])
                && apart(m.ring, s[j]) by {
                assert(ring_ok(before, s[j]));
                assert(apart(o.ring, s[j]));
                assert(apart(s[k as int], s[j]));
                lemma_apart(o.ring, s[j]);
                lemma_apart(s[k as int], s[j]);
                assert forall|h: int| #[trigger] s[j].contains(h) implies !(o.ring
                    + s[k as int]).contains(h) && !m.ring.contains(h) by {
                    lemma_in_sum(o.ring, s[k as int], h);
                    let i = choose|i: int| 0 <= i < s[j].len() && s[j][i] == h;
                    lemma_at(before, s[j], i);
                }
                lemma_are_apart(s[j], o.ring + s[k as int]);
                lemma_ring_frame(before, arena.nodes@, o.ring + s[k as int], s[j]);
                lemma_are_apart(s[j], m.ring);
                lemma_apart(s[j], m.ring);
            }
            assert forall|j: int| k + 1 <= j < s.len() implies #[trigger] apart(
                merged_all(start, s, k + 1).ring,
                s[j],
            ) by {
                assert(ring_ok(arena.nodes@, s[j]));
            }
        }
        k = k + 1;
    }
    arena.index_active = false;
    // collapse collinear and coincident points across the whole merged ring once before clipping
    let ghost all = merged_all(start, s, n as int);
    filter_points(arena, outer, None, Ghost(all.ring), Ghost(Seq::empty()))
}

/// The outer ring is apart from the holes.
proof fn lemma_outer_apart<C>(
    was: Seq<Node<C>>,
    now: Seq<Node<C>>,
    ring: Seq<int>,
    q: Seq<Seq<int>>,
    s: Seq<Seq<int>>,
)
    requires
        ring_ok(was, ring),
        s.to_multiset() == q.to_multiset(),
        forall|k: int, h: int|
            0 <= k < q.len() && #[trigger] q[k].contains(h) ==> h >= was.len(),
    ensures
        forall|j: int| 0 <= j < s.len() ==> #[trigger] apart(ring, s[j]),
{
    broadcast use vstd::seq_lib::group_to_multiset_ensures;

    assert forall|j: int| 0 <= j < s.len() implies #[trigger] apart(ring, s[j]) by {
        assert(s.contains(s[j]));
        assert(s.to_multiset().count(s[j]) > 0);
        assert(q.contains(s[j]));
        let k = choose|k: int| 0 <= k < q.len() && q[k] == s[j];
        assert forall|h: int| #[trigger] ring.contains(h) implies !s[j].contains(h) by {
            let i = choose|i: int| 0 <= i < ring.len() && ring[i] == h;
            lemma_at(was, ring, i);
            if q[k].contains(h) {
                assert(h >= was.len());
            }
        }
        lemma_are_apart(ring, s[j]);
    }
}

/// A whole ring is a run that ends where it starts.
proof fn lemma_ring_run<C>(nodes: Seq<Node<C>>, r: Seq<int>)
    requires
        ring_ok(nodes, r),
    ensures
        is_run(nodes, r, r[0]),
{
    lemma_at(nodes, r, 0);
    assert forall|k: int| 0 <= k < r.len() implies #[trigger] runs_on(nodes, r, r[0], k) by {
        assert(linked_at(nodes, r, k));
    }
    assert forall|k: int| 1 <= k < r.len() implies #[trigger] r[k] != r[0] by {}
}

} // verus!
