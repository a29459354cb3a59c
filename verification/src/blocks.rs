//! The hole-bridge index: boxes around runs of ring edges, by which whole runs can be skipped.
use vstd::prelude::*;
use crate::arena::{owners, points, z_in_bounds, Arena, Node};
use crate::hole_model::{
    chunk_count, chunk_start, indexed, run_box, run_next, with_edge, Outline, BLOCK_SIZE,
};
use crate::model::BBox;
use crate::scalar::Scalar;

verus! {

/// The index holds these boxes, and these lists put together.
pub(crate) open spec fn index_is<C>(
    arena: Arena<C>,
    boxes: Seq<BBox<C>>,
    lists: Seq<Seq<int>>,
) -> bool {
    let start = arena.block_start@;
    &&& arena.block_bbox@ == boxes
    &&& lists.len() == boxes.len()
    &&& start.len() == boxes.len() + 1
    &&& start[0] == 0
    &&& start.last() == arena.block_nodes@.len()
    &&& forall|j: int| 0 <= j < boxes.len() ==> #[trigger] list_is(arena, lists[j], j)
}

/// The block number `j` of the index owns these nodes.
pub(crate) open spec fn list_is<C>(arena: Arena<C>, list: Seq<int>, j: int) -> bool {
    let start = arena.block_start@;
    &&& start[j] <= start[j + 1] <= arena.block_nodes@.len()
    &&& list.len() == start[j + 1] - start[j]
    &&& forall|k: int|
        0 <= k < list.len() ==> #[trigger] list[k] == arena.block_nodes@[start[j] + k]
}

/// The first `k` nodes of `run` have been added to a list.
pub(crate) open spec fn listed_behind(
    old: Seq<usize>,
    new: Seq<usize>,
    run: Seq<int>,
    k: int,
) -> bool {
    &&& new.len() == old.len() + k
    &&& forall|m: int| 0 <= m < old.len() ==> #[trigger] new[m] == old[m]
    &&& forall|m: int| 0 <= m < k ==> new[old.len() + m] == #[trigger] run[m]
}

/// Adding the nodes of a block.
proof fn lemma_listed_behind(
    old: Seq<usize>,
    mid: Seq<usize>,
    new: Seq<usize>,
    run: Seq<int>,
    from: int,
    to: int,
)
    requires
        0 <= from <= to,
        listed_behind(old, mid, run, from),
        new.len() == mid.len() + (to - from),
        forall|m: int| 0 <= m < mid.len() ==> #[trigger] new[m] == mid[m],
        forall|k: int| 0 <= k < to - from ==> #[trigger] run[from + k] == new[mid.len() + k],
    ensures
        listed_behind(old, new, run, to),
{
    assert forall|m: int| 0 <= m < old.len() implies #[trigger] new[m] == old[m] by {
        assert(mid[m] == old[m]);
    }
    assert forall|m: int| 0 <= m < to implies new[old.len() + m] == #[trigger] run[m] by {
        if m < from {
            assert(new[old.len() + m] == mid[old.len() + m]);
        } else {
            assert(run[from + (m - from)] == new[mid.len() + (m - from)]);
        }
    }
}

/// The nodes of `run` are linked one behind the other, and `tail` behind the last.
pub(crate) open spec fn is_run<C>(nodes: Seq<Node<C>>, run: Seq<int>, tail: int) -> bool {
    &&& run.len() > 0
    &&& run.no_duplicates()
    &&& 0 <= tail < nodes.len()
    &&& forall|k: int| 0 <= k < run.len() ==> #[trigger] runs_on(nodes, run, tail, k)
    &&& forall|k: int| 1 <= k < run.len() ==> #[trigger] run[k] != tail
}

/// The node at place `k` of the run is linked to what follows it.
pub(crate) open spec fn runs_on<C>(nodes: Seq<Node<C>>, run: Seq<int>, tail: int, k: int) -> bool {
    0 <= run[k] < nodes.len() && nodes[run[k]].next == run_next(run, tail, k)
}

/// The nodes of a run are in the table.
proof fn lemma_run_bounds<C>(nodes: Seq<Node<C>>, run: Seq<int>, tail: int)
    requires
        is_run(nodes, run, tail),
    ensures
        forall|k: int| 0 <= k < run.len() ==> 0 <= #[trigger] run[k] < nodes.len(),
{
    assert forall|k: int| 0 <= k < run.len() implies 0 <= #[trigger] run[k] < nodes.len() by {
        assert(runs_on(nodes, run, tail, k));
    }
}

/// Nothing but the block numbers of the nodes at places `from` to `to` of the run differs; those
/// are `b`.
spec fn owned<C>(
    old: Seq<Node<C>>,
    new: Seq<Node<C>>,
    run: Seq<int>,
    from: int,
    to: int,
    b: int,
) -> bool {
    &&& new.len() == old.len()
    &&& forall|h: int|
        #![trigger new[h]]
        0 <= h < old.len() ==> new[h] == (Node { block: new[h].block, ..old[h] })
    &&& forall|k: int| from <= k < to ==> #[trigger] new[run[k]].block == b
    &&& forall|h: int|
        #![trigger new[h]]
        0 <= h < old.len() && !run.subrange(from, to).contains(h) ==> new[h] == old[h]
}

impl<C: Scalar> Arena<C> {
    /// Empties the index.
    pub(crate) fn build_block_index(&mut self)
        ensures
            index_is(*final(self), Seq::empty(), Seq::empty()),
            final(self).block_nodes@ == Seq::<usize>::empty(),
            final(self).block_start@ == seq![0usize],
            final(self).block_bbox@ == Seq::<BBox<C>>::empty(),
            final(self).nodes == old(self).nodes,
            final(self).index_active == old(self).index_active,
            final(self).filtered_out == old(self).filtered_out,
    {
        self.block_bbox.clear();
        self.block_nodes.clear();
        self.block_start.clear();
        self.block_start.push(0);
    }

    /// Grows a box to cover the edge from `p` to `c`.
    fn cover_edge(&self, b: BBox<C>, p: usize, c: usize) -> (r: BBox<C>)
        requires
            p < self.nodes@.len(),
            c < self.nodes@.len(),
        ensures
            r == with_edge(b, self.pts()[p as int], self.pts()[c as int]),
    {
        let (px, py) = (self.nodes[p].x, self.nodes[p].y);
        let (cx, cy) = (self.nodes[c].x, self.nodes[c].y);
        BBox {
            min_x: b.min_x.lower(px).lower(cx),
            min_y: b.min_y.lower(py).lower(cy),
            max_x: b.max_x.upper(px).upper(cx),
            max_y: b.max_y.upper(py).upper(cy),
        }
    }

    /// Adds one block to the index, for the edges of a run from place `from` on.
    fn index_block(
        &mut self,
        head: usize,
        stop: usize,
        Ghost(run): Ghost<Seq<int>>,
        Ghost(from): Ghost<int>,
        Ghost(to): Ghost<int>,
    ) -> (p: usize)
        requires
            is_run(old(self).nodes@, run, stop as int),
            0 <= from < run.len(),
            to == from + BLOCK_SIZE || to == run.len(),
            from < to <= run.len(),
            to <= from + BLOCK_SIZE,
            head == run[from],
            z_in_bounds(old(self).nodes@),
        ensures
            p == run_next(run, stop as int, to - 1),
            owned(
                old(self).nodes@,
                final(self).nodes@,
                run,
                from,
                to,
                old(self).block_bbox@.len() as int,
            ),
            is_run(final(self).nodes@, run, stop as int),
            z_in_bounds(final(self).nodes@),
            final(self).pts() == old(self).pts(),
            final(self).block_bbox@ == old(self).block_bbox@.push(
                run_box(old(self).pts(), run, stop as int, from, to),
            ),
            final(self).block_nodes@.len() == old(self).block_nodes@.len() + (to - from),
            forall|k: int|
                0 <= k < old(self).block_nodes@.len() ==> #[trigger] final(self).block_nodes@[k]
                    == old(self).block_nodes@[k],
            forall|k: int|
                0 <= k < to - from ==> #[trigger] run[from + k] == final(self).block_nodes@[old(
                    self,
                ).block_nodes@.len() + k],
            final(self).block_start@ == old(self).block_start@.push(
                final(self).block_start@.last(),
            ),
            final(self).block_start@.last() == final(self).block_nodes@.len(),
            final(self).index_active == old(self).index_active,
            final(self).filtered_out == old(self).filtered_out,
    {
        let ghost was = self.nodes@;
        let ghost listed = self.block_nodes@;
        let ghost pts = self.pts();
        let b: usize = self.block_bbox.len();
        let mut bb = BBox {
            min_x: C::infinity(),
            min_y: C::infinity(),
            max_x: C::neg_infinity(),
            max_y: C::neg_infinity(),
        };
        let mut p: usize = head;
        let mut k: usize = 0;
        assert(self.pts() =~= pts);
        loop
            invariant_except_break
                from + k < to,
                p == run[from + k],
            invariant
                0 <= from,
                from < to <= run.len(),
                to == from + BLOCK_SIZE || to == run.len(),
                to <= from + BLOCK_SIZE,
                is_run(was, run, stop as int),
                self.pts() == pts,
                from + k <= to,
                owned(was, self.nodes@, run, from, from + k, b as int),
                bb == run_box(pts, run, stop as int, from, from + k),
                self.block_nodes@.len() == listed.len() + k,
                forall|m: int| 0 <= m < listed.len() ==> #[trigger] self.block_nodes@[m] == listed[m],
                forall|m: int|
                    0 <= m < k ==> #[trigger] run[from + m] == self.block_nodes@[listed.len() + m],
                self.block_start == old(self).block_start,
                self.block_bbox == old(self).block_bbox,
                self.index_active == old(self).index_active,
                self.filtered_out == old(self).filtered_out,
                b == self.block_bbox@.len(),
                points(was) == pts,
            ensures
                from + k == to,
                p == run_next(run, stop as int, to - 1),
            decreases to - from - k,
        {
            let ghost at = from + k;
            let ghost before = self.nodes@;
            proof {
                lemma_run_bounds(was, run, stop as int);
                assert(runs_on(was, run, stop as int, at));
                assert(before[run[at]].next == was[run[at]].next);
            }
            let c: usize = self.nodes[p].next;
            assert(at + 1 < run.len() ==> run[at + 1] < was.len());
            self.nodes[p].block = b;
            self.block_nodes.push(p);
            proof {
                lemma_owned_step(was, before, self.nodes@, run, from, at, b);
            }
            bb = self.cover_edge(bb, p, c);
            p = c;
            k = k + 1;
            if k >= BLOCK_SIZE || p == stop {
                break ;
            }
        }
        self.block_start.push(self.block_nodes.len());
        self.block_bbox.push(bb);
        proof {
            let now = self.nodes@;
            assert forall|m: int| 0 <= m < run.len() implies #[trigger] runs_on(
                now,
                run,
                stop as int,
                m,
            ) by {
                assert(runs_on(was, run, stop as int, m));
                assert(now[run[m]].next == was[run[m]].next);
            }
        }
        p
    }

    /// Indexes the run of nodes from `head` up to `stop`, which follows it; if both are the same
    /// node, that is the whole ring. Each block records the nodes that it owns and a box that
    /// covers both ends of every edge that starts at one of them.
    pub(crate) fn index_segment(
        &mut self,
        head: usize,
        stop: usize,
        Ghost(run): Ghost<Seq<int>>,
        Ghost(o): Ghost<Outline<C>>,
    )
        requires
            is_run(old(self).nodes@, run, stop as int),
            head == run[0],
            index_is(*old(self), o.boxes, o.lists),
            old(self).pts() == o.pts,
            owners(old(self).nodes@) == o.owner,
            z_in_bounds(old(self).nodes@),
        ensures
            ({
                let n = indexed(o, run, stop as int);
                &&& index_is(*final(self), n.boxes, n.lists)
                &&& owners(final(self).nodes@) == n.owner
            }),
            listed_behind(old(self).block_nodes@, final(self).block_nodes@, run, run.len() as int),
            final(self).nodes@.len() == old(self).nodes@.len(),
            forall|h: int|
                #![trigger final(self).nodes@[h]]
                0 <= h < old(self).nodes@.len() ==> final(self).nodes@[h] == (Node {
                    block: final(self).nodes@[h].block,
                    ..old(self).nodes@[h]
                }),
            final(self).pts() == old(self).pts(),
            z_in_bounds(final(self).nodes@),
            final(self).index_active == old(self).index_active,
            final(self).filtered_out == old(self).filtered_out,
    {
        let ghost was = self.nodes@;
        let ghost tail = stop as int;
        let ghost n = indexed(o, run, tail);
        let ghost total = chunk_count(run) as int;
        let ghost base = o.lists.len() as int;
        let mut p: usize = head;
        let ghost mut j: int = 0;
        proof {
            lemma_chunks(run);
            lemma_run_bounds(was, run, tail);
            assert(n.boxes.take(base) =~= o.boxes);
            assert(n.lists.take(base) =~= o.lists);
        }
        loop
            invariant_except_break
                0 <= j < total,
                p == run[chunk_start(run, j)],
            invariant
                total == chunk_count(run),
                n == indexed(o, run, tail),
                tail == stop,
                base == o.lists.len(),
                base == o.boxes.len(),
                is_run(was, run, tail),
                is_run(self.nodes@, run, tail),
                index_is(*self, n.boxes.take(base + j), n.lists.take(base + j)),
                points(was) == o.pts,
                self.pts() == o.pts,
                z_in_bounds(self.nodes@),
                owners(was) == o.owner,
                self.index_active == old(self).index_active,
                self.filtered_out == old(self).filtered_out,
                owned_chunks(was, self.nodes@, run, j, base),
                listed_behind(
                    old(self).block_nodes@,
                    self.block_nodes@,
                    run,
                    chunk_start(run, j),
                ),
                0 <= j <= total,
            ensures
                j == total,
            decreases total - j,
        {
            let ghost from = chunk_start(run, j);
            let ghost to = chunk_start(run, j + 1);
            proof {
                lemma_chunk(run, j);
            }
            let ghost before = *self;
            p = self.index_block(p, stop, Ghost(run), Ghost(from), Ghost(to));
            proof {
                lemma_run_bounds(was, run, tail);
                lemma_owned_chunk(was, before.nodes@, self.nodes@, run, j, base);
                lemma_index_grown(before, *self, o, run, tail, j);
                lemma_listed_behind(
                    old(self).block_nodes@,
                    before.block_nodes@,
                    self.block_nodes@,
                    run,
                    from,
                    to,
                );
                j = j + 1;
            }
            if p == stop {
                proof {
                    if to < run.len() {
                        assert(run[to] != tail);
                    }
                }
                break ;
            }
        }
        proof {
            lemma_run_bounds(was, run, tail);
            lemma_all_owned(was, self.nodes@, run, o.owner, base);
            assert(n.boxes.take(base + total) =~= n.boxes);
            assert(n.lists.take(base + total) =~= n.lists);
            assert(owners(self.nodes@) =~= n.owner);
        }
    }

    /// The places in `block_nodes` of the nodes that block `b` owns.
    pub(crate) fn block_range(&self, b: usize) -> (r: (usize, usize))
        requires
            b + 1 < self.block_start@.len(),
        ensures
            r.0 == self.block_start@[b as int],
            r.1 == self.block_start@[b + 1],
    {
        let len: usize = self.block_start.len();
        (self.block_start[b], self.block_start[b + 1])
    }

    /// Whether the node `p`, whose link back is `prev`, is still in a ring: dropping a node leaves
    /// its own links as they are.
    pub(crate) fn is_live(&self, p: usize, prev: usize) -> (r: bool)
        requires
            prev < self.nodes@.len(),
        ensures
            r == (self.nodes@[prev as int].next == p),
    {
        self.nodes[prev].next == p
    }
}

/// Nothing but the block numbers of the nodes in the first `j` blocks of the run differs.
spec fn owned_chunks<C>(
    old: Seq<Node<C>>,
    new: Seq<Node<C>>,
    run: Seq<int>,
    j: int,
    base: int,
) -> bool {
    &&& new.len() == old.len()
    &&& forall|h: int|
        #![trigger new[h]]
        0 <= h < old.len() ==> new[h] == (Node { block: new[h].block, ..old[h] })
    &&& forall|k: int|
        0 <= k < chunk_start(run, j) ==> #[trigger] new[run[k]].block == base + k
            / BLOCK_SIZE as int
    &&& forall|h: int|
        #![trigger new[h]]
        0 <= h < old.len() && !run.take(chunk_start(run, j)).contains(h) ==> new[h] == old[h]
}

/// Where the blocks of a run begin and end.
proof fn lemma_chunks(run: Seq<int>)
    requires
        run.len() > 0,
    ensures
        chunk_count(run) > 0,
        chunk_start(run, 0) == 0,
        chunk_start(run, chunk_count(run) as int) == run.len(),
{
}

/// A block of a run is not empty, and none but the last is shorter than the others.
proof fn lemma_chunk(run: Seq<int>, j: int)
    requires
        run.len() > 0,
        0 <= j < chunk_count(run),
    ensures
        0 <= chunk_start(run, j) < chunk_start(run, j + 1) <= run.len(),
        chunk_start(run, j) == j * BLOCK_SIZE,
        chunk_start(run, j + 1) == chunk_start(run, j) + BLOCK_SIZE || chunk_start(run, j + 1)
            == run.len(),
        chunk_start(run, j + 1) <= chunk_start(run, j) + BLOCK_SIZE,
        chunk_start(run, j + 1) < run.len() ==> j + 1 < chunk_count(run),
        chunk_start(run, j + 1) == run.len() ==> j + 1 == chunk_count(run),
{
}

/// One more node of a run is owned.
proof fn lemma_owned_step<C>(
    was: Seq<Node<C>>,
    before: Seq<Node<C>>,
    now: Seq<Node<C>>,
    run: Seq<int>,
    from: int,
    at: int,
    b: usize,
)
    requires
        0 <= from <= at < run.len(),
        run.no_duplicates(),
        0 <= run[at] < was.len(),
        owned(was, before, run, from, at, b as int),
        now == before.update(run[at], Node { block: b, ..before[run[at]] }),
        forall|k: int| 0 <= k < run.len() ==> 0 <= #[trigger] run[k] < was.len(),
    ensures
        owned(was, now, run, from, at + 1, b as int),
        points(now) == points(was),
{
    assert forall|h: int|
        #![trigger now[h]]
        0 <= h < was.len() && !run.subrange(from, at + 1).contains(h) implies now[h] == was[h] by {
        let more = run.subrange(from, at + 1);
        assert(more[at - from] == run[at]);
        if run.subrange(from, at).contains(h) {
            let k = choose|k: int| 0 <= k < at - from && run.subrange(from, at)[k] == h;
            assert(more[k] == h);
        }
        assert(before[h] == was[h]);
    }
    assert forall|k: int| from <= k < at + 1 implies #[trigger] now[run[k]].block == b by {
        if k < at {
            assert(run[k] != run[at]);
            assert(before[run[k]].block == b);
        }
    }
    assert forall|h: int| #![trigger now[h]] 0 <= h < was.len() implies now[h] == (Node {
        block: now[h].block,
        ..was[h]
    }) by {
        assert(before[h] == (Node { block: before[h].block, ..was[h] }));
    }
    assert(points(now) =~= points(was));
}

/// One more block of a run is owned.
proof fn lemma_owned_chunk<C>(
    was: Seq<Node<C>>,
    before: Seq<Node<C>>,
    now: Seq<Node<C>>,
    run: Seq<int>,
    j: int,
    base: int,
)
    requires
        run.no_duplicates(),
        0 <= j < chunk_count(run),
        run.len() > 0,
        forall|k: int| 0 <= k < run.len() ==> 0 <= #[trigger] run[k] < was.len(),
        owned_chunks(was, before, run, j, base),
        owned(before, now, run, chunk_start(run, j), chunk_start(run, j + 1), base + j),
    ensures
        owned_chunks(was, now, run, j + 1, base),
{
    let from = chunk_start(run, j);
    let to = chunk_start(run, j + 1);
    lemma_chunk(run, j);
    assert forall|k: int| 0 <= k < to implies #[trigger] now[run[k]].block == base + k
        / BLOCK_SIZE as int by {
        if k < from {
            assert(before[run[k]].block == base + k / BLOCK_SIZE as int);
            if run.subrange(from, to).contains(run[k]) {
                let m = choose|m: int| 0 <= m < to - from && run.subrange(from, to)[m] == run[k];
                assert(run[from + m] == run[k]);
            }
        } else {
            assert(now[run[k]].block == base + j);
            assert(k / BLOCK_SIZE as int == j);
        }
    }
    assert forall|h: int|
        #![trigger now[h]]
        0 <= h < was.len() && !run.take(to).contains(h) implies now[h] == was[h] by {
        if run.subrange(from, to).contains(h) {
            let m = choose|m: int| 0 <= m < to - from && run.subrange(from, to)[m] == h;
            assert(run.take(to)[from + m] == h);
        }
        if run.take(from).contains(h) {
            let m = choose|m: int| 0 <= m < from && run.take(from)[m] == h;
            assert(run.take(to)[m] == h);
        }
        assert(now[h] == before[h]);
        assert(before[h] == was[h]);
    }
    assert forall|h: int| #![trigger now[h]] 0 <= h < was.len() implies now[h] == (Node {
        block: now[h].block,
        ..was[h]
    }) by {
        assert(before[h] == (Node { block: before[h].block, ..was[h] }));
        assert(now[h] == (Node { block: now[h].block, ..before[h] }));
    }
}

/// All blocks of a run are owned.
proof fn lemma_all_owned<C>(
    was: Seq<Node<C>>,
    now: Seq<Node<C>>,
    run: Seq<int>,
    owner: Seq<int>,
    base: int,
)
    requires
        run.no_duplicates(),
        run.len() > 0,
        forall|k: int| 0 <= k < run.len() ==> 0 <= #[trigger] run[k] < was.len(),
        owners(was) == owner,
        owned_chunks(was, now, run, chunk_count(run) as int, base),
    ensures
        now.len() == was.len(),
        forall|h: int|
            #![trigger now[h]]
            0 <= h < was.len() ==> now[h].block == (if run.contains(h) {
                base + run.index_of(h) / BLOCK_SIZE as int
            } else {
                owner[h]
            }),
{
    lemma_chunks(run);
    assert(run.take(run.len() as int) =~= run);
    assert forall|h: int| #![trigger now[h]] 0 <= h < was.len() implies now[h].block == (
    if run.contains(h) {
        base + run.index_of(h) / BLOCK_SIZE as int
    } else {
        owner[h]
    }) by {
        if run.contains(h) {
            let k = run.index_of(h);
            assert(0 <= k < run.len() && run[k] == h);
            assert(now[run[k]].block == base + k / BLOCK_SIZE as int);
        } else {
            assert(now[h] == was[h]);
            assert(owner[h] == was[h].block);
        }
    }
}

/// The index with one more block of a run.
proof fn lemma_index_grown<C: Scalar>(
    before: Arena<C>,
    now: Arena<C>,
    o: Outline<C>,
    run: Seq<int>,
    tail: int,
    j: int,
)
    requires
        run.len() > 0,
        0 <= j < chunk_count(run),
        o.boxes.len() == o.lists.len(),
        ({
            let n = indexed(o, run, tail);
            let base = o.lists.len() as int;
            let from = chunk_start(run, j);
            let to = chunk_start(run, j + 1);
            &&& index_is(before, n.boxes.take(base + j), n.lists.take(base + j))
            &&& now.block_bbox@ == before.block_bbox@.push(run_box(o.pts, run, tail, from, to))
            &&& now.block_nodes@.len() == before.block_nodes@.len() + (to - from)
            &&& forall|k: int|
                0 <= k < before.block_nodes@.len() ==> #[trigger] now.block_nodes@[k]
                    == before.block_nodes@[k]
            &&& forall|k: int|
                0 <= k < to - from ==> #[trigger] run[from + k]
                    == now.block_nodes@[before.block_nodes@.len() + k]
            &&& now.block_start@ == before.block_start@.push(now.block_start@.last())
            &&& now.block_start@.last() == now.block_nodes@.len()
        }),
    ensures
        ({
            let n = indexed(o, run, tail);
            let base = o.lists.len() as int;
            index_is(now, n.boxes.take(base + j + 1), n.lists.take(base + j + 1))
        }),
{
    let n = indexed(o, run, tail);
    let base = o.lists.len() as int;
    let from = chunk_start(run, j);
    let to = chunk_start(run, j + 1);
    lemma_chunk(run, j);
    let boxes = n.boxes.take(base + j + 1);
    let lists = n.lists.take(base + j + 1);
    assert(boxes =~= n.boxes.take(base + j).push(run_box(o.pts, run, tail, from, to)));
    assert(lists =~= n.lists.take(base + j).push(run.subrange(from, to)));
    assert forall|i: int| 0 <= i < boxes.len() implies #[trigger] list_is(now, lists[i], i) by {
        if i < base + j {
            assert(lists[i] == n.lists.take(base + j)[i]);
            assert(list_is(before, n.lists.take(base + j)[i], i));
            assert forall|k: int| 0 <= k < lists[i].len() implies #[trigger] lists[i][k]
                == now.block_nodes@[now.block_start@[i] + k] by {
                assert(n.lists.take(base + j)[i][k] == before.block_nodes@[before.block_start@[i]
                    + k]);
            }
        } else {
            let list = run.subrange(from, to);
            assert(lists[i] == list);
            assert forall|k: int| 0 <= k < list.len() implies #[trigger] list[k]
                == now.block_nodes@[now.block_start@[i] + k] by {
                assert(list[k] == run[from + k]);
            }
        }
    }
}

} // verus!
