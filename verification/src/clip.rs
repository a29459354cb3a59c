//! Slicing a single ring into triangles.
use vstd::prelude::*;
use crate::arena::{
    highest, kept, labels_kept, lemma_at, lemma_dropped_nodes, lemma_kept_trans, lemma_ring_frame,
    lemma_split_ring, lemma_turned, linked_at, lowest, neighbours, points, ring_ok, z_in_bounds,
    z_linked, Arena, Node, NULL,
};
use crate::filter::filter_points;
use crate::geometry::{hashed, z_order, Grid};
use crate::index::{extended, vertices, EarcutIndex};
use crate::model::{
    bridged, clippable, clipped, curable, cured, far_part, first_diagonal, first_split, halved,
    healed, intersects_spec, lemma_cured_len, lemma_healed_len, lemma_swept_len, near_part, sliced,
    succ, swept, triangle, turned, uncrossed, z_at, z_ranked, Pt,
};
use crate::query::{intersects, is_ear, is_ear_hashed, is_valid_diagonal, locally_inside, z_ready};
use crate::scalar::Scalar;
use crate::zsort::{
    lemma_distinct_is_onto, lemma_stable_order_exists, sort_by_z, stable_order, z_keys,
};

verus! {

/// Every vertex of the table has an output index.
pub(crate) open spec fn indexable<C, N: EarcutIndex>(pts: Seq<Pt<C>>) -> bool {
    forall|h: int| 0 <= h < pts.len() ==> N::fits(#[trigger] pts[h].i)
}

/// The nodes of the ring are in z-order if the z-order is in use.
pub(crate) open spec fn z_state<C: Scalar>(
    arena: Arena<C>,
    r: Seq<int>,
    ord: Seq<int>,
    g: Grid<C>,
) -> bool {
    if hashed(g) {
        z_ready(arena, r, ord, g)
    } else {
        ord.len() == 0
    }
}

/// The z-order of a ring lists its nodes, each once.
pub(crate) proof fn lemma_z_ranked<C: Scalar>(pts: Seq<Pt<C>>, r: Seq<int>, g: Grid<C>)
    requires
        r.no_duplicates(),
    ensures
        z_ranked(pts, r, g).no_duplicates(),
        z_ranked(pts, r, g).len() == r.len(),
        forall|h: int| #[trigger] z_ranked(pts, r, g).contains(h) <==> r.contains(h),
{
    let pairs = Seq::new(r.len(), |k: int| (z_at(pts, g, r[k]), r[k]));
    let keys = z_keys(pairs);
    let perm = stable_order(keys);
    let ord = z_ranked(pts, r, g);
    lemma_stable_order_exists(keys);
    assert(perm.no_duplicates());
    assert forall|j: int, k: int| 0 <= j < ord.len() && 0 <= k < ord.len() && j != k implies ord[j]
        != ord[k] by {
        assert(perm[j] != perm[k]);
    }
    assert forall|h: int| r.contains(h) implies ord.contains(h) by {
        let k = choose|k: int| 0 <= k < r.len() && r[k] == h;
        lemma_distinct_is_onto(perm, k);
        let j = choose|j: int| 0 <= j < perm.len() && perm[j] == k;
        assert(ord[j] == h);
    }
    assert forall|h: int| ord.contains(h) implies r.contains(h) by {
        let j = choose|j: int| 0 <= j < ord.len() && ord[j] == h;
        assert(0 <= perm[j] < keys.len());
        assert(r[perm[j]] == h);
    }
}

/// Nothing but the z-order links of the nodes differs.
spec fn z_links_differ<C>(old: Seq<Node<C>>, new: Seq<Node<C>>) -> bool {
    &&& new.len() == old.len()
    &&& forall|h: int|
        #![trigger new[h]]
        0 <= h < old.len() ==> new[h].pt() == old[h].pt() && new[h].prev == old[h].prev
            && new[h].next == old[h].next && new[h].z == old[h].z && new[h].block == old[h].block
}

/// Links the nodes of a sorted queue in its order.
fn link_in_order<C: Scalar>(
    arena: &mut Arena<C>,
    order: &Vec<(i32, usize)>,
    Ghost(ord): Ghost<Seq<int>>,
)
    requires
        order@.len() > 0,
        ord.len() == order@.len(),
        ord.no_duplicates(),
        forall|j: int|
            0 <= j < ord.len() ==> (#[trigger] order@[j]).1 == ord[j] && 0 <= ord[j] < old(
                arena,
            ).nodes@.len(),
        z_in_bounds(old(arena).nodes@),
    ensures
        z_links_differ(old(arena).nodes@, final(arena).nodes@),
        z_in_bounds(final(arena).nodes@),
        forall|j: int|
            0 < j < ord.len() ==> final(arena).nodes@[#[trigger] ord[j]].prev_z == ord[j - 1],
        forall|j: int|
            0 <= j < ord.len() - 1 ==> final(arena).nodes@[#[trigger] ord[j]].next_z == ord[j + 1],
        final(arena).nodes@[ord[0]].prev_z == NULL,
        final(arena).nodes@[ord.last()].next_z == NULL,
        final(arena).same_state(*old(arena)),
        final(arena).block_bbox == old(arena).block_bbox,
{
    let ghost was = arena.nodes@;
    let len: usize = arena.nodes.len();
    let count: usize = order.len();
    let mut prev: usize = NULL;
    let mut at: usize = 0;
    assert forall|j: int| 0 <= j < ord.len() implies 0 <= #[trigger] ord[j] < was.len() by {
        assert(order@[j].1 == ord[j]);
    }
    assert forall|j: int| 0 <= j < ord.len() implies (#[trigger] order@[j]).1 == ord[j] by {}
    while at < count
        invariant
            count == order@.len(),
            ord.len() == count,
            ord.no_duplicates(),
            at <= count,
            len == was.len(),
            forall|j: int|
                0 <= j < ord.len() ==> (#[trigger] order@[j]).1 == ord[j] && 0 <= ord[j]
                    < was.len(),
            z_links_differ(was, arena.nodes@),
            z_in_bounds(arena.nodes@),
            at == 0 ==> prev == NULL,
            at > 0 ==> prev == ord[at - 1] && arena.nodes@[ord[0]].prev_z == NULL,
            forall|j: int| 0 < j < at ==> arena.nodes@[#[trigger] ord[j]].prev_z == ord[j - 1],
            forall|j: int|
                0 <= j < at - 1 ==> arena.nodes@[#[trigger] ord[j]].next_z == ord[j + 1],
            arena.same_state(*old(arena)),
            arena.block_bbox == old(arena).block_bbox,
        decreases count - at,
    {
        let ghost one = arena.nodes@;
        let node: usize = order[at].1;
        proof {
            assert(order@[at as int].1 == ord[at as int]);
            if at > 0 {
                assert(order@[at - 1].1 == ord[at - 1]);
                assert(ord[at - 1] != ord[at as int]);
            }
            assert forall|j: int| 0 <= j < ord.len() implies 0 <= #[trigger] ord[j] < was.len() by {
                assert(order@[j].1 == ord[j]);
            }
        }
        arena.nodes[node].prev_z = prev;
        let ghost two = arena.nodes@;
        assert(two == one.update(node as int, Node { prev_z: prev, ..one[node as int] }));
        if prev != NULL {
            arena.nodes[prev].next_z = node;
            assert(arena.nodes@ == two.update(
                prev as int,
                Node { next_z: node, ..two[prev as int] },
            ));
        }
        prev = node;
        at = at + 1;
    }
    proof {
        assert(order@[count - 1].1 == ord[count - 1]);
        assert forall|j: int| 0 <= j < ord.len() implies 0 <= #[trigger] ord[j] < was.len() by {
            assert(order@[j].1 == ord[j]);
        }
    }
    let ghost three = arena.nodes@;
    arena.nodes[prev].next_z = NULL;
    assert(arena.nodes@ == three.update(prev as int, Node { next_z: NULL, ..three[prev as int] }));
}

/// Interlinks polygon nodes in z-order: collects them in a queue, sorts it by z, relinks.
pub(crate) fn index_curve<C: Scalar>(
    arena: &mut Arena<C>,
    start: usize,
    g: Grid<C>,
    Ghost(r): Ghost<Seq<int>>,
)
    requires
        ring_ok(old(arena).nodes@, r),
        start == r[0],
        z_in_bounds(old(arena).nodes@),
    ensures
        ring_ok(final(arena).nodes@, r),
        z_ready(*final(arena), r, z_ranked(old(arena).pts(), r, g), g),
        kept(old(arena).nodes@, final(arena).nodes@, Seq::empty()),
        final(arena).nodes@.len() == old(arena).nodes@.len(),
        final(arena).pts() == old(arena).pts(),
        z_in_bounds(final(arena).nodes@),
        final(arena).same_state(*old(arena)),
        final(arena).block_bbox == old(arena).block_bbox,
{
    let ghost was = arena.nodes@;
    let ghost pts = arena.pts();
    let ghost n = r.len() as int;
    let ghost ord = z_ranked(pts, r, g);
    let len: usize = arena.nodes.len();
    assert forall|j: int| 0 <= j < n implies 0 <= #[trigger] r[j] < was.len() by {
        lemma_at(was, r, j);
    }
    arena.z_order_buf.clear();
    let mut p: usize = start;
    let ghost mut k: int = 0;
    loop
        invariant_except_break
            0 <= k < n,
            p == r[k],
            arena.z_order_buf@.len() == k,
            forall|j: int| 0 <= j < k ==> arena.nodes@[#[trigger] r[j]].z == z_at(pts, g, r[j]),
            forall|j: int|
                0 <= j < k ==> (#[trigger] arena.z_order_buf@[j]).0 == z_at(pts, g, r[j])
                    && arena.z_order_buf@[j].1 == r[j],
        invariant
            ring_ok(was, r),
            n == r.len(),
            start == r[0],
            pts == points(was),
            arena.nodes@.len() == was.len(),
            forall|j: int| 0 <= j < n ==> 0 <= #[trigger] r[j] < was.len(),
            forall|h: int|
                0 <= h < was.len() ==> #[trigger] arena.nodes@[h] == (Node {
                    z: arena.nodes@[h].z,
                    ..was[h]
                }),
            arena.same_state(*old(arena)),
            arena.block_bbox == old(arena).block_bbox,
        ensures
            arena.z_order_buf@.len() == n,
            forall|j: int| 0 <= j < n ==> arena.nodes@[#[trigger] r[j]].z == z_at(pts, g, r[j]),
            forall|j: int|
                0 <= j < n ==> (#[trigger] arena.z_order_buf@[j]).0 == z_at(pts, g, r[j])
                    && arena.z_order_buf@[j].1 == r[j],
        decreases n - k,
    {
        proof {
            lemma_at(was, r, k);
        }
        let node = arena.nodes[p];
        let z: i32 = z_order(node.x, node.y, g);
        arena.nodes[p].z = z;
        arena.z_order_buf.push((z, p));
        p = node.next;
        proof {
            assert(r[k] == r[k]);
            if k + 1 < n {
                assert(r[k + 1] != r[0]);
            }
        }
        if p == start {
            break ;
        }
        proof {
            k = k + 1;
        }
    }
    let ghost ranked = arena.nodes@;
    let mut order: Vec<(i32, usize)> = Vec::new();
    let mut scratch: Vec<(i32, usize)> = Vec::new();
    core::mem::swap(&mut order, &mut arena.z_order_buf);
    core::mem::swap(&mut scratch, &mut arena.z_order_scratch);
    let ghost queue = order@;
    sort_by_z(order.as_mut_slice(), &mut scratch);
    proof {
        let pairs = Seq::new(r.len(), |j: int| (z_at(pts, g, r[j]), r[j]));
        assert(z_keys(pairs) =~= z_keys(queue));
        lemma_stable_order_exists(z_keys(queue));
        lemma_z_ranked(pts, r, g);
        let perm = stable_order(z_keys(queue));
        assert forall|j: int| 0 <= j < n implies (#[trigger] order@[j]).1 == ord[j] && 0 <= ord[j]
            < was.len() by {
            assert(0 <= perm[j] < n);
            assert(order@[j] == queue[perm[j]]);
            lemma_at(was, r, perm[j]);
        }
        assert(order@.len() == n);
    }
    link_in_order(arena, &order, Ghost(ord));
    arena.z_order_buf = order;
    arena.z_order_scratch = scratch;
    proof {
        lemma_curve_linked(was, ranked, *arena, r, g);
    }
}

/// What numbering the nodes of a ring and linking them in z-order establishes.
#[verifier::spinoff_prover]
#[verifier::rlimit(30)]
proof fn lemma_curve_linked<C: Scalar>(
    was: Seq<Node<C>>,
    ranked: Seq<Node<C>>,
    arena: Arena<C>,
    r: Seq<int>,
    g: Grid<C>,
)
    requires
        ring_ok(was, r),
        ranked.len() == was.len(),
        forall|h: int|
            0 <= h < was.len() ==> #[trigger] ranked[h] == (Node { z: ranked[h].z, ..was[h] }),
        forall|j: int|
            0 <= j < r.len() ==> ranked[#[trigger] r[j]].z == z_at(points(was), g, r[j]),
        z_links_differ(ranked, arena.nodes@),
        ({
            let ord = z_ranked(points(was), r, g);
            let now = arena.nodes@;
            &&& forall|j: int| 0 < j < ord.len() ==> now[#[trigger] ord[j]].prev_z == ord[j - 1]
            &&& forall|j: int|
                0 <= j < ord.len() - 1 ==> now[#[trigger] ord[j]].next_z == ord[j + 1]
            &&& now[ord[0]].prev_z == NULL
            &&& now[ord.last()].next_z == NULL
        }),
    ensures
        ring_ok(arena.nodes@, r),
        z_ready(arena, r, z_ranked(points(was), r, g), g),
        kept(was, arena.nodes@, Seq::empty()),
        arena.pts() == points(was),
{
    let pts = points(was);
    let ord = z_ranked(pts, r, g);
    let n = r.len() as int;
    let now = arena.nodes@;
    let live = r.to_set();
    lemma_z_ranked(pts, r, g);
    assert forall|h: int| 0 <= h < was.len() implies #[trigger] now[h].pt() == was[h].pt()
        && now[h].prev == was[h].prev && now[h].next == was[h].next by {
        assert(ranked[h].pt() == was[h].pt());
    }
    assert(arena.pts() =~= pts);
    assert forall|j: int| 0 <= j < n implies live.contains(#[trigger] ord[j]) && 0 <= ord[j]
        < now.len() by {
        assert(ord.contains(ord[j]));
        let k = choose|k: int| 0 <= k < r.len() && r[k] == ord[j];
        lemma_at(was, r, k);
    }
    assert forall|j: int, m: int| #[trigger] neighbours(ord, live, j, m) implies now[ord[m]].prev_z
        == ord[j] && now[ord[j]].next_z == ord[m] by {
        if j + 1 < m {
            assert(live.contains(ord[j + 1]));
        }
    }
    assert forall|m: int| #[trigger] lowest(ord, live, m) implies now[ord[m]].prev_z == NULL by {
        if m > 0 {
            assert(live.contains(ord[0]));
        }
    }
    assert forall|m: int| #[trigger] highest(ord, live, m) implies now[ord[m]].next_z == NULL by {
        if m < n - 1 {
            assert(live.contains(ord[n - 1]));
        }
    }
    assert forall|j: int| 0 <= j < r.len() implies #[trigger] linked_at(now, r, j) by {
        assert(linked_at(was, r, j));
    }
    assert forall|h: int| #[trigger] r.contains(h) implies ord.contains(h) && now[h].z == z_at(
        pts,
        g,
        h,
    ) by {
        let j = choose|j: int| 0 <= j < r.len() && r[j] == h;
        lemma_at(was, r, j);
        assert(ranked[r[j]].z == z_at(pts, g, r[j]));
        assert(now[h].z == ranked[h].z);
    }
}

/// Adds a triangle of nodes to the output.
fn push_triangle<C: Scalar, N: EarcutIndex>(
    arena: &Arena<C>,
    triangles: &mut Vec<N>,
    a: usize,
    b: usize,
    c: usize,
)
    requires
        a < arena.nodes@.len(),
        b < arena.nodes@.len(),
        c < arena.nodes@.len(),
        indexable::<C, N>(arena.pts()),
    ensures
        extended(old(triangles)@, final(triangles)@),
        vertices(final(triangles)@) == vertices(old(triangles)@) + triangle(
            arena.pts(),
            a as int,
            b as int,
            c as int,
        ),
{
    proof {
        let pts = arena.pts();
        assert(N::fits(pts[a as int].i) && N::fits(pts[b as int].i) && N::fits(pts[c as int].i));
    }
    triangles.push(N::from_usize(arena.nodes[a].i));
    triangles.push(N::from_usize(arena.nodes[b].i));
    triangles.push(N::from_usize(arena.nodes[c].i));
    assert(vertices(triangles@) =~= vertices(old(triangles)@) + triangle(
        arena.pts(),
        a as int,
        b as int,
        c as int,
    ));
}

/// In a ring of fewer than four nodes the edges beside an edge share an end and do not cross.
proof fn lemma_small_ring_uncrossed<C: Scalar>(pts: Seq<Pt<C>>, r: Seq<int>)
    requires
        r.len() == 2 || r.len() == 3,
    ensures
        !intersects_spec(pts, r.last(), r[0], r[1], succ(r, 1), false),
{
    let a = pts[r.last()];
    let p = pts[r[0]];
    C::lemma_no_turn(a.x, a.y, p.x, p.y);
}

/// Goes through all polygon nodes and cures small local self-intersections.
fn cure_local_intersections<C: Scalar, N: EarcutIndex>(
    arena: &mut Arena<C>,
    start: usize,
    triangles: &mut Vec<N>,
    g: Grid<C>,
    Ghost(r): Ghost<Seq<int>>,
    Ghost(ord): Ghost<Seq<int>>,
) -> (res: usize)
    requires
        ring_ok(old(arena).nodes@, r),
        r.len() >= 2,
        start == r[0],
        z_in_bounds(old(arena).nodes@),
        z_state(*old(arena), r, ord, g),
        !old(arena).index_active,
        indexable::<C, N>(old(arena).pts()),
    ensures
        ({
            let c = cured(old(arena).pts(), r);
            &&& ring_ok(final(arena).nodes@, c.ring)
            &&& res == c.ring[0]
            &&& extended(old(triangles)@, final(triangles)@)
            &&& vertices(final(triangles)@) == vertices(old(triangles)@) + c.tris
            &&& forall|h: int| #[trigger] c.ring.contains(h) ==> r.contains(h)
            &&& z_state(*final(arena), c.ring, ord, g)
        }),
        kept(old(arena).nodes@, final(arena).nodes@, r),
        final(arena).nodes@.len() == old(arena).nodes@.len(),
        final(arena).pts() == old(arena).pts(),
        z_in_bounds(final(arena).nodes@),
        labels_kept(old(arena).nodes@, final(arena).nodes@),
        final(arena).same_index(*old(arena)),
        final(arena).block_bbox == old(arena).block_bbox,
        ({
            let u = uncrossed(old(arena).pts(), r, 0);
            let c = cured(old(arena).pts(), r);
            &&& u.tris.len() == 0 ==> *final(arena) == *old(arena)
            &&& final(arena).filtered_out == (old(arena).filtered_out || c.ring.len()
                < u.ring.len())
        }),
{
    let ghost was = arena.nodes@;
    let ghost pts = arena.pts();
    let ghost out0 = vertices(triangles@);
    let ghost all = uncrossed(pts, r, 0);
    let mut p: usize = start;
    let mut start: usize = start;
    let mut cut: bool = false;
    let ghost mut q = r;
    let ghost mut passed: nat = 0;
    let ghost mut done: Seq<usize> = Seq::empty();
    assert(out0 + done =~= out0);
    assert(done + all.tris =~= all.tris);
    loop
        invariant_except_break
            passed < q.len(),
            q.len() >= 2,
            start == q[if passed == 0 {
                0
            } else {
                q.len() - passed
            }],
            done + uncrossed(pts, q, passed).tris == all.tris,
            uncrossed(pts, q, passed).ring == all.ring,
        invariant
            ring_ok(was, r),
            ring_ok(arena.nodes@, q),
            p == q[0],
            pts == arena.pts(),
            z_in_bounds(arena.nodes@),
            kept(was, arena.nodes@, r),
            arena.nodes@.len() == was.len(),
            arena.same_state(*old(arena)),
            arena.block_bbox == old(arena).block_bbox,
            labels_kept(was, arena.nodes@),
            !arena.index_active,
            z_state(*arena, q, ord, g),
            indexable::<C, N>(pts),
            forall|h: int| #[trigger] q.contains(h) ==> r.contains(h),
            extended(old(triangles)@, triangles@),
            vertices(triangles@) == out0 + done,
            cut <==> done.len() > 0,
            !cut ==> *arena == *old(arena),
        ensures
            done == all.tris,
            q == all.ring,
        decreases q.len(), q.len() - passed,
    {
        let ghost n = q.len() as int;
        proof {
            lemma_at(arena.nodes@, q, 0);
            lemma_at(arena.nodes@, q, 1);
            lemma_turned(arena.nodes@, q);
            if n < 4 {
                lemma_small_ring_uncrossed(pts, q);
            }
        }
        let a: usize = arena.nodes[p].prev;
        let p_next: usize = arena.nodes[p].next;
        let b: usize = arena.nodes[p_next].next;
        if intersects(arena, a, p, p_next, b, false) && locally_inside(
            arena,
            a,
            b,
            Ghost(q),
            Ghost(n - 1),
        ) && locally_inside(arena, b, a, Ghost(q), Ghost(2int)) {
            assert(curable(pts, q));
            push_triangle(arena, triangles, a, p, b);
            let ghost q1 = q.drop_first();
            let ghost q2 = q1.drop_first();
            let ghost t = q.subrange(3, n).push(q[2]);
            let ghost before_cut = arena.nodes@;
            proof {
                lemma_dropped_nodes(q);
                lemma_dropped_nodes(q1);
                assert(q.contains(q[0]));
                assert(q.contains(q1[0])) by {
                    assert(q[1] == q1[0]);
                }
            }
            arena.remove_node(p, Ghost(q), Ghost(ord));
            let ghost mid = arena.nodes@;
            assert(q1.to_set() == q.to_set().remove(q[0]));
            arena.remove_node(p_next, Ghost(q1), Ghost(ord));
            proof {
                let now = arena.nodes@;
                lemma_turned(now, q2);
                assert(turned(q2) =~= t);
                lemma_at(now, q2, 0);
                assert(q2[0] == q[2]);
                assert forall|h: int| #[trigger] t.contains(h) implies q.contains(h) by {
                    assert(t.to_set().contains(h));
                    assert(q2.to_set().contains(h));
                    assert(q1.to_set().contains(h));
                    assert(q.to_set().contains(h));
                }
                lemma_kept_trans(was, before_cut, mid, r, q);
                assert forall|h: int| #[trigger] q1.contains(h) implies r.contains(h) by {
                    assert(q1.to_set().contains(h));
                    assert(q.to_set().contains(h));
                }
                lemma_kept_trans(was, mid, now, r, q1);
                lemma_z_state_kept(before_cut, *arena, q, t, ord, g);
                let rest = uncrossed(pts, t, 1);
                let tri = triangle(pts, q[n - 1], q[0], q[2]);
                assert(done + (tri + rest.tris) =~= (done + tri) + rest.tris);
                assert(out0 + (done + tri) =~= (out0 + done) + tri);
                done = done + tri;
                q = t;
                passed = 1;
            }
            p = arena.nodes[b].next;
            start = b;
            cut = true;
        } else {
            assert(!curable(pts, q));
            let ghost was_q = q;
            proof {
                let t = turned(q);
                assert forall|h: int| #[trigger] t.contains(h) implies q.contains(h) by {
                    assert(t.to_set().contains(h));
                    assert(q.to_set().contains(h));
                }
                lemma_z_state_kept(arena.nodes@, *arena, q, t, ord, g);
                if passed + 1 < n {
                    assert(t[n - (passed + 1)] == start);
                    assert(t[0] != t[n - (passed + 1)]);
                } else {
                    assert(t[0] == start);
                    assert(done + Seq::<usize>::empty() =~= done);
                }
                q = t;
                passed = passed + 1;
            }
            p = p_next;
            if p == start {
                break ;
            }
        }
    }
    if cut {
        proof {
            assert(z_linked(arena.nodes@, ord, q.to_set()));
        }
        let ghost before_sweep = arena.nodes@;
        let ghost s = swept(pts, q, 0);
        let res = filter_points(arena, p, None, Ghost(q), Ghost(ord));
        proof {
            lemma_kept_trans(was, before_sweep, arena.nodes@, r, q);
            lemma_z_state_kept(before_sweep, *arena, q, s, ord, g);
        }
        res
    } else {
        p
    }
}

/// Fewer nodes, linked in z-order, are as ready as the whole ring was.
proof fn lemma_z_state_kept<C: Scalar>(
    old: Seq<Node<C>>,
    arena: Arena<C>,
    r: Seq<int>,
    s: Seq<int>,
    ord: Seq<int>,
    g: Grid<C>,
)
    requires
        hashed(g) ==> {
            &&& forall|h: int| #[trigger] r.contains(h) ==> ord.contains(h)
            &&& forall|h: int| #[trigger] r.contains(h) ==> old[h].z == z_at(points(old), g, h)
            &&& z_linked(arena.nodes@, ord, s.to_set())
        },
        !hashed(g) ==> ord.len() == 0,
        ring_ok(old, r),
        forall|h: int| #[trigger] s.contains(h) ==> r.contains(h),
        labels_kept(old, arena.nodes@),
        points(old) == arena.pts(),
    ensures
        z_state(arena, s, ord, g),
{
    if hashed(g) {
        assert forall|h: int| #[trigger] s.contains(h) implies arena.nodes@[h].z == z_at(
            arena.pts(),
            g,
            h,
        ) by {
            assert(r.contains(h));
            let k = choose|k: int| 0 <= k < r.len() && r[k] == h;
            lemma_at(old, r, k);
            assert(old[h].z == arena.nodes@[h].z);
        }
    }
}

/// Main ear slicing loop which triangulates a polygon, given as a ring.
pub(crate) fn earcut_linked<C: Scalar, N: EarcutIndex>(
    arena: &mut Arena<C>,
    ear: usize,
    triangles: &mut Vec<N>,
    g: Grid<C>,
    Ghost(r): Ghost<Seq<int>>,
)
    requires
        ring_ok(old(arena).nodes@, r),
        ear == r[0],
        z_in_bounds(old(arena).nodes@),
        !old(arena).index_active,
        indexable::<C, N>(old(arena).pts()),
    ensures
        extended(old(triangles)@, final(triangles)@),
        vertices(final(triangles)@) == vertices(old(triangles)@) + sliced(
            old(arena).pts(),
            r,
            g,
        ).tris,
        final(arena).pts() == sliced(old(arena).pts(), r, g).pts,
        kept(old(arena).nodes@, final(arena).nodes@, r),
        z_in_bounds(final(arena).nodes@),
        final(arena).same_index(*old(arena)),
        indexable::<C, N>(final(arena).pts()),
    decreases r.len(), 2int,
{
    let ghost was = arena.nodes@;
    let ghost pts = arena.pts();
    let ghost out0 = vertices(triangles@);
    let ghost all = sliced(pts, r, g);
    let use_hash: bool = !g.inv_size.same(C::from_int(0));
    let ghost ord = if hashed(g) {
        z_ranked(pts, r, g)
    } else {
        Seq::<int>::empty()
    };
    if use_hash {
        index_curve(arena, ear, g, Ghost(r));
        proof {
            lemma_kept_more(was, arena.nodes@, r);
        }
    }
    let mut ear: usize = ear;
    let mut stop: usize = ear;
    let mut cured_once: bool = false;
    let ghost mut q = r;
    let ghost mut passed: nat = 0;
    let ghost mut done: Seq<usize> = Seq::empty();
    assert(out0 + done =~= out0);
    assert(done + all.tris =~= all.tris);
    loop
        invariant_except_break
            passed < q.len(),
            stop == q[if passed == 0 {
                0
            } else {
                q.len() - passed
            }],
            done + clipped(pts, q, ord, passed, cured_once, g).tris == all.tris,
            clipped(pts, q, ord, passed, cured_once, g).pts == all.pts,
            extended(old(triangles)@, triangles@),
            vertices(triangles@) == out0 + done,
            pts == arena.pts(),
            arena.nodes@.len() == was.len(),
            ring_ok(arena.nodes@, q),
            ear == q[0],
            z_state(*arena, q, ord, g),
        invariant
            ring_ok(was, r),
            q.len() <= r.len(),
            z_in_bounds(arena.nodes@),
            kept(was, arena.nodes@, r),
            arena.same_index(*old(arena)),
            !arena.index_active,
            use_hash == hashed(g),
            indexable::<C, N>(arena.pts()),
            forall|h: int| #[trigger] q.contains(h) ==> r.contains(h),
        ensures
            extended(old(triangles)@, triangles@),
            vertices(triangles@) == out0 + all.tris,
            arena.pts() == all.pts,
            kept(was, arena.nodes@, r),
            z_in_bounds(arena.nodes@),
            arena.same_index(*old(arena)),
            indexable::<C, N>(arena.pts()),
        decreases
                q.len(),
                (if cured_once {
                    0int
                } else {
                    1int
                }),
                q.len() - passed,
    {
        let ghost n = q.len() as int;
        proof {
            lemma_at(arena.nodes@, q, 0);
            lemma_turned(arena.nodes@, q);
        }
        let prev: usize = arena.nodes[ear].prev;
        let next: usize = arena.nodes[ear].next;
        if prev == next {
            proof {
                if n > 2 {
                    assert(q[1] != q[n - 1]);
                }
                assert(done + Seq::<usize>::empty() =~= done);
            }
            break ;
        }
        assert(n >= 3);
        let convex: bool = arena.area(prev, ear, next).less(C::from_int(0));
        let is_tip: bool = convex && (if use_hash {
            is_ear_hashed(arena, ear, g, Ghost(q), Ghost(ord))
        } else {
            is_ear(arena, ear, Ghost(q))
        });
        assert(is_tip == clippable(pts, q, ord, g));
        let ghost before_cut = arena.nodes@;
        if is_tip {
            push_triangle(arena, triangles, prev, ear, next);
            let ghost d = q.drop_first();
            proof {
                lemma_dropped_nodes(q);
                assert(q.contains(q[0]));
            }
            arena.remove_node(ear, Ghost(q), Ghost(ord));
            proof {
                assert forall|h: int| #[trigger] d.contains(h) implies q.contains(h) by {
                    assert(d.to_set().contains(h));
                    assert(q.to_set().contains(h));
                }
                lemma_kept_trans(was, before_cut, arena.nodes@, r, q);
                lemma_z_state_kept(before_cut, *arena, q, d, ord, g);
                let tri = triangle(pts, q.last(), q[0], q[1]);
                let rest = clipped(pts, d, ord, 0, cured_once, g);
                assert(done + (tri + rest.tris) =~= (done + tri) + rest.tris);
                assert(out0 + (done + tri) =~= (out0 + done) + tri);
                done = done + tri;
                q = d;
                passed = 0;
            }
            ear = next;
            stop = next;
            continue ;
        }
        let ghost t = turned(q);
        proof {
            assert forall|h: int| #[trigger] t.contains(h) implies q.contains(h) by {
                assert(t.to_set().contains(h));
                assert(q.to_set().contains(h));
            }
            lemma_z_state_kept(arena.nodes@, *arena, q, t, ord, g);
            if passed + 1 < n {
                assert(t[n - (passed + 1)] == stop);
                assert(t[0] != t[n - (passed + 1)]);
            } else {
                assert(t[0] == stop);
            }
        }
        ear = next;
        if ear == stop {
            // no ear in a whole lap: drop points that have become collinear or coincident, and
            // slice again as long as that removes any
            assert(passed + 1 == n);
            arena.filtered_out = false;
            let ghost f = swept(pts, t, 0);
            ear = filter_points(arena, ear, None, Ghost(t), Ghost(ord));
            proof {
                lemma_swept_len(pts, t, 0);
                lemma_kept_trans(was, before_cut, arena.nodes@, r, t);
                lemma_z_state_kept(before_cut, *arena, t, f, ord, g);
            }
            if arena.filtered_out {
                proof {
                    q = f;
                    passed = 0;
                }
                stop = ear;
                continue ;
            }
            if !cured_once {
                let ghost before_cure = arena.nodes@;
                let ghost c = cured(pts, f);
                proof {
                    lemma_cured_len(pts, f);
                }
                ear = cure_local_intersections(arena, ear, triangles, g, Ghost(f), Ghost(ord));
                proof {
                    lemma_kept_trans(was, before_cure, arena.nodes@, r, f);
                    let rest = clipped(pts, c.ring, ord, 0, true, g);
                    assert(done + (c.tris + rest.tris) =~= (done + c.tris) + rest.tris);
                    assert(out0 + (done + c.tris) =~= (out0 + done) + c.tris);
                    done = done + c.tris;
                    q = c.ring;
                    passed = 0;
                }
                stop = ear;
                cured_once = true;
                continue ;
            }
            let ghost before_split = arena.nodes@;
            split_earcut(arena, ear, triangles, g, Ghost(f));
            proof {
                lemma_kept_trans(was, before_split, arena.nodes@, r, f);
                let rest = halved(pts, f, g);
                assert(out0 + (done + rest.tris) =~= (out0 + done) + rest.tris);
            }
            break ;
        }
        proof {
            q = t;
            passed = passed + 1;
        }
    }
}

/// Everything may change where nothing did.
proof fn lemma_kept_more<C>(old: Seq<Node<C>>, new: Seq<Node<C>>, r: Seq<int>)
    requires
        kept(old, new, Seq::empty()),
    ensures
        kept(old, new, r),
{
    assert forall|h: int| #![trigger new[h]] 0 <= h < old.len() implies new[h].pt() == old[h].pt()
        && new[h].prev == old[h].prev && new[h].next == old[h].next by {
        assert(!Seq::<int>::empty().contains(h));
    }
}

/// Tries splitting a polygon in two and triangulates the parts independently.
fn split_earcut<C: Scalar, N: EarcutIndex>(
    arena: &mut Arena<C>,
    start: usize,
    triangles: &mut Vec<N>,
    g: Grid<C>,
    Ghost(r): Ghost<Seq<int>>,
)
    requires
        ring_ok(old(arena).nodes@, r),
        r.len() >= 3,
        start == r[0],
        z_in_bounds(old(arena).nodes@),
        !old(arena).index_active,
        indexable::<C, N>(old(arena).pts()),
    ensures
        extended(old(triangles)@, final(triangles)@),
        vertices(final(triangles)@) == vertices(old(triangles)@) + halved(
            old(arena).pts(),
            r,
            g,
        ).tris,
        final(arena).pts() == halved(old(arena).pts(), r, g).pts,
        kept(old(arena).nodes@, final(arena).nodes@, r),
        z_in_bounds(final(arena).nodes@),
        final(arena).same_index(*old(arena)),
        indexable::<C, N>(final(arena).pts()),
    decreases r.len(), 1int,
{
    let ghost was = arena.nodes@;
    let ghost pts = arena.pts();
    let ghost out0 = vertices(triangles@);
    let ghost n = r.len() as int;
    let mut a: usize = start;
    let ghost mut q = r;
    let ghost mut left: int = n;
    assert(out0 + Seq::<usize>::empty() =~= out0);
    loop
        invariant_except_break
            first_split(pts, q, left) == first_split(pts, r, n),
            0 < left <= n,
            start == q[if left == n {
                0
            } else {
                left
            }],
        invariant
            ring_ok(was, r),
            was == arena.nodes@,
            pts == arena.pts(),
            *arena == *old(arena),
            extended(old(triangles)@, triangles@),
            vertices(triangles@) == out0,
            n == r.len(),
            n >= 3,
            ring_ok(was, q),
            q.len() == n,
            a == q[0],
            z_in_bounds(was),
            !arena.index_active,
            indexable::<C, N>(pts),
            forall|h: int| #[trigger] q.contains(h) ==> r.contains(h),
            out0 == vertices(old(triangles)@),
        ensures
            first_split(pts, r, n) is None,
        decreases left,
    {
        proof {
            lemma_at(was, q, 0);
            lemma_at(was, q, 1);
            lemma_turned(was, q);
        }
        let a_prev: usize = arena.nodes[a].prev;
        let mut b: usize = arena.nodes[arena.nodes[a].next].next;
        let ghost mut j: int = 2;
        while b != a_prev
            invariant
                ring_ok(was, r),
                was == arena.nodes@,
                pts == arena.pts(),
                *arena == *old(arena),
                extended(old(triangles)@, triangles@),
                vertices(triangles@) == out0,
                n == r.len(),
                ring_ok(was, q),
                q.len() == n,
                n >= 3,
                a == q[0],
                a_prev == q[n - 1],
                2 <= j <= n - 1,
                b == q[j],
                0 < left <= n,
                first_diagonal(pts, q, j) == first_diagonal(pts, q, 2),
                first_split(pts, q, left) == first_split(pts, r, n),
                z_in_bounds(was),
                !arena.index_active,
                indexable::<C, N>(pts),
                forall|h: int| #[trigger] q.contains(h) ==> r.contains(h),
                out0 == vertices(old(triangles)@),
            decreases n - j,
        {
            proof {
                lemma_at(was, q, 0);
                lemma_at(was, q, j);
                assert(q[j] != q[n - 1]);
            }
            if arena.nodes[a].i != arena.nodes[b].i && is_valid_diagonal(
                arena,
                a,
                b,
                Ghost(q),
                Ghost(j),
            ) {
                assert(first_split(pts, r, n) == Some((q, j)));
                split_and_slice(arena, a, b, triangles, g, Ghost(q), Ghost(j));
                proof {
                    lemma_kept_trans(was, was, arena.nodes@, r, q);
                }
                return ;
            }
            b = arena.nodes[b].next;
            proof {
                j = j + 1;
            }
        }
        assert(first_diagonal(pts, q, 2) is None);
        a = arena.nodes[a].next;
        proof {
            let t = turned(q);
            assert forall|h: int| #[trigger] t.contains(h) implies r.contains(h) by {
                assert(t.to_set().contains(h));
                assert(q.to_set().contains(h));
            }
            if left > 1 {
                assert(t[left - 1] == start);
                assert(t[0] != t[left - 1]);
            } else {
                assert(t[0] == start);
            }
            q = t;
            left = left - 1;
        }
        if a == start {
            break ;
        }
    }
}

/// Splits a polygon along a diagonal and triangulates both parts.
#[verifier::spinoff_prover]
#[verifier::rlimit(60)]
fn split_and_slice<C: Scalar, N: EarcutIndex>(
    arena: &mut Arena<C>,
    a: usize,
    b: usize,
    triangles: &mut Vec<N>,
    g: Grid<C>,
    Ghost(q): Ghost<Seq<int>>,
    Ghost(j): Ghost<int>,
)
    requires
        ring_ok(old(arena).nodes@, q),
        2 <= j < q.len() - 1,
        a == q[0],
        b == q[j],
        z_in_bounds(old(arena).nodes@),
        !old(arena).index_active,
        indexable::<C, N>(old(arena).pts()),
    ensures
        ({
            let pts = old(arena).pts();
            let all = bridged(pts, q[0], q[j]);
            let near = healed(all, near_part(q, j));
            let far = healed(all, far_part(q, j, pts.len() as int));
            let one = sliced(all, near, g);
            let two = sliced(one.pts, far, g);
            &&& extended(old(triangles)@, final(triangles)@)
            &&& vertices(final(triangles)@) == vertices(old(triangles)@) + (one.tris + two.tris)
            &&& final(arena).pts() == two.pts
        }),
        kept(old(arena).nodes@, final(arena).nodes@, q),
        z_in_bounds(final(arena).nodes@),
        final(arena).same_index(*old(arena)),
        indexable::<C, N>(final(arena).pts()),
    decreases q.len(), 0int,
{
    let ghost was = arena.nodes@;
    let ghost pts = arena.pts();
    let ghost out0 = vertices(triangles@);
    let ghost n = was.len() as int;
    proof {
        lemma_at(was, q, 0);
        lemma_at(was, q, j);
        assert(q[1] != q[j]);
        assert(q[j - 1] != q[0]);
        assert(q[0] != q[j]);
    }
    let c = arena.split_polygon(a, b);
    let ghost all = arena.pts();
    let ghost cut = arena.nodes@;
    let ghost near0 = near_part(q, j);
    let ghost far0 = far_part(q, j, n);
    proof {
        assert(pts.len() == n);
        lemma_split_ring(was, cut, q, j);
        lemma_at(cut, near0, 0);
        lemma_at(cut, far0, 0);
        assert forall|h: int| 0 <= h < all.len() implies N::fits(#[trigger] all[h].i) by {
            assert(N::fits(pts[q[0]].i) && N::fits(pts[q[j]].i));
            if h < n {
                assert(all[h] == pts[h]);
            }
        }
        lemma_healed_len(all, near0);
        lemma_healed_len(all, far0);
    }
    let a_next: usize = arena.nodes[a].next;
    let new_a = filter_points(arena, a, Some(a_next), Ghost(near0), Ghost(Seq::empty()));
    let ghost healed_a = arena.nodes@;
    let ghost near = healed(all, near0);
    proof {
        lemma_ring_frame(cut, healed_a, near0, far0);
        lemma_at(healed_a, far0, 0);
    }
    let c_next: usize = arena.nodes[c].next;
    let new_c = filter_points(arena, c, Some(c_next), Ghost(far0), Ghost(Seq::empty()));
    let ghost healed_c = arena.nodes@;
    let ghost far = healed(all, far0);
    proof {
        assert(near.to_set().disjoint(far0.to_set())) by {
            assert forall|h: int| near.to_set().contains(h) implies !far0.to_set().contains(h) by {
                assert(near.contains(h));
                assert(near0.contains(h));
                assert(near0.to_set().contains(h));
            }
        }
        lemma_ring_frame(healed_a, healed_c, far0, near);
    }
    earcut_linked(arena, new_a, triangles, g, Ghost(near));
    let ghost sliced_a = arena.nodes@;
    let ghost one = sliced(all, near, g);
    proof {
        assert(far.to_set().disjoint(near.to_set())) by {
            assert forall|h: int| far.to_set().contains(h) implies !near.to_set().contains(h) by {
                assert(far.contains(h));
                assert(far0.contains(h));
                assert(far0.to_set().contains(h));
                if near.contains(h) {
                    assert(near0.contains(h));
                    assert(near0.to_set().contains(h));
                }
            }
        }
        lemma_ring_frame(healed_c, sliced_a, near, far);
    }
    earcut_linked(arena, new_c, triangles, g, Ghost(far));
    proof {
        let two = sliced(one.pts, far, g);
        assert((out0 + one.tris) + two.tris =~= out0 + (one.tris + two.tris));
        assert forall|h: int| 0 <= h < n && #[trigger] near.contains(h) implies q.contains(h) by {
            assert(near0.contains(h));
        }
        assert forall|h: int| 0 <= h < n && #[trigger] far.contains(h) implies q.contains(h) by {
            assert(far0.contains(h));
        }
        lemma_kept_trans(was, cut, healed_a, q, near0);
        lemma_kept_trans(was, healed_a, healed_c, q, far0);
        lemma_kept_trans(was, healed_c, sliced_a, q, near);
        lemma_kept_trans(was, sliced_a, arena.nodes@, q, far);
    }
}

} // verus!
