//! Reading rings from flat coordinates.
use vstd::prelude::*;
use vstd::arithmetic::div_mod::lemma_div_multiples_vanish;
use crate::arena::{
    kept, lemma_at, lemma_kept_trans, lemma_turned_to, ring_ok, unowned, z_in_bounds, Arena, NULL,
};
use crate::geometry::{lemma_multiples_apart, signed_area};
use crate::hole_model::{count_between, leftmost, listed, vertex_at};
use crate::model::turned_to;
use crate::scalar::Scalar;

verus! {

/// The handles of `m` nodes from `n` on.
pub(crate) open spec fn stretch(n: int, m: int) -> Seq<int> {
    Seq::new(m as nat, |k: int| n + k)
}

/// Where the coordinates of a vertex stand.
proof fn lemma_vertex(v: int, to: int, dim: int, len: int)
    requires
        0 <= v < to,
        dim >= 2,
        to * dim <= len,
    ensures
        0 <= v * dim,
        v * dim + dim == (v + 1) * dim,
        (v + 1) * dim <= to * dim,
        v * dim + 1 < len,
        (v * dim) / dim == v,
{
    lemma_div_multiples_vanish(v, dim);
    assert((v * dim) / dim == v) by {
        assert(v * dim == dim * v) by (nonlinear_arith);
    }
    assert(v * dim + dim == (v + 1) * dim) by (nonlinear_arith);
    assert((v + 1) * dim <= to * dim && 0 <= v * dim) by (nonlinear_arith)
        requires
            0 <= v < to,
            dim >= 2,
    ;
}

/// The order of multiples is that of their factors.
proof fn lemma_multiples(a: int, b: int, dim: int)
    requires
        dim >= 1,
    ensures
        a * dim < b * dim <==> a < b,
        (a * dim) % dim == 0,
{
    assert(a * dim < b * dim <==> a < b) by (nonlinear_arith)
        requires
            dim >= 1,
    ;
    vstd::arithmetic::div_mod::lemma_mod_multiples_basic(a, dim);
}

/// Adds the vertices `from`, `from + 1` and so on up to `to` as a ring.
fn insert_forward<C: Scalar>(
    arena: &mut Arena<C>,
    data: &[C],
    start: usize,
    end: usize,
    dim: usize,
    Ghost(from): Ghost<int>,
    Ghost(to): Ghost<int>,
) -> (last: usize)
    requires
        dim >= 2,
        0 <= from < to,
        start == from * dim,
        end == to * dim,
        end <= data@.len(),
        z_in_bounds(old(arena).nodes@),
        unowned(old(arena).nodes@),
    ensures
        ring_ok(
            final(arena).nodes@,
            stretch(old(arena).nodes@.len() as int, to - from),
        ),
        last == old(arena).nodes@.len() + (to - from) - 1,
        final(arena).pts() == old(arena).pts() + Seq::new(
            (to - from) as nat,
            |k: int| vertex_at(data@, dim as int, from + k),
        ),
        kept(old(arena).nodes@, final(arena).nodes@, Seq::empty()),
        z_in_bounds(final(arena).nodes@),
        unowned(final(arena).nodes@),
        final(arena).same_state(*old(arena)),
        final(arena).block_bbox == old(arena).block_bbox,
{
    let ghost was = arena.nodes@;
    let ghost n = was.len() as int;
    let ghost made = Seq::new((to - from) as nat, |k: int| vertex_at(data@, dim as int, from + k));
    let mut last: usize = NULL;
    let mut i: usize = start;
    let ghost mut k: int = 0;
    proof {
        lemma_multiples(from, to, dim as int);
        assert(arena.pts() =~= arena.pts() + made.take(0));
    }
    while i < end
        invariant
            dim >= 2,
            0 <= from < to,
            end == to * dim,
            end <= data@.len(),
            made == Seq::new((to - from) as nat, |k: int| vertex_at(data@, dim as int, from + k)),
            0 <= k <= to - from,
            i == (from + k) * dim,
            n == was.len(),
            arena.nodes@.len() == n + k,
            k == 0 <==> last == NULL,
            k > 0 ==> last == n + k - 1 && ring_ok(arena.nodes@, stretch(n, k)),
            arena.pts() == old(arena).pts() + made.take(k),
            old(arena).pts().len() == n,
            kept(was, arena.nodes@, Seq::empty()),
            z_in_bounds(arena.nodes@),
            unowned(arena.nodes@),
            arena.same_state(*old(arena)),
            arena.block_bbox == old(arena).block_bbox,
        decreases to - from - k,
    {
        let ghost v = from + k;
        let ghost before = arena.nodes@;
        let ghost r = stretch(n, k);
        proof {
            lemma_multiples(v, to, dim as int);
            lemma_vertex(v, to, dim as int, data@.len() as int);
        }
        last = arena.insert_node(i / dim, data[i], data[i + 1], last, Ghost(r));
        i = i + dim;
        proof {
            assert(arena.nodes@.len() == arena.pts().len());
            assert(r.push(n + k) =~= stretch(n, k + 1));
            lemma_kept_trans(was, before, arena.nodes@, Seq::empty(), r);
            assert(made.take(k + 1) =~= made.take(k).push(made[k]));
            assert(arena.pts() =~= old(arena).pts() + made.take(k + 1));
            k = k + 1;
        }
    }
    proof {
        lemma_multiples(from + k, to, dim as int);
        assert(made.take(k) =~= made);
    }
    last
}

/// Adds the vertices `to - 1`, `to - 2` and so on down to `from` as a ring.
fn insert_backward<C: Scalar>(
    arena: &mut Arena<C>,
    data: &[C],
    start: usize,
    end: usize,
    dim: usize,
    Ghost(from): Ghost<int>,
    Ghost(to): Ghost<int>,
) -> (last: usize)
    requires
        dim >= 2,
        0 <= from < to,
        start == from * dim,
        end == to * dim,
        end <= data@.len(),
        z_in_bounds(old(arena).nodes@),
        unowned(old(arena).nodes@),
    ensures
        ring_ok(
            final(arena).nodes@,
            stretch(old(arena).nodes@.len() as int, to - from),
        ),
        last == old(arena).nodes@.len() + (to - from) - 1,
        final(arena).pts() == old(arena).pts() + Seq::new(
            (to - from) as nat,
            |k: int| vertex_at(data@, dim as int, to - 1 - k),
        ),
        kept(old(arena).nodes@, final(arena).nodes@, Seq::empty()),
        z_in_bounds(final(arena).nodes@),
        unowned(final(arena).nodes@),
        final(arena).same_state(*old(arena)),
        final(arena).block_bbox == old(arena).block_bbox,
{
    let ghost was = arena.nodes@;
    let ghost n = was.len() as int;
    let ghost made = Seq::new((to - from) as nat, |k: int| vertex_at(data@, dim as int, to - 1 - k));
    let mut last: usize = NULL;
    let mut i: usize = end;
    let ghost mut k: int = 0;
    proof {
        lemma_multiples(from, to, dim as int);
        assert(arena.pts() =~= arena.pts() + made.take(0));
    }
    while i > start
        invariant
            dim >= 2,
            0 <= from < to,
            start == from * dim,
            to * dim <= data@.len(),
            made == Seq::new((to - from) as nat, |k: int| vertex_at(data@, dim as int, to - 1 - k)),
            0 <= k <= to - from,
            i == (to - k) * dim,
            n == was.len(),
            arena.nodes@.len() == n + k,
            k == 0 <==> last == NULL,
            k > 0 ==> last == n + k - 1 && ring_ok(arena.nodes@, stretch(n, k)),
            arena.pts() == old(arena).pts() + made.take(k),
            old(arena).pts().len() == n,
            kept(was, arena.nodes@, Seq::empty()),
            z_in_bounds(arena.nodes@),
            unowned(arena.nodes@),
            arena.same_state(*old(arena)),
            arena.block_bbox == old(arena).block_bbox,
        decreases to - from - k,
    {
        let ghost v = to - k - 1;
        let ghost before = arena.nodes@;
        let ghost r = stretch(n, k);
        proof {
            lemma_multiples(from, to - k, dim as int);
            lemma_vertex(v, to, dim as int, data@.len() as int);
            assert(i == v * dim + dim);
        }
        i = i - dim;
        last = arena.insert_node(i / dim, data[i], data[i + 1], last, Ghost(r));
        proof {
            assert(arena.nodes@.len() == arena.pts().len());
            assert(r.push(n + k) =~= stretch(n, k + 1));
            lemma_kept_trans(was, before, arena.nodes@, Seq::empty(), r);
            assert(made.take(k + 1) =~= made.take(k).push(made[k]));
            assert(arena.pts() =~= old(arena).pts() + made.take(k + 1));
            k = k + 1;
        }
    }
    proof {
        lemma_multiples(from, to - k, dim as int);
        assert(made.take(k) =~= made);
    }
    last
}

/// Creates a ring from polygon points in the specified winding order.
pub(crate) fn linked_list<C: Scalar>(
    arena: &mut Arena<C>,
    data: &[C],
    start: usize,
    end: usize,
    dim: usize,
    clockwise: bool,
    Ghost(from): Ghost<int>,
    Ghost(to): Ghost<int>,
) -> (res: Option<usize>)
    requires
        dim >= 2,
        0 <= from,
        0 <= to,
        start == from * dim,
        end == to * dim,
        end <= data@.len(),
        z_in_bounds(old(arena).nodes@),
        unowned(old(arena).nodes@),
        !old(arena).index_active,
    ensures
        ({
            let l = listed(old(arena).pts(), data@, dim as int, from, to, clockwise);
            &&& final(arena).pts() == l.pts
            &&& res is None <==> l.ring.len() == 0
            &&& res matches Some(h) ==> ring_ok(final(arena).nodes@, l.ring) && h == l.ring[0]
            &&& forall|h: int| #[trigger] l.ring.contains(h) ==> h >= old(arena).nodes@.len()
        }),
        kept(old(arena).nodes@, final(arena).nodes@, Seq::empty()),
        z_in_bounds(final(arena).nodes@),
        unowned(final(arena).nodes@),
        final(arena).same_state(*old(arena)),
        final(arena).block_bbox == old(arena).block_bbox,
{
    let ghost was = arena.nodes@;
    let ghost n = was.len() as int;
    let ghost l = listed(old(arena).pts(), data@, dim as int, from, to, clockwise);
    let ghost m = count_between(from, to) as int;
    proof {
        lemma_multiples(from, to, dim as int);
        lemma_multiples(to, from, dim as int);
        if start < end {
            lemma_multiples_apart(start as int, end as int, dim as int);
        }
        assert(old(arena).pts().len() == n);
    }
    let forward: bool = clockwise == C::from_int(0).less(signed_area(data, start, end, dim));
    if start >= end {
        proof {
            assert(l.pts =~= old(arena).pts());
        }
        return None;
    }
    let last: usize = if forward {
        insert_forward(arena, data, start, end, dim, Ghost(from), Ghost(to))
    } else {
        insert_backward(arena, data, start, end, dim, Ghost(from), Ghost(to))
    };
    let ghost listed_nodes = arena.nodes@;
    let ghost all = stretch(n, m);
    let ghost r = turned_to(all, m - 1);
    proof {
        assert(arena.pts() =~= l.pts);
        lemma_turned_to(listed_nodes, all, m - 1);
        lemma_at(listed_nodes, r, 0);
        assert forall|h: int| all.contains(h) implies h >= n by {}
        assert forall|h: int| r.contains(h) implies h >= n by {
            let k = choose|k: int| 0 <= k < r.len() && r[k] == h;
            assert(r[k] >= n);
        }
    }
    let next: usize = arena.nodes[last].next;
    // the last point may repeat the first
    if next != last && arena.equals(last, next) {
        proof {
            assert(m >= 2);
            assert(next == n);
        }
        arena.remove_node(last, Ghost(r), Ghost(Seq::empty()));
        proof {
            assert(r.drop_first() =~= l.ring);
            lemma_kept_trans(was, listed_nodes, arena.nodes@, Seq::empty(), r);
            assert forall|h: int| 0 <= h < arena.nodes@.len() implies
                #[trigger] arena.nodes@[h].block == 0 by {
                assert(listed_nodes[h].block == 0);
            }
        }
        Some(next)
    } else {
        proof {
            if m >= 2 {
                assert(next == n);
            } else {
                assert(r.len() == 1);
            }
            assert(r =~= l.ring);
        }
        Some(last)
    }
}

/// Finds the leftmost node of a polygon ring.
pub(crate) fn get_leftmost<C: Scalar>(
    arena: &Arena<C>,
    start: usize,
    Ghost(r): Ghost<Seq<int>>,
) -> (res: usize)
    requires
        ring_ok(arena.nodes@, r),
        start == r[0],
    ensures
        0 <= leftmost(arena.pts(), r, r.len() as int) < r.len(),
        res == r[leftmost(arena.pts(), r, r.len() as int)],
{
    let ghost pts = arena.pts();
    proof {
        lemma_at(arena.nodes@, r, 0);
    }
    let mut best: usize = start;
    let mut p: usize = arena.nodes[start].next;
    let ghost mut k: int = 1;
    assert(r.len() == 1 ==> p == start);
    while p != start
        invariant
            ring_ok(arena.nodes@, r),
            pts == arena.pts(),
            start == r[0],
            1 <= k <= r.len(),
            p == (if k < r.len() {
                r[k]
            } else {
                r[0]
            }),
            0 <= leftmost(pts, r, k) < k,
            best == r[leftmost(pts, r, k)],
        decreases r.len() - k,
    {
        proof {
            lemma_at(arena.nodes@, r, k);
            lemma_at(arena.nodes@, r, leftmost(pts, r, k));
        }
        let pn = arena.nodes[p];
        let ln = arena.nodes[best];
        if pn.x.less(ln.x) || (pn.x.same(ln.x) && pn.y.less(ln.y)) {
            best = p;
        }
        p = pn.next;
        proof {
            k = k + 1;
        }
    }
    proof {
        if k < r.len() {
            assert(r[k] != r[0]);
        }
    }
    best
}

} // verus!
