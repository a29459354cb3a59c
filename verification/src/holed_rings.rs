//! Rings with holes joined to them, one after the other.
use vstd::prelude::*;
use crate::areas::{spot, tri};
use crate::bounds::in_table;
use crate::diagonals::off_ring;
use crate::exact::Exact;
use crate::exact_areas::integer;
use crate::hole_model::{
    bridge, connected, healed_outline, joined, merged, seen_from, slit_healed, Outline,
};
use crate::model::{after, bridged, turned, turned_to, Pt};
use crate::rings::is_ring;
use crate::segments::{lemma_tri, on};
use crate::sight::{edge_apart, general, sees};
use crate::simple::{lemma_seen_at, place, seen_at};
use crate::simple_holes::{lemma_crossing_swapped, strangers};
use crate::simple_polygons::spots;
use crate::tiling::lemma_turned_winding;
use crate::weak::{bent, faces, ground, scattered, weakly_left, weakly_simple};
use crate::weak_cuts::{lemma_weak_seen, uncrossed_by};
use crate::weak_joins::{
    from_left, joinable, lemma_beside_line, lemma_faces_left, lemma_slit_at, lemma_slit_winding,
    lemma_weak_join, scattered_together, slit_ring, uncrossing_rings,
};
use crate::weak_slices::{
    lemma_prefix_spots, lemma_sound_bridged, lemma_turned_to_used, lemma_weak_healed,
    lemma_weak_turned_to, ring_used, sound_table,
};
use crate::winding::{next, winding};

verus! {

// ---------------------------------------------------------------------------------------------
// One hole
// ---------------------------------------------------------------------------------------------
/// All corners of the ring are among the vertices.
pub(crate) open spec fn drawn_from(p: Seq<(int, int)>, all: Seq<(int, int)>) -> bool {
    forall|k: int| 0 <= k < p.len() ==> all.contains(#[trigger] p[k])
}

/// Different points among vertices of which no three lie on one line.
pub(crate) proof fn lemma_no_line(
    all: Seq<(int, int)>,
    a: (int, int),
    b: (int, int),
    c: (int, int),
)
    requires
        scattered(all),
        all.contains(a) && all.contains(b) && all.contains(c),
        a != b && b != c && a != c,
    ensures
        tri(a, b, c) != 0,
{
    let i = choose|i: int| 0 <= i < all.len() && all[i] == a;
    let j = choose|j: int| 0 <= j < all.len() && all[j] == b;
    let k = choose|k: int| 0 <= k < all.len() && all[k] == c;
    assert(tri(all[i], all[j], all[k]) != 0);
}

/// Corners among vertices of which no three lie on one line.
pub(crate) proof fn lemma_scattered(p: Seq<(int, int)>, all: Seq<(int, int)>)
    requires
        scattered(all),
        drawn_from(p, all),
    ensures
        scattered(p),
{
    assert forall|a: int, b: int, c: int|
        0 <= a < p.len() && 0 <= b < p.len() && 0 <= c < p.len() && p[a] != p[b] && p[b] != p[c]
            && p[a] != p[c] implies #[trigger] tri(p[a], p[b], p[c]) != 0 by {
        lemma_no_line(all, p[a], p[b], p[c]);
    }
}

/// The hole runs clockwise from its leftmost corner.
pub(crate) open spec fn hole_like(h: Seq<(int, int)>, all: Seq<(int, int)>) -> bool {
    &&& weakly_simple(h)
    &&& ground(h, h[0]) == -1
    &&& from_left(h)
    &&& forall|k: int| 0 < k < h.len() ==> #[trigger] h[k] != h[0]
    &&& drawn_from(h, all)
}

/// The ring runs once around the hole, which does not touch it.
pub(crate) open spec fn awaits(p: Seq<(int, int)>, h: Seq<(int, int)>) -> bool {
    &&& strangers(p, h)
    &&& uncrossing_rings(p, h)
    &&& winding(p, h[0]) == 1
}

/// The second hole comes after the first, which does not run around it nor touch it.
pub(crate) open spec fn after_hole(h: Seq<(int, int)>, g: Seq<(int, int)>) -> bool {
    &&& strangers(h, g)
    &&& uncrossing_rings(h, g)
    &&& winding(h, g[0]) == 0
    &&& h[0].0 <= g[0].0
}

/// The first corner of a hole that awaits its turn is off the ring, and in line with none of its
/// edges.
pub(crate) proof fn lemma_awaiting(
    p: Seq<(int, int)>,
    h: Seq<(int, int)>,
    all: Seq<(int, int)>,
)
    requires
        scattered(all),
        weakly_left(p),
        drawn_from(p, all),
        hole_like(h, all),
        awaits(p, h),
    ensures
        general(p, h[0]),
        off_ring(p, h[0]),
{
    let q = h[0];
    let n = p.len() as int;
    assert(all.contains(h[0]));
    assert forall|a: int, b: int| 0 <= a < n && 0 <= b < n && p[a] != p[b] implies #[trigger] tri(
        p[a],
        p[b],
        q,
    ) != 0 by {
        assert(p[a] != h[0] && p[b] != h[0]);
        lemma_no_line(all, p[a], p[b], q);
    }
    assert forall|k: int| 0 <= k < n implies !on(#[trigger] p[k], next(p, k), q) by {
        let f = after(k, n);
        assert(bent(p, k));
        assert(tri(p[k], p[f], q) != 0);
    }
}

/// What awaits its turn does so wherever the ring is seen from.
pub(crate) proof fn lemma_awaits_seen(p: Seq<(int, int)>, h: Seq<(int, int)>, m: int)
    requires
        p.len() >= 2,
        0 <= m < p.len(),
        awaits(p, h),
    ensures
        awaits(seen_at(p, m), h),
{
    let n = p.len() as int;
    let s = seen_at(p, m);
    lemma_turned_winding(p, h[0], m);
    assert forall|i: int, j: int| 0 <= i < s.len() && 0 <= j < h.len() implies #[trigger] s[i]
        != #[trigger] h[j] by {
        lemma_seen_at(p, m, i);
        assert(p[place(i, m, n)] != h[j]);
    }
    assert forall|i: int, j: int| 0 <= i < s.len() && 0 <= j < h.len() implies
        #[trigger] uncrossed_by(s, i, h[j], next(h, j)) by {
        lemma_seen_at(p, m, i);
        assert(uncrossed_by(p, place(i, m, n), h[j], next(h, j)));
    }
}

/// A ring seen from another corner has the same corners.
pub(crate) proof fn lemma_drawn_seen(p: Seq<(int, int)>, all: Seq<(int, int)>, m: int)
    requires
        0 <= m < p.len(),
        drawn_from(p, all),
    ensures
        drawn_from(seen_at(p, m), all),
{
    let s = seen_at(p, m);
    assert forall|k: int| 0 <= k < s.len() implies all.contains(#[trigger] s[k]) by {
        lemma_seen_at(p, m, k);
    }
}

/// The ring and the hole whose turn has come can be joined where the hole sees a corner to its left
/// that faces it.
#[verifier::spinoff_prover]
pub(crate) proof fn lemma_joinable(
    p: Seq<(int, int)>,
    h: Seq<(int, int)>,
    all: Seq<(int, int)>,
    i: int,
)
    requires
        scattered(all),
        weakly_left(p),
        drawn_from(p, all),
        hole_like(h, all),
        awaits(p, h),
        0 <= i < p.len(),
        p[i].0 < h[0].0,
        sees(p, h[0], i),
        faces(p, i, h[0]),
    ensures
        joinable(seen_at(p, i), h),
{
    let n = p.len() as int;
    let u = seen_at(p, i);
    let b = p[i];
    let l = h.len() as int;
    lemma_seen_at(p, i, 0);
    assert(place(0, i, n) == i);
    assert(u[0] == b);
    lemma_weak_seen(p, i);
    lemma_awaits_seen(p, h, i);
    lemma_drawn_seen(p, all, i);
    assert(drawn_from(u + h, all)) by {
        assert forall|k: int| 0 <= k < (u + h).len() implies all.contains(
            #[trigger] (u + h)[k],
        ) by {
            if k < u.len() {
                assert((u + h)[k] == u[k]);
            } else {
                assert((u + h)[k] == h[k - u.len()]);
            }
        }
    }
    lemma_scattered(u + h, all);
    assert(scattered_together(u, h));
    assert(bent(h, 0));
    assert(h[0] != b && h[1] != b && h[l - 1] != b);
    assert(all.contains(h[0]) && all.contains(h[1]) && all.contains(h[l - 1]) && all.contains(
        p[i],
    ));
    lemma_no_line(all, h[0], h[1], b);
    lemma_no_line(all, h[0], h[l - 1], b);
    lemma_faces_left(h, b);
    assert forall|k: int| 0 <= k < u.len() implies #[trigger] uncrossed_by(
        u,
        k,
        u[0],
        h[0],
    ) by {
        lemma_seen_at(p, i, k);
        let j = place(k, i, n);
        assert(edge_apart(p, h[0], i, j));
        lemma_tri(b, h[0], b);
        lemma_tri(p[j], next(p, j), b);
    }
}

/// What awaits its turn still does once a hole before it has been joined.
#[verifier::spinoff_prover]
pub(crate) proof fn lemma_awaits_joined(
    u: Seq<(int, int)>,
    h: Seq<(int, int)>,
    g: Seq<(int, int)>,
)
    requires
        u.len() >= 3,
        h.len() >= 3,
        g.len() >= 3,
        u[0].0 < h[0].0,
        from_left(g),
        awaits(u, g),
        after_hole(h, g),
    ensures
        awaits(slit_ring(u, h), g),
{
    let s = slit_ring(u, h);
    let m = u.len() as int;
    lemma_slit_winding(u, h, g[0]);
    assert forall|i: int, j: int| 0 <= i < s.len() && 0 <= j < g.len() implies #[trigger] s[i]
        != #[trigger] g[j] by {
        lemma_slit_at(u, h, i);
        assert(u[0] != g[j] && h[0] != g[j]);
        if 2 <= i <= m {
            assert(u[i - 1] != g[j]);
        } else if i > m + 2 {
            assert(h[i - m - 2] != g[j]);
        }
    }
    assert forall|i: int, j: int| 0 <= i < s.len() && 0 <= j < g.len() implies
        #[trigger] uncrossed_by(s, i, g[j], next(g, j)) by {
        lemma_slit_at(u, h, i);
        let (a, b) = (g[j], next(g, j));
        if i == 0 || i == m + 1 {
            assert(g[0].0 <= g[j].0);
            assert(g[0].0 <= g[after(j, g.len() as int)].0);
            lemma_beside_line(a, b, u[0], h[0], h[0].0);
            lemma_crossing_swapped(a, b, u[0], h[0]);
            lemma_crossing_swapped(u[0], h[0], a, b);
        } else if i <= m {
            assert(uncrossed_by(u, i - 1, g[j], next(g, j)));
        } else {
            assert(uncrossed_by(h, i - m - 2, g[j], next(g, j)));
        }
    }
}

/// The corners of the joined ring are those of the two.
pub(crate) proof fn lemma_drawn_joined(
    u: Seq<(int, int)>,
    h: Seq<(int, int)>,
    all: Seq<(int, int)>,
)
    requires
        u.len() >= 3,
        h.len() >= 3,
        drawn_from(u, all),
        drawn_from(h, all),
    ensures
        drawn_from(slit_ring(u, h), all),
{
    let s = slit_ring(u, h);
    let m = u.len() as int;
    assert forall|k: int| 0 <= k < s.len() implies all.contains(#[trigger] s[k]) by {
        lemma_slit_at(u, h, k);
        assert(all.contains(u[0]) && all.contains(h[0]));
        if 2 <= k <= m {
            assert(all.contains(u[k - 1]));
        } else if k > m + 2 {
            assert(all.contains(h[k - m - 2]));
        }
    }
}

// ---------------------------------------------------------------------------------------------
// Merging in the table
// ---------------------------------------------------------------------------------------------
/// The corners of a ring and a hole that are joined.
#[verifier::spinoff_prover]
proof fn lemma_joined_spots(pts: Seq<Pt<Exact>>, r: Seq<int>, hole: Seq<int>)
    requires
        in_table(r, pts.len() as int),
        in_table(hole, pts.len() as int),
        r.len() > 0,
        hole.len() > 0,
    ensures
        ({
            let n = pts.len() as int;
            let more = bridged(pts, r[0], hole[0]);
            &&& in_table(joined(r, hole, n), n + 2)
            &&& spots(integer(), more, joined(r, hole, n)) == slit_ring(
                spots(integer(), pts, r),
                spots(integer(), pts, hole),
            )
        }),
{
    let val = integer();
    let n = pts.len() as int;
    let more = bridged(pts, r[0], hole[0]);
    let t = joined(r, hole, n);
    let (p, h) = (spots(val, pts, r), spots(val, pts, hole));
    let m = r.len() as int;
    let s = slit_ring(p, h);
    assert(t.len() == m + hole.len() + 2);
    assert(0 <= r[0] < n && 0 <= hole[0] < n);
    assert forall|k: int| 0 <= k < t.len() implies 0 <= (#[trigger] t[k]) < n + 2 && spot(
        val,
        more,
        t[k],
    ) == s[k] by {
        if k == 0 || k == 1 {
        } else if k < m + 2 {
            let j = after(k - 2, m);
            assert(t[k] == r[j]);
            assert(0 <= r[j] < n);
            assert(more[r[j]] == pts[r[j]]);
            if k < m + 1 {
                assert(s[k] == p[k - 1]);
            } else {
                assert(s[k] == p[0]);
            }
        } else {
            let j = k - 2 - m;
            assert(t[k] == hole[j]);
            assert(0 <= hole[j] < n);
            assert(more[hole[j]] == pts[hole[j]]);
            assert(s[k] == h[j]);
        }
    }
    assert(spots(val, more, t) =~= s);
}

/// What is left of a ring, seen from another node.
pub(crate) open spec fn same_ring(
    pts: Seq<Pt<Exact>>,
    used: spec_fn(usize) -> bool,
    r: Seq<int>,
    p: Seq<(int, int)>,
) -> bool {
    &&& ring_used(pts, used, r)
    &&& r.len() == p.len()
    &&& exists|m: int| 0 <= m < p.len() && spots(integer(), pts, r) == #[trigger] seen_at(p, m)
}

/// Turning a ring on.
proof fn lemma_same_turned(
    pts: Seq<Pt<Exact>>,
    used: spec_fn(usize) -> bool,
    r: Seq<int>,
    p: Seq<(int, int)>,
    j: int,
)
    requires
        same_ring(pts, used, r, p),
        weakly_left(p),
        0 <= j < r.len(),
    ensures
        same_ring(pts, used, turned_to(r, j), p),
{
    let n = p.len() as int;
    lemma_turned_to_used(pts, used, r, j);
    let m = choose|m: int| 0 <= m < p.len() && spots(integer(), pts, r) == #[trigger] seen_at(p, m);
    lemma_weak_seen(p, m);
    lemma_weak_turned_to(pts, r, j);
    let s = seen_at(p, m);
    let l = place(j, m, n);
    assert forall|k: int| 0 <= k < n implies seen_at(s, j)[k] == seen_at(p, l)[k] by {
        lemma_seen_at(s, j, k);
        lemma_seen_at(p, m, place(k, j, n));
        lemma_seen_at(p, l, k);
    }
    assert(seen_at(s, j) =~= seen_at(p, l));
    assert(turned_to(r, j).len() == r.len());
}

/// The ring and a hole joined by a bridge to the node at place `i`.
#[verifier::spinoff_prover]
proof fn lemma_connected_ring(
    o: Outline<Exact>,
    used: spec_fn(usize) -> bool,
    hole: Seq<int>,
    i: int,
)
    requires
        is_ring(o.ring, o.pts.len() as int),
        ring_used(o.pts, used, o.ring),
        ring_used(o.pts, used, hole),
        hole.len() > 0,
        0 <= i < o.ring.len(),
    ensures
        ({
            let b = o.ring[i];
            let c = connected(o, hole, b);
            &&& c.pts == bridged(o.pts, b, hole[0])
            &&& c.ring.len() == o.ring.len() + hole.len() + 2
            &&& c.ring.contains(b)
            &&& same_ring(
                c.pts,
                used,
                c.ring,
                slit_ring(
                    seen_at(spots(integer(), o.pts, o.ring), i),
                    spots(integer(), o.pts, hole),
                ),
            )
        }),
{
    let val = integer();
    let n = o.pts.len() as int;
    let b = o.ring[i];
    assert(o.ring.contains(o.ring[i]));
    assert(o.ring.index_of(b) == i) by {
        let k = o.ring.index_of(b);
        assert(o.ring[k] == b && 0 <= k < o.ring.len());
    }
    let r = turned_to(o.ring, i);
    assert(seen_from(o.ring, b) == r);
    assert(r[0] == b && r.len() == o.ring.len());
    assert(spots(val, o.pts, r) =~= seen_at(spots(val, o.pts, o.ring), i));
    lemma_joined_spots(o.pts, r, hole);
    let c = connected(o, hole, b);
    assert(c.pts == bridged(o.pts, b, hole[0]) && c.ring == joined(r, hole, n));
    let s = slit_ring(spots(val, o.pts, r), spots(val, o.pts, hole));
    assert(seen_at(s, 0) =~= s);
    let m = r.len() as int;
    assert(turned(r)[m - 1] == b);
    assert(c.ring[m + 1] == b);
    lemma_turned_to_used(o.pts, used, o.ring, i);
    assert forall|k: int| 0 <= k < c.ring.len() implies 0 <= (#[trigger] c.ring[k]) < c.pts.len()
        && used(c.pts[c.ring[k]].i) by {
        assert(0 <= r[0] < n && 0 <= hole[0] < n);
        if k == 0 || k == 1 {
        } else if k < m + 2 {
            let j = after(k - 2, m);
            assert(c.ring[k] == r[j]);
            assert(0 <= r[j] < n && c.pts[r[j]] == o.pts[r[j]]);
        } else {
            let j = k - 2 - m;
            assert(c.ring[k] == hole[j]);
            assert(0 <= hole[j] < n && c.pts[hole[j]] == o.pts[hole[j]]);
        }
    }
}

/// Merging a hole into a ring with which it can be joined: the joined ring, seen from one of its
/// nodes, is what is left.
#[verifier::spinoff_prover]
pub(crate) proof fn lemma_merged_joined(
    o: Outline<Exact>,
    used: spec_fn(usize) -> bool,
    hole: Seq<int>,
    i: int,
    t: Seq<(int, int)>,
)
    requires
        sound_table(o.pts, used),
        is_ring(o.ring, o.pts.len() as int),
        ring_used(o.pts, used, o.ring),
        ring_used(o.pts, used, hole),
        hole.len() > 0,
        0 <= i < o.ring.len(),
        bridge(o, hole[0]) == Some(o.ring[i]),
        t == slit_ring(
            seen_at(spots(integer(), o.pts, o.ring), i),
            spots(integer(), o.pts, hole),
        ),
        weakly_left(t),
    ensures
        ({
            let w = merged(o, hole);
            &&& sound_table(w.pts, used)
            &&& o.pts.is_prefix_of(w.pts)
            &&& same_ring(w.pts, used, w.ring, t)
            &&& w.ring.len() == o.ring.len() + hole.len() + 2
        }),
{
    let b = o.ring[i];
    let c = connected(o, hole, b);
    lemma_connected_ring(o, used, hole, i);
    assert(0 <= o.ring[i] < o.pts.len() && 0 <= hole[0] < o.pts.len());
    lemma_sound_bridged(o.pts, b, hole[0], used);
    lemma_slit_healed(c, used, b, t);
    assert(merged(o, hole) == slit_healed(c, b));
}

/// Healing drops nothing of a ring that touches itself at corners at most.
#[verifier::spinoff_prover]
proof fn lemma_slit_healed(
    c: Outline<Exact>,
    used: spec_fn(usize) -> bool,
    b: int,
    s: Seq<(int, int)>,
)
    requires
        sound_table(c.pts, used),
        same_ring(c.pts, used, c.ring, s),
        weakly_left(s),
        c.ring.contains(b),
    ensures
        slit_healed(c, b).pts == c.pts,
        same_ring(c.pts, used, slit_healed(c, b).ring, s),
{
    let one = healed_outline(c);
    lemma_same_weak(c.pts, used, c.ring, s);
    lemma_weak_healed(c.pts, c.ring);
    assert(turned(c.ring) =~= turned_to(c.ring, 1));
    lemma_same_turned(c.pts, used, c.ring, s, 1);
    assert(one.ring.contains(b)) by {
        let m = c.ring.index_of(b);
        let n = c.ring.len() as int;
        assert(c.ring[m] == b && 0 <= m < n);
        assert(turned(c.ring)[if m == 0 {
            n - 1
        } else {
            m - 1
        }] == b);
    }
    let at = one.ring.index_of(b);
    assert(0 <= at < one.ring.len() && one.ring[at] == b);
    let two = seen_from(one.ring, b);
    lemma_same_turned(c.pts, used, one.ring, s, at);
    lemma_same_weak(c.pts, used, two, s);
    lemma_weak_healed(c.pts, two);
    assert(turned(two) =~= turned_to(two, 1));
    lemma_same_turned(c.pts, used, two, s, 1);
}

/// What is left of a ring runs as the ring does.
proof fn lemma_same_weak(
    pts: Seq<Pt<Exact>>,
    used: spec_fn(usize) -> bool,
    r: Seq<int>,
    p: Seq<(int, int)>,
)
    requires
        same_ring(pts, used, r, p),
        weakly_left(p),
    ensures
        weakly_left(spots(integer(), pts, r)),
{
    let m = choose|m: int| 0 <= m < p.len() && spots(integer(), pts, r) == #[trigger] seen_at(p, m);
    lemma_weak_seen(p, m);
}

// ---------------------------------------------------------------------------------------------
// One hole after the other
// ---------------------------------------------------------------------------------------------
/// The outline is a ring that runs counterclockwise and touches itself at corners at most, and the
/// holes from number `k` on await their turn.
pub(crate) open spec fn merged_well(
    w: Outline<Exact>,
    used: spec_fn(usize) -> bool,
    pts: Seq<Pt<Exact>>,
    s: Seq<Seq<int>>,
    all: Seq<(int, int)>,
    k: int,
) -> bool {
    let p = spots(integer(), w.pts, w.ring);
    &&& sound_table(w.pts, used)
    &&& pts.is_prefix_of(w.pts)
    &&& ring_used(w.pts, used, w.ring)
    &&& weakly_left(p)
    &&& drawn_from(p, all)
    &&& forall|j: int| k <= j < s.len() ==> awaits(p, spots(integer(), pts, #[trigger] s[j]))
}

/// The holes run clockwise from their leftmost corners, beside each other.
pub(crate) open spec fn holes_ready(
    pts: Seq<Pt<Exact>>,
    used: spec_fn(usize) -> bool,
    s: Seq<Seq<int>>,
    all: Seq<(int, int)>,
) -> bool {
    &&& forall|j: int|
        0 <= j < s.len() ==> ring_used(pts, used, #[trigger] s[j]) && hole_like(
            spots(integer(), pts, s[j]),
            all,
        )
    &&& forall|i: int, j: int|
        0 <= i < j < s.len() ==> after_hole(
            spots(integer(), pts, #[trigger] s[i]),
            spots(integer(), pts, #[trigger] s[j]),
        )
}

/// Merging the hole whose turn it is, at the corner that it sees.
#[verifier::spinoff_prover]
pub(crate) proof fn lemma_merged_next(
    w: Outline<Exact>,
    used: spec_fn(usize) -> bool,
    pts: Seq<Pt<Exact>>,
    s: Seq<Seq<int>>,
    all: Seq<(int, int)>,
    k: int,
    i: int,
)
    requires
        scattered(all),
        merged_well(w, used, pts, s, all, k),
        holes_ready(pts, used, s, all),
        is_ring(w.ring, w.pts.len() as int),
        0 <= k < s.len(),
        0 <= i < w.ring.len(),
        bridge(w, s[k][0]) == Some(w.ring[i]),
        ({
            let p = spots(integer(), w.pts, w.ring);
            let q = spots(integer(), pts, s[k])[0];
            p[i].0 < q.0 && sees(p, q, i) && faces(p, i, q)
        }),
    ensures
        merged_well(merged(w, s[k]), used, pts, s, all, k + 1),
        merged(w, s[k]).ring.len() == w.ring.len() + s[k].len() + 2,
{
    let val = integer();
    let p = spots(val, w.pts, w.ring);
    let h = spots(val, pts, s[k]);
    let u = seen_at(p, i);
    let t = slit_ring(u, h);
    let v = merged(w, s[k]);
    assert(ring_used(pts, used, s[k]) && hole_like(h, all));
    lemma_prefix_spots(pts, w.pts, s[k]);
    assert forall|x: int| 0 <= x < s[k].len() implies 0 <= (#[trigger] s[k][x]) < w.pts.len()
        && used(w.pts[s[k][x]].i) by {
        assert(pts[s[k][x]] == w.pts[s[k][x]]);
    }
    lemma_joinable(p, h, all, i);
    lemma_weak_join(u, h);
    lemma_merged_joined(w, used, s[k], i, t);
    lemma_same_weak(v.pts, used, v.ring, t);
    let m = choose|m: int|
        0 <= m < t.len() && spots(val, v.pts, v.ring) == #[trigger] seen_at(t, m);
    lemma_seen_at(p, i, 0);
    assert(place(0, i, p.len() as int) == i);
    lemma_drawn_seen(p, all, i);
    lemma_drawn_joined(u, h, all);
    lemma_drawn_seen(t, all, m);
    assert(pts.is_prefix_of(v.pts)) by {
        assert forall|x: int| 0 <= x < pts.len() implies pts[x] == v.pts[x] by {
            assert(pts[x] == w.pts[x]);
        }
        assert(v.pts.subrange(0, pts.len() as int) =~= pts);
    }
    assert forall|j: int| k + 1 <= j < s.len() implies awaits(
        seen_at(t, m),
        spots(val, pts, #[trigger] s[j]),
    ) by {
        let g = spots(val, pts, s[j]);
        assert(hole_like(g, all));
        assert(awaits(p, g));
        assert(after_hole(h, g));
        lemma_awaits_seen(p, g, i);
        lemma_awaits_joined(u, h, g);
        lemma_awaits_seen(t, g, m);
    }
}

} // verus!
