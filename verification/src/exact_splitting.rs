//! Simple rings with integer coordinates are split and sliced completely.
use vstd::prelude::*;
use crate::areas::tri;
use crate::bounds::in_table;
use crate::diagonals::no_three_in_line;
use crate::exact::{whole, Exact};
use crate::exact_areas::{integer, lemma_corner_area, lemma_whole};
use crate::exact_diagonals::{different_vertices, lemma_valid_diagonal};
use crate::exact_polygons::lemma_exact_picks;
use crate::exact_simple::lemma_moderate_places;
use crate::fresh_index::{moderate_node, moderate_table};
use crate::geometry::{hashed, zero, Grid};
use crate::hashing::{lemma_same_halves, ring_on_grid};
use crate::model::{
    before, bridged, degenerate, far_part, first_diagonal, first_split, halved, healed,
    lemma_first_split, near_part, sliced, splittable, turned, turned_to, Pt,
};
use crate::rings::{is_ring, lemma_parts_rings, lemma_turned_to_ring};
use crate::scalar::Scalar;
use crate::simple::{
    early, late, left_handed, lemma_corners_differ, lemma_has_ear, lemma_late_at, lemma_seen_at,
    lemma_seen_ear, lemma_seen_left_handed, place, seen_at, simple,
};
use crate::simple_polygons::{lemma_simple_sliced, spots};
use crate::splitting::{lemma_ear_diagonal, lemma_split};

verus! {

/// A ring seen from another node is turned there.
proof fn lemma_turned_on(r: Seq<int>, m: int)
    requires
        1 <= m < r.len(),
    ensures
        turned_to(turned(r), m - 1) == turned_to(r, m),
        turned_to(r, 0) == r,
{
    assert(turned_to(turned(r), m - 1) =~= turned_to(r, m));
    assert(turned_to(r, 0) =~= r);
}

/// Where a node has a diagonal, a first one is found.
proof fn lemma_diagonal_found<C: Scalar>(pts: Seq<Pt<C>>, r: Seq<int>, k: int, j: int)
    requires
        2 <= k <= j < r.len() - 1,
        splittable(pts, r, j),
    ensures
        first_diagonal(pts, r, k) is Some,
    decreases j - k,
{
    if k < j && !splittable(pts, r, k) {
        lemma_diagonal_found(pts, r, k + 1, j);
    }
}

/// Where some node has a diagonal, a split is found.
pub(crate) proof fn lemma_split_found<C: Scalar>(pts: Seq<Pt<C>>, r: Seq<int>, left: int, m: int, j: int)
    requires
        0 <= m < left <= r.len(),
        2 <= j < r.len() - 1,
        splittable(pts, turned_to(r, m), j),
    ensures
        first_split(pts, r, left) is Some,
    decreases m,
{
    if m == 0 {
        assert(turned_to(r, 0) =~= r);
        lemma_diagonal_found(pts, r, 2, j);
    } else if first_diagonal(pts, r, 2) is None {
        lemma_turned_on(r, m);
        lemma_split_found(pts, turned(r), left - 1, m - 1, j);
    }
}

/// A split is of the ring seen from one of its nodes.
pub(crate) proof fn lemma_split_turn<C: Scalar>(pts: Seq<Pt<C>>, r: Seq<int>, left: int) -> (m: int)
    requires
        0 <= left <= r.len(),
        first_split(pts, r, left) is Some,
    ensures
        0 <= m < left,
        first_split(pts, r, left) matches Some((s, j)) ==> s == turned_to(r, m),
    decreases left,
{
    assert(turned_to(r, 0) =~= r);
    if first_diagonal(pts, r, 2) is Some {
        0
    } else {
        let k = lemma_split_turn(pts, turned(r), left - 1);
        if k + 1 < r.len() {
            lemma_turned_on(r, k + 1);
        }
        k + 1
    }
}

/// In a ring no three corners of which lie on one line no node is degenerate.
proof fn lemma_not_degenerate(pts: Seq<Pt<Exact>>, r: Seq<int>)
    requires
        moderate_table(pts),
        in_table(r, pts.len() as int),
        simple(spots(integer(), pts, r)),
        no_three_in_line(spots(integer(), pts, r)),
    ensures
        !degenerate(pts, r),
{
    let n = r.len() as int;
    let p = spots(integer(), pts, r);
    assert(0 <= r[0] < pts.len() && 0 <= r[1] < pts.len() && 0 <= r[n - 1] < pts.len());
    assert(moderate_node(pts[r[0]]) && moderate_node(pts[r[1]]) && moderate_node(pts[r[n - 1]]));
    let (a, b, c) = (p[n - 1], p[0], p[1]);
    lemma_corners_differ(p, 0, 1);
    lemma_whole(b.0, c.0);
    lemma_whole(b.1, c.1);
    lemma_corner_area(a.0, a.1, b.0, b.1, c.0, c.1);
    assert(tri(p[n - 1], p[0], p[1]) != 0);
    lemma_whole(-tri(a, b, c), 0);
    assert(pts[r[0]].x == whole(b.0) && pts[r[0]].y == whole(b.1));
    assert(pts[r[1]].x == whole(c.0) && pts[r[1]].y == whole(c.1));
    assert(pts[r[n - 1]].x == whole(a.0) && pts[r[n - 1]].y == whole(a.1));
}

/// A part of a ring that is in general position is healed by nothing but turning it, and sliced
/// completely.
proof fn lemma_part_sliced(pts: Seq<Pt<Exact>>, t: Seq<int>, g: Grid<Exact>)
    requires
        moderate_table(pts),
        in_table(t, pts.len() as int),
        left_handed(spots(integer(), pts, t)),
        no_three_in_line(spots(integer(), pts, t)),
        !hashed(g),
    ensures
        sliced(pts, healed(pts, t), g).complete,
        sliced(pts, healed(pts, t), g).pts == pts,
        sliced(pts, healed(pts, t), g).tris.len() == 3 * (t.len() - 2),
{
    let n = t.len() as int;
    let p = spots(integer(), pts, t);
    let u = turned(t);
    let q = spots(integer(), pts, u);
    lemma_not_degenerate(pts, t);
    assert(q =~= seen_at(p, 1));
    lemma_seen_left_handed(p, 1);
    assert(in_table(u, pts.len() as int)) by {
        assert forall|k: int| 0 <= k < u.len() implies 0 <= #[trigger] u[k] < pts.len() by {
            if k < n - 1 {
                assert(u[k] == t[k + 1]);
            } else {
                assert(u[k] == t[0]);
            }
        }
    }
    lemma_no_three_seen(p, 1);
    lemma_not_degenerate(pts, u);
    assert(healed(pts, t) == u);
    lemma_moderate_places(pts);
    lemma_simple_sliced(integer(), pts, u, g);
}

/// Corners are in general position wherever the ring is seen from.
proof fn lemma_no_three_seen(p: Seq<(int, int)>, m: int)
    requires
        no_three_in_line(p),
        0 <= m < p.len(),
    ensures
        no_three_in_line(seen_at(p, m)),
{
    let q = seen_at(p, m);
    let n = p.len() as int;
    assert forall|x: int, y: int, z: int|
        0 <= x < q.len() && 0 <= y < q.len() && 0 <= z < q.len() && x != y && y != z && x
            != z implies #[trigger] tri(q[x], q[y], q[z]) != 0 by {
        lemma_seen_at(p, m, x);
        lemma_seen_at(p, m, y);
        lemma_seen_at(p, m, z);
        assert(tri(p[place(x, m, n)], p[place(y, m, n)], p[place(z, m, n)]) != 0);
    }
}

/// A ring in general position, seen from another node.
proof fn lemma_turned_kept(pts: Seq<Pt<Exact>>, r: Seq<int>, m: int)
    requires
        is_ring(r, pts.len() as int),
        different_vertices(pts, r),
        left_handed(spots(integer(), pts, r)),
        no_three_in_line(spots(integer(), pts, r)),
        0 <= m < r.len(),
    ensures
        ({
            let s = turned_to(r, m);
            let q = spots(integer(), pts, s);
            &&& is_ring(s, pts.len() as int)
            &&& in_table(s, pts.len() as int)
            &&& different_vertices(pts, s)
            &&& q == seen_at(spots(integer(), pts, r), m)
            &&& left_handed(q)
            &&& no_three_in_line(q)
        }),
{
    let n = r.len() as int;
    let p = spots(integer(), pts, r);
    let s = turned_to(r, m);
    assert(spots(integer(), pts, s) =~= seen_at(p, m));
    lemma_turned_to_ring(r, m, pts.len() as int);
    lemma_seen_left_handed(p, m);
    lemma_no_three_seen(p, m);
    assert(different_vertices(pts, s)) by {
        assert forall|x: int, y: int| 0 <= x < s.len() && 0 <= y < s.len() && x != y implies pts[
            #[trigger] s[x]
        ].i != pts[#[trigger] s[y]].i by {
            assert(s[x] == r[place(x, m, n)] && s[y] == r[place(y, m, n)]);
            assert(pts[r[place(x, m, n)]].i != pts[r[place(y, m, n)]].i);
        }
    }
}

/// A split along the diagonal from the first node to that at place `j` gives two rings that are
/// sliced completely.
#[verifier::spinoff_prover]
proof fn lemma_parts_sliced(pts: Seq<Pt<Exact>>, s: Seq<int>, j: int, g: Grid<Exact>)
    requires
        moderate_table(pts),
        is_ring(s, pts.len() as int),
        left_handed(spots(integer(), pts, s)),
        no_three_in_line(spots(integer(), pts, s)),
        left_handed(early(spots(integer(), pts, s), j)),
        left_handed(late(spots(integer(), pts, s), j)),
        2 <= j < s.len() - 1,
        !hashed(g),
    ensures
        ({
            let all = bridged(pts, s[0], s[j]);
            let one = sliced(all, healed(all, near_part(s, j)), g);
            let two = sliced(one.pts, healed(all, far_part(s, j, pts.len() as int)), g);
            &&& one.complete
            &&& two.complete
            &&& one.tris.len() + two.tris.len() == 3 * (s.len() - 2)
        }),
{
    let n = pts.len() as int;
    let len = s.len() as int;
    let q = spots(integer(), pts, s);
    let all = bridged(pts, s[0], s[j]);
    let (near, far) = (near_part(s, j), far_part(s, j, n));
    assert(0 <= s[0] < n && 0 <= s[j] < n);
    assert(moderate_table(all)) by {
        assert forall|h: int| 0 <= h < all.len() implies moderate_node(#[trigger] all[h]) by {
            assert(moderate_node(pts[s[0]]) && moderate_node(pts[s[j]]));
            if h < n {
                assert(moderate_node(pts[h]));
            }
        }
    }
    lemma_parts_rings(s, j, n);
    let (a, b) = (spots(integer(), all, near), spots(integer(), all, far));
    assert(a =~= late(q, j)) by {
        assert forall|k: int| 0 <= k < a.len() implies #[trigger] a[k] == late(q, j)[k] by {
            let m = if k == 0 {
                0
            } else {
                k + j - 1
            };
            assert(near[k] == s[m] && 0 <= s[m] < n);
            if k > 0 {
                lemma_late_at(q, j, k);
            }
        }
    }
    let e = early(q, j);
    assert(b =~= seen_at(e, j)) by {
        assert forall|k: int| 0 <= k < b.len() implies #[trigger] b[k] == seen_at(e, j)[k] by {
            lemma_seen_at(e, j, k);
            if k >= 2 {
                assert(far[k] == s[k - 1] && 0 <= s[k - 1] < n);
            }
        }
    }
    lemma_seen_left_handed(e, j);
    assert(no_three_in_line(a)) by {
        assert forall|x: int, y: int, z: int|
            0 <= x < a.len() && 0 <= y < a.len() && 0 <= z < a.len() && x != y && y != z && x
                != z implies #[trigger] tri(a[x], a[y], a[z]) != 0 by {
            let f = |k: int|
                if k == 0 {
                    0
                } else {
                    k + j - 1
                };
            assert(a[x] == q[f(x)] && a[y] == q[f(y)] && a[z] == q[f(z)]);
            assert(tri(q[f(x)], q[f(y)], q[f(z)]) != 0);
        }
    }
    assert(no_three_in_line(e)) by {
        assert forall|x: int, y: int, z: int|
            0 <= x < e.len() && 0 <= y < e.len() && 0 <= z < e.len() && x != y && y != z && x
                != z implies #[trigger] tri(e[x], e[y], e[z]) != 0 by {
            assert(tri(q[x], q[y], q[z]) != 0);
        }
    }
    lemma_no_three_seen(e, j);
    lemma_part_sliced(all, near, g);
    lemma_part_sliced(all, far, g);
}

/// A simple ring of at least four corners with integer coordinates of moderate size, no three of
/// which lie on one line, is split along a diagonal, and its parts are sliced completely: `n` nodes
/// give `n - 2` triangles. With a grid, its nodes are on the grid.
pub proof fn lemma_split_completely(pts: Seq<Pt<Exact>>, r: Seq<int>, g: Grid<Exact>)
    requires
        moderate_table(pts),
        is_ring(r, pts.len() as int),
        different_vertices(pts, r),
        left_handed(spots(integer(), pts, r)),
        no_three_in_line(spots(integer(), pts, r)),
        r.len() >= 4,
        hashed(g) ==> ring_on_grid(pts, r, g),
    ensures
        halved(pts, r, g).complete,
        halved(pts, r, g).tris.len() == 3 * (r.len() - 2),
{
    let plain = Grid { inv_size: zero::<Exact>(), ..g };
    lemma_whole(0, 0);
    assert(!hashed(plain));
    if hashed(g) {
        lemma_exact_picks();
        lemma_same_halves(pts, r, g, plain);
        lemma_plainly_split(pts, r, plain);
    } else {
        lemma_plainly_split(pts, r, g);
    }
}

/// The case without a grid.
proof fn lemma_plainly_split(pts: Seq<Pt<Exact>>, r: Seq<int>, g: Grid<Exact>)
    requires
        moderate_table(pts),
        is_ring(r, pts.len() as int),
        different_vertices(pts, r),
        left_handed(spots(integer(), pts, r)),
        no_three_in_line(spots(integer(), pts, r)),
        r.len() >= 4,
        !hashed(g),
    ensures
        halved(pts, r, g).complete,
        halved(pts, r, g).tris.len() == 3 * (r.len() - 2),
{
    let n = r.len() as int;
    let p = spots(integer(), pts, r);
    let i = lemma_has_ear(p, 0);
    let m = before(i, n);
    let t = turned_to(r, m);
    let q = spots(integer(), pts, t);
    lemma_turned_kept(pts, r, m);
    lemma_seen_ear(p, m, 1);
    assert(place(1, m, n) == i);
    lemma_ear_diagonal(q);
    lemma_valid_diagonal(pts, t, 2);
    assert(pts[t[0]].i != pts[t[2]].i);
    lemma_split_found(pts, r, n, m, 2);
    let k = lemma_split_turn(pts, r, n);
    let (s, j) = first_split(pts, r, n)->0;
    lemma_first_split(pts, r, n);
    lemma_turned_kept(pts, r, k);
    lemma_valid_diagonal(pts, s, j);
    lemma_split(spots(integer(), pts, s), j);
    lemma_parts_sliced(pts, s, j, g);
}

} // verus!
