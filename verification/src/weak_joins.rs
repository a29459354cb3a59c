//! Joining a hole to a weakly simple ring gives such a ring.
use vstd::prelude::*;
use crate::areas::{abs, tri};
use crate::diagonals::no_three_in_line;
use crate::model::{after, before};
use crate::segments::{
    affine, apart, crossing, lemma_balance_at, lemma_differences, lemma_four, lemma_signs,
    lemma_tri, on, under,
};
use crate::simple::{
    left_handed, lemma_below, lemma_corners_differ, lemma_has_lowest, lemma_lowest_turn,
    lemma_weighed, lowest, simple, uncrossing,
};
use crate::weak::{
    bent, edge_clear, faces, ground, in_turn, lemma_bend, lemma_clear, lemma_faced_point,
    lemma_faces_once, lemma_ground_along, lemma_ground_bound, lemma_no_turns, lemma_not_faced,
    lemma_sight_line, lemma_turns_more, off_rays, scattered, sharing, turn_away, turns_away,
    weakly_left, weakly_simple,
};
use crate::weak_cuts::{
    apart_rays, lemma_halves_away, lemma_halves_sharing, lemma_still_sharing, uncrossed_by,
};
use crate::winding::{lemma_passes_back, next, passes, passings, prev, winding};

verus! {

// ---------------------------------------------------------------------------------------------
// Simple rings
// ---------------------------------------------------------------------------------------------
/// A simple ring no three corners of which lie on one line is weakly simple, and runs
/// counterclockwise as such if it does.
pub(crate) proof fn lemma_simple_weak(p: Seq<(int, int)>)
    requires
        simple(p),
        no_three_in_line(p),
    ensures
        weakly_simple(p),
        left_handed(p) <==> weakly_left(p),
        !left_handed(p) <==> ground(p, p[0]) == -1,
{
    let n = p.len() as int;
    assert forall|a: int, b: int, c: int|
        0 <= a < n && 0 <= b < n && 0 <= c < n && p[a] != p[b] && p[b] != p[c] && p[a]
            != p[c] implies #[trigger] tri(p[a], p[b], p[c]) != 0 by {}
    assert forall|i: int| 0 <= i < n implies #[trigger] bent(p, i) by {
        lemma_corners_differ(p, i, after(i, n));
        lemma_corners_differ(p, i, before(i, n));
        lemma_corners_differ(p, before(i, n), after(i, n));
    }
    assert forall|i: int, j: int| 0 <= i < n && 0 <= j < n implies #[trigger] uncrossing(
        p,
        i,
        j,
    ) by {
        if i == j || j == after(i, n) || i == after(j, n) {
            lemma_tri(p[i], next(p, i), p[i]);
            lemma_tri(p[i], next(p, i), next(p, i));
        }
    }
    assert forall|i: int, j: int|
        0 <= i < n && 0 <= j < n && i != j && p[i] == p[j] implies #[trigger] sharing(p, i, j) by {
        lemma_corners_differ(p, i, j);
    }
    let m = lemma_ground_bound(p);
    let l = lemma_has_lowest(p, n);
    assert(lowest(p, l));
    lemma_lowest_turn(p, l);
    assert(p[m] == p[l]) by {
        assert(p[m] == p[l] || under(p[m], p[l]));
        assert(l != m ==> under(p[l], p[m]));
    }
    assert forall|j: int| 0 <= j < n && #[trigger] p[j] == p[m] implies j == l by {
        if j != l {
            lemma_corners_differ(p, j, l);
        }
    }
}

// ---------------------------------------------------------------------------------------------
// To the left of a ring
// ---------------------------------------------------------------------------------------------
/// A point in a cone to the right is to the right.
proof fn lemma_cone_right(o: (int, int), n: (int, int), d: (int, int), v: (int, int))
    requires
        tri(o, n, v) > 0,
        tri(o, n, d) > 0,
        tri(o, d, v) > 0,
        n.0 >= o.0,
        v.0 >= o.0,
    ensures
        d.0 >= o.0,
{
    let k = (0int, 1int, 0int);
    lemma_four(k, o, n, d, v);
    assert(affine(k, o) == o.0 && affine(k, n) == n.0 && affine(k, d) == d.0 && affine(k, v)
        == v.0) by (nonlinear_arith)
        requires
            k == (0int, 1int, 0int),
            affine(k, o) == k.0 + k.1 * o.0 + k.2 * o.1,
            affine(k, n) == k.0 + k.1 * n.0 + k.2 * n.1,
            affine(k, d) == k.0 + k.1 * d.0 + k.2 * d.1,
            affine(k, v) == k.0 + k.1 * v.0 + k.2 * v.1,
    ;
    lemma_balance_at(
        tri(n, d, v),
        tri(o, d, v),
        tri(o, n, v),
        tri(o, n, d),
        o.0,
        n.0,
        d.0,
        v.0,
        o.0,
    );
    lemma_signs(tri(n, d, v), o.0 - o.0);
    lemma_signs(tri(o, d, v), n.0 - o.0);
    lemma_signs(tri(o, n, v), d.0 - o.0);
    lemma_signs(tri(o, n, d), v.0 - o.0);
}

/// A segment to the left of a vertical line does not cross one to its right.
pub(crate) proof fn lemma_beside_line(
    u: (int, int),
    v: (int, int),
    q: (int, int),
    w: (int, int),
    c: int,
)
    requires
        u.0 >= c,
        v.0 >= c,
        q.0 <= c,
        w.0 <= c,
        q.0 < c || w.0 < c,
    ensures
        !crossing(u, v, q, w),
{
    if crossing(u, v, q, w) {
        let (f, g) = ((c, 0int), (c, -1int));
        lemma_weighed(f, g, u, v, q, w);
        lemma_right_of(c, u);
        lemma_right_of(c, v);
        lemma_right_of(c, q);
        lemma_right_of(c, w);
        lemma_signs(abs(tri(q, w, v)), u.0 - c);
        lemma_signs(abs(tri(q, w, u)), v.0 - c);
        lemma_signs(abs(tri(u, v, w)), q.0 - c);
        lemma_signs(abs(tri(u, v, q)), w.0 - c);
    }
}

/// How far a point is to the right of a vertical line.
proof fn lemma_right_of(c: int, p: (int, int))
    ensures
        tri((c, 0int), (c, -1int), p) == p.0 - c,
{
    lemma_differences(c, c, p.1, 0);
    lemma_differences(-1, 0, p.0, c);
    assert((c - c) * (p.1 - 0) == 0) by (nonlinear_arith);
    assert((-1 - 0) * (p.0 - c) == -(p.0 - c)) by (nonlinear_arith);
}

/// The first corner is as far left as any.
pub open spec fn from_left(h: Seq<(int, int)>) -> bool {
    forall|k: int| 0 <= k < h.len() ==> h[0].0 <= (#[trigger] h[k]).0
}

/// A point below a ring and to the left of its first corner, in line with no neighbour of it.
proof fn lemma_outpost(o: (int, int), n: (int, int), v: (int, int), low: int) -> (z: (int, int))
    requires
        n.0 >= o.0,
        v.0 >= o.0,
        n != o,
        v != o,
        low <= o.1,
    ensures
        z.0 < o.0,
        z.1 < low,
        tri(o, n, z) != 0,
        tri(o, v, z) != 0,
{
    let z = (o.0 - 1, low - 1 - abs(n.1 - o.1) - abs(v.1 - o.1));
    lemma_slope_missed(o, n, z);
    lemma_slope_missed(o, v, z);
    z
}

/// A point steeply below is not in line.
proof fn lemma_slope_missed(o: (int, int), n: (int, int), z: (int, int))
    requires
        n.0 >= o.0,
        n != o,
        z.0 == o.0 - 1,
        z.1 - o.1 < -abs(n.1 - o.1),
    ensures
        tri(o, n, z) != 0,
{
    lemma_differences(n.0, o.0, z.1, o.1);
    lemma_differences(n.1, o.1, z.0, o.0);
    let (a, b, c) = (n.0 - o.0, n.1 - o.1, z.1 - o.1);
    assert(b * (z.0 - o.0) == -b) by (nonlinear_arith)
        requires
            z.0 - o.0 == -1,
    ;
    assert(tri(o, n, z) == a * c + b);
    if a > 0 {
        assert(a * c <= c) by (nonlinear_arith)
            requires
                a >= 1,
                c < 0,
        ;
    } else {
        lemma_signs(a, c);
    }
}

/// The first corner of a weakly simple ring that runs clockwise, if it is as far left as any and no
/// other corner is there, faces all points further left, and no edge crosses the way there.
#[verifier::spinoff_prover]
pub(crate) proof fn lemma_faces_left(h: Seq<(int, int)>, b: (int, int))
    requires
        weakly_simple(h),
        ground(h, h[0]) == -1,
        from_left(h),
        forall|k: int| 0 < k < h.len() ==> #[trigger] h[k] != h[0],
        b.0 < h[0].0,
        tri(h[0], next(h, 0), b) != 0,
        tri(h[0], prev(h, 0), b) != 0,
    ensures
        faces(h, 0, b),
        forall|k: int| 0 <= k < h.len() ==> #[trigger] uncrossed_by(h, k, b, h[0]),
{
    let l = h.len() as int;
    let o = h[0];
    let (n, v) = (next(h, 0), prev(h, 0));
    lemma_bend(h, 0);
    assert(n == h[after(0, l)] && v == h[before(0, l)]);
    let m = lemma_ground_bound(h);
    assert(h[m] == h[0] || under(h[m], h[0]));
    let z = lemma_outpost(o, n, v, h[m].1);
    assert forall|k: int| 0 <= k < l implies #[trigger] edge_clear(h, k, o, z) by {
        lemma_bend(h, k);
        let j = after(k, l);
        let (u, w) = (h[k], h[j]);
        if u != o && w != o {
            lemma_beside_line(u, w, o, z, o.0);
            lemma_left_apart(u, w, o, z);
            assert(tri(h[k], h[j], h[0]) != 0);
        }
    }
    lemma_sight_line(h, o, z);
    assert forall|k: int| 0 <= k < l implies #[trigger] h[k] != z by {
        assert(h[0].0 <= h[k].0);
    }
    lemma_no_turns(h, z, o, l);
    assert forall|k: int| 0 <= k < l implies z == #[trigger] h[k] || under(z, h[k]) by {
        assert(h[m] == h[k] || under(h[m], h[k]));
    }
    lemma_below(h, z, l);
    let j = lemma_turns_more(h, o, z, l);
    assert(j == 0);
    lemma_tri(o, n, z);
    lemma_tri(o, v, z);
    lemma_not_faced(h, 0, z);
    assert(h[0].0 <= h[after(0, l)].0 && h[0].0 <= h[before(0, l)].0);
    lemma_tri(v, o, n);
    lemma_tri(o, n, v);
    lemma_tri(o, n, b);
    lemma_tri(o, v, b);
    reveal(in_turn);
    if tri(o, n, v) > 0 {
        lemma_cone_right(o, n, z, v);
    } else if !faces(h, 0, b) {
        lemma_cone_right(o, v, b, n);
    }
    assert forall|k: int| 0 <= k < l implies #[trigger] uncrossed_by(h, k, b, o) by {
        let i = after(k, l);
        assert(h[0].0 <= h[k].0 && h[0].0 <= h[i].0);
        lemma_beside_line(h[k], h[i], b, o, o.0);
    }
}

/// An edge to the right of a point is apart from a segment from there to the left.
proof fn lemma_left_apart(u: (int, int), w: (int, int), o: (int, int), z: (int, int))
    requires
        u.0 >= o.0,
        w.0 >= o.0,
        z.0 < o.0,
        u != o,
        w != o,
        !crossing(u, w, o, z),
    ensures
        tri(u, w, o) != 0 ==> apart(u, w, o, z),
{
    lemma_beside_on(u, w, z, o.0);
    if on(o, z, u) {
        lemma_on_left(o, z, u);
    }
    if on(o, z, w) {
        lemma_on_left(o, z, w);
    }
}

/// A point on a segment to the left is the end of it, or to the left.
proof fn lemma_on_left(o: (int, int), z: (int, int), u: (int, int))
    requires
        on(o, z, u),
        z.0 < o.0,
        u.0 >= o.0,
    ensures
        u == o,
{
    lemma_differences(z.0, o.0, u.1, o.1);
    lemma_differences(z.1, o.1, u.0, o.0);
    let (a, b, c, d) = (z.0 - o.0, z.1 - o.1, u.0 - o.0, u.1 - o.1);
    assert(a * d == b * c);
    if u != o {
        lemma_signs(a, d);
        lemma_signs(b, c);
    }
}

/// A point to the left of both ends of a segment is not on it.
proof fn lemma_beside_on(u: (int, int), w: (int, int), z: (int, int), c: int)
    requires
        u.0 >= c,
        w.0 >= c,
        z.0 < c,
    ensures
        !on(u, w, z),
{
    if on(u, w, z) {
        lemma_differences(w.0, u.0, z.1, u.1);
        lemma_differences(w.1, u.1, z.0, u.0);
        let (a, b, f, d) = (w.0 - u.0, w.1 - u.1, z.0 - u.0, z.1 - u.1);
        assert(a * d == b * f);
        lemma_signs(a, d);
        lemma_signs(b, f);
        lemma_differences(u.0, w.0, z.1, w.1);
        lemma_differences(u.1, w.1, z.0, w.0);
        lemma_tri(u, w, z);
        let (g, i) = (z.0 - w.0, z.1 - w.1);
        assert(a * i == b * g) by (nonlinear_arith)
            requires
                a * d == b * f,
                i == d - b,
                g == f - a,
        ;
        lemma_signs(a, i);
        lemma_signs(b, g);
    }
}

// ---------------------------------------------------------------------------------------------
// Joining
// ---------------------------------------------------------------------------------------------
/// The ring of `p` and `h`, joined by a slit between their first corners.
pub open spec fn slit_ring(p: Seq<(int, int)>, h: Seq<(int, int)>) -> Seq<(int, int)> {
    seq![h[0]] + p + seq![p[0]] + h
}

/// No three corners of either ring lie on one line, and the rings have none in common.
pub open spec fn scattered_together(p: Seq<(int, int)>, h: Seq<(int, int)>) -> bool {
    &&& scattered(p + h)
    &&& forall|i: int, j: int|
        0 <= i < p.len() && 0 <= j < h.len() ==> #[trigger] p[i] != #[trigger] h[j]
}

/// No edge of one ring crosses an edge of the other.
pub open spec fn uncrossing_rings(p: Seq<(int, int)>, h: Seq<(int, int)>) -> bool {
    forall|i: int, j: int|
        0 <= i < p.len() && 0 <= j < h.len() ==> #[trigger] uncrossed_by(p, i, h[j], next(h, j))
}

/// The rings can be joined: their first corners face each other, and no edge crosses the slit
/// between them.
pub open spec fn joinable(p: Seq<(int, int)>, h: Seq<(int, int)>) -> bool {
    &&& weakly_left(p)
    &&& weakly_simple(h)
    &&& ground(h, h[0]) == -1
    &&& scattered_together(p, h)
    &&& uncrossing_rings(p, h)
    &&& faces(p, 0, h[0])
    &&& faces(h, 0, p[0])
    &&& forall|k: int| 0 <= k < p.len() ==> #[trigger] uncrossed_by(p, k, p[0], h[0])
    &&& forall|k: int| 0 <= k < h.len() ==> #[trigger] uncrossed_by(h, k, p[0], h[0])
}

/// Corners and edges of the joined ring.
pub(crate) proof fn lemma_slit_at(p: Seq<(int, int)>, h: Seq<(int, int)>, k: int)
    requires
        p.len() >= 3,
        h.len() >= 3,
        0 <= k < p.len() + h.len() + 2,
    ensures
        ({
            let j = slit_ring(p, h);
            let (m, l) = (p.len() as int, h.len() as int);
            &&& j.len() == m + l + 2
            &&& k == 0 ==> j[k] == h[0] && next(j, k) == p[0] && prev(j, k) == prev(h, 0)
            &&& k == 1 ==> j[k] == p[0] && next(j, k) == next(p, 0) && prev(j, k) == h[0]
            &&& 2 <= k <= m ==> j[k] == p[k - 1] && next(j, k) == next(p, k - 1) && prev(j, k)
                == prev(p, k - 1)
            &&& k == m + 1 ==> j[k] == p[0] && next(j, k) == h[0] && prev(j, k) == prev(p, 0)
            &&& k == m + 2 ==> j[k] == h[0] && next(j, k) == next(h, 0) && prev(j, k) == p[0]
            &&& k > m + 2 ==> j[k] == h[k - m - 2] && next(j, k) == next(h, k - m - 2) && prev(j, k)
                == prev(h, k - m - 2)
        }),
{
    let j = slit_ring(p, h);
    let (m, l) = (p.len() as int, h.len() as int);
    let n = m + l + 2;
    assert(j.len() == n);
    assert(after(k, n) == k + 1 || k == n - 1);
    assert forall|i: int| 1 <= i <= m implies #[trigger] j[i] == p[i - 1] by {}
    assert forall|i: int| m + 2 <= i < n implies #[trigger] j[i] == h[i - m - 2] by {}
    assert(j[0] == h[0] && j[m + 1] == p[0]);
}

/// The place in the two rings of a corner of the joined one.
spec fn slit_place(m: int, k: int) -> int {
    if k == 0 {
        m
    } else if k <= m {
        k - 1
    } else if k == m + 1 {
        0
    } else {
        k - 2
    }
}

/// What is known of the ends of a slit.
proof fn lemma_slit_ends(p: Seq<(int, int)>, h: Seq<(int, int)>)
    requires
        joinable(p, h),
    ensures
        p[0] != h[0],
        apart_rays(p, 0, h[0]),
        apart_rays(h, 0, p[0]),
        off_rays(p, 0, h[0]),
        off_rays(h, 0, p[0]),
        forall|k: int| 0 < k < p.len() && p[k] == p[0] ==> !#[trigger] faces(p, k, h[0]),
        forall|k: int| 0 < k < h.len() && h[k] == h[0] ==> !#[trigger] faces(h, k, p[0]),
{
    let (m, l) = (p.len() as int, h.len() as int);
    let c = p + h;
    assert(c[m] == h[0] && c[0] == p[0]);
    assert(p[0] != h[0]);
    assert forall|x: int| 0 <= x < m && #[trigger] p[x] != p[0] implies tri(p[0], p[x], h[0])
        != 0 by {
        assert(c[x] == p[x]);
        assert(p[x] != h[0]);
        assert(tri(c[0], c[x], c[m]) != 0);
    }
    assert forall|x: int| 0 <= x < l && #[trigger] h[x] != h[0] implies tri(h[0], h[x], p[0])
        != 0 by {
        assert(c[m + x] == h[x]);
        assert(p[0] != h[x]);
        assert(tri(c[m], c[m + x], c[0]) != 0);
    }
    assert forall|k: int| 0 <= k < m && #[trigger] p[k] == p[0] implies tri(
        p[0],
        next(p, k),
        h[0],
    ) != 0 && tri(p[0], prev(p, k), h[0]) != 0 by {
        lemma_bend(p, k);
        assert(p[after(k, m)] != p[0] && p[before(k, m)] != p[0]);
    }
    assert forall|k: int| 0 <= k < l && #[trigger] h[k] == h[0] implies tri(
        h[0],
        next(h, k),
        p[0],
    ) != 0 && tri(h[0], prev(h, k), p[0]) != 0 by {
        lemma_bend(h, k);
        assert(h[after(k, l)] != h[0] && h[before(k, l)] != h[0]);
    }
    assert forall|k: int| 0 < k < m && p[k] == p[0] implies !#[trigger] faces(p, k, h[0]) by {
        assert(p[0] == p[0]);
        lemma_faces_once(p, 0, k, h[0]);
    }
    assert forall|k: int| 0 < k < l && h[k] == h[0] implies !#[trigger] faces(h, k, p[0]) by {
        assert(h[0] == h[0]);
        lemma_faces_once(h, 0, k, p[0]);
    }
}

/// Corners of the joined ring that are at one point of the first ring get along.
#[verifier::spinoff_prover]
proof fn lemma_slit_sharing(p: Seq<(int, int)>, h: Seq<(int, int)>, i: int, k: int)
    requires
        joinable(p, h),
        1 <= i <= p.len() + 1,
        1 <= k <= p.len() + 1,
        i != k,
        slit_ring(p, h)[i] == slit_ring(p, h)[k],
    ensures
        sharing(slit_ring(p, h), i, k),
{
    let m = p.len() as int;
    let j = slit_ring(p, h);
    let (a, b) = (slit_place(m, i), slit_place(m, k));
    lemma_slit_at(p, h, i);
    lemma_slit_at(p, h, k);
    lemma_slit_ends(p, h);
    lemma_bend(p, 0);
    assert(p[0] == p[0]);
    if a == b {
        assert(a == 0);
        lemma_tri(p[0], prev(p, 0), h[0]);
        if i == 1 {
            lemma_halves_sharing(j, i, k, prev(p, 0), next(p, 0), h[0]);
        } else {
            lemma_halves_sharing(j, k, i, prev(p, 0), next(p, 0), h[0]);
        }
    } else if p[a] == p[0] {
        assert(sharing(p, a, b));
        assert(apart_rays(p, a, h[0]));
        assert(next(p, a) == p[after(a, m)] && next(p, b) == p[after(b, m)]);
        assert(p[after(a, m)] != h[0] && p[after(b, m)] != h[0]);
        lemma_still_sharing(p, j, i, k, a, b, h[0]);
    } else {
        assert(sharing(p, a, b));
    }
}

/// Corners of the joined ring that are at one point of the second ring get along.
#[verifier::spinoff_prover]
proof fn lemma_slit_sharing_hole(p: Seq<(int, int)>, h: Seq<(int, int)>, i: int, k: int)
    requires
        joinable(p, h),
        i == 0 || p.len() + 2 <= i < p.len() + h.len() + 2,
        k == 0 || p.len() + 2 <= k < p.len() + h.len() + 2,
        i != k,
        slit_ring(p, h)[i] == slit_ring(p, h)[k],
    ensures
        sharing(slit_ring(p, h), i, k),
{
    let (m, l) = (p.len() as int, h.len() as int);
    let j = slit_ring(p, h);
    let (a, b) = (slit_place(m, i) - m, slit_place(m, k) - m);
    lemma_slit_at(p, h, i);
    lemma_slit_at(p, h, k);
    lemma_slit_ends(p, h);
    lemma_bend(h, 0);
    assert(h[0] == h[0]);
    if a == b {
        assert(a == 0);
        lemma_tri(h[0], prev(h, 0), p[0]);
        if i == 0 {
            lemma_halves_sharing(j, k, i, prev(h, 0), next(h, 0), p[0]);
        } else {
            lemma_halves_sharing(j, i, k, prev(h, 0), next(h, 0), p[0]);
        }
    } else if h[a] == h[0] {
        assert(sharing(h, a, b));
        assert(apart_rays(h, a, p[0]));
        assert(next(h, a) == h[after(a, l)] && next(h, b) == h[after(b, l)]);
        assert(p[0] != h[after(a, l)] && p[0] != h[after(b, l)]);
        lemma_still_sharing(h, j, i, k, a, b, p[0]);
    } else {
        assert(sharing(h, a, b));
    }
}

/// No edges of the joined ring cross.
#[verifier::spinoff_prover]
proof fn lemma_slit_uncrossed(p: Seq<(int, int)>, h: Seq<(int, int)>, i: int, k: int)
    requires
        joinable(p, h),
        0 <= i < p.len() + h.len() + 2,
        0 <= k < p.len() + h.len() + 2,
    ensures
        uncrossing(slit_ring(p, h), i, k),
{
    let m = p.len() as int;
    let j = slit_ring(p, h);
    lemma_slit_at(p, h, i);
    lemma_slit_at(p, h, k);
    let (f, g) = (slit_edge(m, i), slit_edge(m, k));
    let (u, v, q, w) = (j[i], next(j, i), j[k], next(j, k));
    if f < 0 && g < 0 {
        lemma_tri(p[0], h[0], p[0]);
        lemma_tri(p[0], h[0], h[0]);
        lemma_tri(h[0], p[0], p[0]);
        lemma_tri(h[0], p[0], h[0]);
    } else if f < 0 {
        if g < m {
            assert(uncrossed_by(p, g, p[0], h[0]));
        } else {
            assert(uncrossed_by(h, g - m, p[0], h[0]));
        }
        lemma_tri(p[0], h[0], q);
        lemma_tri(p[0], h[0], w);
        lemma_tri(q, w, p[0]);
    } else if g < 0 {
        if f < m {
            assert(uncrossed_by(p, f, p[0], h[0]));
        } else {
            assert(uncrossed_by(h, f - m, p[0], h[0]));
        }
        lemma_tri(p[0], h[0], u);
        lemma_tri(p[0], h[0], v);
    } else if f < m && g < m {
        assert(uncrossing(p, f, g));
    } else if f >= m && g >= m {
        assert(uncrossing(h, f - m, g - m));
    } else if f < m {
        assert(uncrossed_by(p, f, h[g - m], next(h, g - m)));
    } else {
        assert(uncrossed_by(p, g, h[f - m], next(h, f - m)));
    }
}

/// The place in the two rings of an edge of the joined one; negative for the sides of the slit.
spec fn slit_edge(m: int, k: int) -> int {
    if k == 0 || k == m + 1 {
        -1
    } else if k <= m {
        k - 1
    } else {
        k - 2
    }
}

/// The joined ring is weakly simple.
#[verifier::spinoff_prover]
proof fn lemma_slit_weak(p: Seq<(int, int)>, h: Seq<(int, int)>)
    requires
        joinable(p, h),
    ensures
        weakly_simple(slit_ring(p, h)),
{
    let (m, l) = (p.len() as int, h.len() as int);
    let j = slit_ring(p, h);
    let c = p + h;
    let n = m + l + 2;
    lemma_slit_ends(p, h);
    lemma_slit_at(p, h, 0);
    assert forall|k: int| 0 <= k < n implies #[trigger] j[k] == c[slit_place(m, k)] && 0
        <= slit_place(m, k) < m + l by {
        lemma_slit_at(p, h, k);
    }
    assert forall|a: int, b: int, d: int|
        0 <= a < n && 0 <= b < n && 0 <= d < n && j[a] != j[b] && j[b] != j[d] && j[a]
            != j[d] implies #[trigger] tri(j[a], j[b], j[d]) != 0 by {
        assert(tri(c[slit_place(m, a)], c[slit_place(m, b)], c[slit_place(m, d)]) != 0);
    }
    assert forall|k: int| 0 <= k < n implies #[trigger] bent(j, k) by {
        lemma_slit_at(p, h, k);
        if k == 0 || k >= m + 2 {
            let i = slit_place(m, k) - m;
            assert(bent(h, i));
            assert(p[0] != h[after(0, l)] && p[0] != h[before(0, l)]);
        } else {
            let i = slit_place(m, k);
            assert(bent(p, i));
            assert(p[after(0, m)] != h[0] && p[before(0, m)] != h[0]);
        }
    }
    assert forall|i: int, k: int| 0 <= i < n && 0 <= k < n implies #[trigger] uncrossing(
        j,
        i,
        k,
    ) by {
        lemma_slit_uncrossed(p, h, i, k);
    }
    assert forall|i: int, k: int|
        0 <= i < n && 0 <= k < n && i != k && j[i] == j[k] implies #[trigger] sharing(j, i, k) by {
        lemma_slit_at(p, h, i);
        lemma_slit_at(p, h, k);
        let (a, b) = (slit_place(m, i), slit_place(m, k));
        assert(c[a] == c[b]);
        if a < m && b < m {
            lemma_slit_sharing(p, h, i, k);
        } else if a >= m && b >= m {
            lemma_slit_sharing_hole(p, h, i, k);
        } else if a < m {
            assert(p[a] != h[b - m]);
        } else {
            assert(p[b] != h[a - m]);
        }
    }
}

/// The passings of the joined ring, as far as the first ring.
proof fn lemma_slit_passings(p: Seq<(int, int)>, h: Seq<(int, int)>, q: (int, int), k: int)
    requires
        p.len() >= 3,
        h.len() >= 3,
        0 <= k <= p.len(),
    ensures
        passings(slit_ring(p, h), q, k + 1) == passes(h[0], p[0], q) + passings(p, q, k),
    decreases k,
{
    let j = slit_ring(p, h);
    lemma_slit_at(p, h, k);
    if k == 0 {
        assert(passings(j, q, 0) == 0);
        assert(passings(j, q, 1) == passings(j, q, 0) + passes(j[0], next(j, 0), q));
    } else {
        lemma_slit_passings(p, h, q, k - 1);
    }
}

/// The passings of the joined ring.
proof fn lemma_slit_passings_hole(p: Seq<(int, int)>, h: Seq<(int, int)>, q: (int, int), k: int)
    requires
        p.len() >= 3,
        h.len() >= 3,
        0 <= k <= h.len(),
    ensures
        passings(slit_ring(p, h), q, p.len() + 2 + k) == winding(p, q) + passings(h, q, k),
    decreases k,
{
    let m = p.len() as int;
    let j = slit_ring(p, h);
    if k == 0 {
        lemma_slit_passings(p, h, q, m);
        lemma_slit_at(p, h, m + 1);
        lemma_passes_back(p[0], h[0], q);
    } else {
        lemma_slit_passings_hole(p, h, q, k - 1);
        lemma_slit_at(p, h, m + 1 + k);
    }
}

/// The joined ring runs around a point as the two rings together do.
pub(crate) proof fn lemma_slit_winding(p: Seq<(int, int)>, h: Seq<(int, int)>, q: (int, int))
    requires
        p.len() >= 3,
        h.len() >= 3,
    ensures
        winding(slit_ring(p, h), q) == winding(p, q) + winding(h, q),
{
    lemma_slit_passings_hole(p, h, q, h.len() as int);
    lemma_slit_at(p, h, 0);
}

/// What the corners of the joined ring at the start of the slit add where they face nothing.
proof fn lemma_slit_away(p: Seq<(int, int)>, h: Seq<(int, int)>, k: int)
    requires
        p.len() >= 3,
        h.len() >= 3,
        1 <= k <= p.len(),
        p[0] != h[0],
    ensures
        turns_away(slit_ring(p, h), p[0], k + 1) == turns_away(p, p[0], k) - turn_away(
            prev(p, 0),
            p[0],
            next(p, 0),
        ) + turn_away(h[0], p[0], next(p, 0)),
    decreases k,
{
    let j = slit_ring(p, h);
    let o = p[0];
    lemma_slit_at(p, h, 0);
    lemma_slit_at(p, h, k);
    if k == 1 {
        assert(turns_away(j, o, 0) == 0 && turns_away(p, o, 0) == 0);
        assert(turns_away(j, o, 1) == 0);
        assert(turns_away(j, o, 2) == turns_away(j, o, 1) + turn_away(h[0], o, next(p, 0)));
        assert(turns_away(p, o, 1) == turn_away(prev(p, 0), o, next(p, 0)));
    } else {
        lemma_slit_away(p, h, k - 1);
    }
}

/// The corners of the second ring add nothing at the start of the slit.
proof fn lemma_slit_away_hole(p: Seq<(int, int)>, h: Seq<(int, int)>, k: int)
    requires
        p.len() >= 3,
        h.len() >= 3,
        0 <= k <= h.len(),
        forall|i: int| 0 <= i < h.len() ==> #[trigger] h[i] != p[0],
    ensures
        turns_away(slit_ring(p, h), p[0], p.len() + 2 + k) == turns_away(
            slit_ring(p, h),
            p[0],
            p.len() as int + 2,
        ),
    decreases k,
{
    if k > 0 {
        lemma_slit_away_hole(p, h, k - 1);
        lemma_slit_at(p, h, p.len() + 1 + k);
        assert(h[k - 1] != p[0]);
    }
}

/// A ring that runs clockwise does not run around a point that its first corner faces, with no edge
/// in between.
proof fn lemma_faced_outside(h: Seq<(int, int)>, q: (int, int))
    requires
        weakly_simple(h),
        ground(h, h[0]) == -1,
        q != h[0],
        faces(h, 0, q),
        off_rays(h, 0, q),
        forall|k: int| 0 <= k < h.len() ==> #[trigger] h[k] != q,
        forall|k: int| 0 <= k < h.len() ==> #[trigger] uncrossed_by(h, k, q, h[0]),
        forall|a: int, b: int|
            0 <= a < h.len() && 0 <= b < h.len() && h[a] != h[b] ==> #[trigger] tri(h[a], h[b], q)
                != 0,
    ensures
        winding(h, q) == 0,
{
    let l = h.len() as int;
    assert forall|k: int| 0 <= k < l implies #[trigger] edge_clear(h, k, h[0], q) by {
        lemma_bend(h, k);
        let i = after(k, l);
        let (u, v) = (h[k], h[i]);
        if u != h[0] && v != h[0] {
            assert(uncrossed_by(h, k, q, h[0]));
            assert(tri(h[k], h[i], h[0]) != 0);
            assert(tri(h[k], h[i], q) != 0);
            assert(tri(h[0], h[k], q) != 0);
            assert(tri(h[0], h[i], q) != 0);
            lemma_tri(h[0], u, q);
            lemma_tri(h[0], v, q);
            lemma_tri(h[0], q, u);
            lemma_tri(h[0], q, v);
            lemma_tri(q, h[0], u);
            lemma_tri(q, h[0], v);
            lemma_clear(u, v, h[0], q);
        }
    }
    lemma_sight_line(h, h[0], q);
    lemma_no_turns(h, q, h[0], l);
    lemma_faced_point(h, 0, q);
}

/// A weakly simple ring that runs counterclockwise, joined to one that runs clockwise, is such a
/// ring.
pub(crate) proof fn lemma_weak_join(p: Seq<(int, int)>, h: Seq<(int, int)>)
    requires
        joinable(p, h),
    ensures
        weakly_left(slit_ring(p, h)),
{
    let (m, l) = (p.len() as int, h.len() as int);
    let j = slit_ring(p, h);
    let (o, d) = (p[0], h[0]);
    let c = p + h;
    lemma_slit_ends(p, h);
    lemma_slit_weak(p, h);
    assert forall|a: int, b: int| 0 <= a < l && 0 <= b < l && h[a] != h[b] implies #[trigger] tri(
        h[a],
        h[b],
        o,
    ) != 0 by {
        assert(c[m + a] == h[a] && c[m + b] == h[b] && c[0] == o);
        assert(p[0] != h[a] && p[0] != h[b]);
        assert(tri(c[m + a], c[m + b], c[0]) != 0);
    }
    assert forall|k: int| 0 <= k < l implies #[trigger] h[k] != o by {
        assert(p[0] != h[k]);
    }
    lemma_faced_outside(h, o);
    lemma_slit_winding(p, h, o);
    lemma_slit_away(p, h, m);
    lemma_slit_at(p, h, m + 1);
    lemma_slit_away_hole(p, h, l);
    assert(turns_away(j, o, m + 2) == turns_away(j, o, m + 1) + turn_away(prev(p, 0), o, d));
    lemma_bend(p, 0);
    let (v, n) = (prev(p, 0), next(p, 0));
    assert(p[0] == p[0]);
    lemma_tri(o, n, d);
    lemma_tri(o, v, d);
    lemma_tri(v, o, n);
    lemma_halves_away(v, o, n, d);
    lemma_slit_at(p, h, 1);
    lemma_ground_along(j, 1);
}

} // verus!
