//! Ears and diagonals of weakly simple rings.
use vstd::prelude::*;
use crate::areas::{abs, tri};
use crate::model::{after, before};
use crate::segments::{
    affine, crossing, lemma_balance_at, lemma_four, lemma_pasch, lemma_side, lemma_signs, lemma_sum,
    lemma_tri, side,
};
use crate::simple::{early, lemma_seen_at, lemma_weighed, place, seen_at, uncrossing};
use crate::weak::{
    edge_clear, faces, in_turn, lemma_bend, lemma_clear, lemma_edge_clear, lemma_ground_along,
    lemma_ground_bound, lemma_not_faced, lemma_prev_differ, lemma_sight_line, lemma_turns,
    lemma_turns_at, lemma_turns_more, sharing, turn_more, turns_at, turns_away, weakly_left,
    weakly_simple,
};
use crate::weak_cuts::{
    cuttable, lemma_facing_end, lemma_other_corner, lemma_weak_cut, lemma_weak_seen, uncrossed_by,
};
use crate::winding::{lemma_apart_swapped, next, prev};

verus! {

// ---------------------------------------------------------------------------------------------
// Corners that see each other
// ---------------------------------------------------------------------------------------------
/// What the corners at one point add in the direction of a corner that one of them faces.
pub(crate) proof fn lemma_faced_turns(p: Seq<(int, int)>, i: int, c: int)
    requires
        weakly_simple(p),
        0 <= i < p.len(),
        0 <= c < p.len(),
        p[c] != p[i],
        faces(p, i, p[c]),
    ensures
        turns_at(p, p[i], p[c], p.len() as int) == turns_away(p, p[i], p.len() as int) + 1,
{
    let n = p.len() as int;
    assert forall|k: int| 0 <= k < n && k != i && k != -1 implies #[trigger] turn_more(
        p,
        p[i],
        p[c],
        n,
        k,
    ) == 0 by {
        if p[k] == p[i] {
            lemma_other_corner(p, i, k, c);
            lemma_bend(p, k);
            assert(tri(p[k], p[after(k, n)], p[c]) != 0);
            assert(tri(p[k], p[before(k, n)], p[c]) != 0);
            lemma_not_faced(p, k, p[c]);
        }
    }
    lemma_turns_at(p, p[i], p[c], n, i, -1);
    lemma_facing_end(p, i, c);
    lemma_not_faced(p, i, p[c]);
}

/// Where no edge crosses the segment between two points, and a corner at the first faces the
/// second, a corner at the second faces the first.
pub(crate) proof fn lemma_mutual(p: Seq<(int, int)>, i: int, c: int) -> (j: int)
    requires
        weakly_left(p),
        0 <= i < p.len(),
        0 <= c < p.len(),
        p[c] != p[i],
        faces(p, i, p[c]),
        forall|k: int| 0 <= k < p.len() ==> #[trigger] uncrossed_by(p, k, p[i], p[c]),
    ensures
        0 <= j < p.len(),
        p[j] == p[c],
        faces(p, j, p[i]),
{
    let n = p.len() as int;
    let (t, w) = (p[i], p[c]);
    assert forall|k: int| 0 <= k < n implies #[trigger] edge_clear(p, k, t, w) by {
        lemma_bend(p, k);
        let (u, v) = (p[k], next(p, k));
        let l = after(k, n);
        if u != t && u != w && v != t && v != w {
            assert(uncrossed_by(p, k, t, w));
            assert(tri(p[k], p[l], p[i]) != 0);
            assert(tri(p[k], p[l], p[c]) != 0);
            assert(tri(p[i], p[c], p[k]) != 0);
            assert(tri(p[i], p[c], p[l]) != 0);
            lemma_clear(u, v, t, w);
        }
    }
    lemma_sight_line(p, t, w);
    lemma_faced_turns(p, i, c);
    lemma_ground_along(p, i);
    lemma_ground_along(p, c);
    let j = lemma_turns_more(p, w, t, n);
    lemma_bend(p, j);
    let (x, y) = (after(j, n), before(j, n));
    assert(p[x] != t) by {
        if p[x] == t {
            assert(prev(p, x) == w);
            lemma_facing_end(p, i, c);
            lemma_other_corner(p, i, x, c);
        }
    }
    assert(p[y] != t) by {
        if p[y] == t {
            assert(next(p, y) == w);
            lemma_facing_end(p, i, c);
            lemma_other_corner(p, i, y, c);
        }
    }
    assert(tri(p[j], p[x], p[i]) != 0);
    assert(tri(p[j], p[y], p[i]) != 0);
    lemma_not_faced(p, j, t);
    j
}

// ---------------------------------------------------------------------------------------------
// The triangle at a corner
// ---------------------------------------------------------------------------------------------
/// The point is in the triangle at place `i`, off its sides.
pub open spec fn enclosed(p: Seq<(int, int)>, i: int, z: (int, int)) -> bool {
    &&& tri(prev(p, i), p[i], z) > 0
    &&& tri(p[i], next(p, i), z) > 0
    &&& tri(next(p, i), prev(p, i), z) > 0
}

/// The corner faces what is in its triangle.
proof fn lemma_enclosed_faced(p: Seq<(int, int)>, i: int, z: (int, int))
    requires
        tri(p[i], next(p, i), z) > 0,
        tri(prev(p, i), p[i], z) > 0,
    ensures
        faces(p, i, z),
{
    reveal(in_turn);
    lemma_tri(prev(p, i), p[i], z);
    lemma_tri(p[i], z, prev(p, i));
}

/// A corner in the triangle is off its sides, or at one of its corners.
proof fn lemma_in_or_at(p: Seq<(int, int)>, i: int, k: int)
    requires
        weakly_simple(p),
        0 <= i < p.len(),
        0 <= k < p.len(),
        tri(prev(p, i), p[i], p[k]) >= 0,
        tri(p[i], next(p, i), p[k]) >= 0,
        tri(next(p, i), prev(p, i), p[k]) >= 0,
    ensures
        enclosed(p, i, p[k]) || p[k] == p[i] || p[k] == next(p, i) || p[k] == prev(p, i),
{
    let n = p.len() as int;
    let (a, c) = (before(i, n), after(i, n));
    lemma_bend(p, i);
    if p[k] != p[i] && p[k] != p[c] && p[k] != p[a] {
        assert(tri(p[a], p[i], p[k]) != 0);
        assert(tri(p[i], p[c], p[k]) != 0);
        assert(tri(p[c], p[a], p[k]) != 0);
    }
}

/// An edge that leads out of the triangle does not do so over the edges at its corner.
proof fn lemma_no_way_out(
    p: Seq<(int, int)>,
    i: int,
    k: int,
    u: (int, int),
    v: (int, int),
    s: int,
    t: int,
)
    requires
        weakly_simple(p),
        0 <= i < p.len(),
        0 <= k < p.len(),
        tri(prev(p, i), p[i], next(p, i)) > 0,
        (u == p[k] && v == next(p, k)) || (u == next(p, k) && v == p[k]),
        s > 0,
        t >= 0,
        s * tri(prev(p, i), p[i], u) + t * tri(prev(p, i), p[i], v) > 0,
        s * tri(p[i], next(p, i), u) + t * tri(p[i], next(p, i), v) > 0,
        s * tri(next(p, i), prev(p, i), u) + t * tri(next(p, i), prev(p, i), v) >= 0,
        tri(next(p, i), prev(p, i), v) > 0,
        u != p[i],
        v != p[i],
    ensures
        tri(prev(p, i), p[i], v) >= 0,
        tri(p[i], next(p, i), v) >= 0,
{
    let n = p.len() as int;
    let (a, b, c) = (prev(p, i), p[i], next(p, i));
    if tri(a, b, v) < 0 || tri(b, c, v) < 0 {
        lemma_pasch(a, b, c, u, v, s, t);
        lemma_tri(a, b, a);
        lemma_tri(b, c, c);
        lemma_tri(c, a, a);
        lemma_tri(c, a, c);
        lemma_signs(s, tri(a, b, u));
        lemma_signs(t, tri(a, b, v));
        lemma_signs(s, tri(b, c, u));
        lemma_signs(t, tri(b, c, v));
        let e = before(i, n);
        assert(p[e] == a && next(p, e) == b);
        lemma_edge_clear(p, k, e);
        lemma_edge_clear(p, k, i);
        lemma_apart_swapped(u, v, a, b);
        lemma_apart_swapped(u, v, b, c);
        lemma_signs(s, 0);
        lemma_signs(t, 0);
    }
}

/// A corner in the triangle is not next to the corner of the triangle.
proof fn lemma_not_next(p: Seq<(int, int)>, i: int, k: int)
    requires
        weakly_simple(p),
        0 <= i < p.len(),
        0 <= k < p.len(),
        enclosed(p, i, p[k]),
    ensures
        next(p, k) != p[i],
        prev(p, k) != p[i],
        p[k] != p[i],
{
    let n = p.len() as int;
    lemma_enclosed_faced(p, i, p[k]);
    lemma_tri(prev(p, i), p[i], p[i]);
    lemma_facing_end(p, i, k);
    let (x, y) = (after(k, n), before(k, n));
    assert(prev(p, x) == p[k] && next(p, y) == p[k]);
    if p[x] == p[i] && x != i {
        lemma_other_corner(p, i, x, k);
    }
    if p[y] == p[i] && y != i {
        lemma_other_corner(p, i, y, k);
    }
}

/// No corner in the triangle is further from its third side than the one at place `w`.
spec fn furthest(p: Seq<(int, int)>, i: int, w: int) -> bool {
    forall|k: int|
        0 <= k < p.len() && #[trigger] enclosed(p, i, p[k]) ==> tri(next(p, i), prev(p, i), p[k])
            <= tri(next(p, i), prev(p, i), p[w])
}

/// The corners next to the furthest one are not further.
proof fn lemma_lower_next(p: Seq<(int, int)>, i: int, w: int, k: int)
    requires
        weakly_simple(p),
        0 <= i < p.len(),
        0 <= w < p.len(),
        tri(prev(p, i), p[i], next(p, i)) > 0,
        enclosed(p, i, p[w]),
        furthest(p, i, w),
        0 <= k < p.len(),
        p[k] == p[w],
    ensures
        tri(next(p, i), prev(p, i), next(p, k)) <= tri(next(p, i), prev(p, i), p[w]),
        tri(next(p, i), prev(p, i), prev(p, k)) <= tri(next(p, i), prev(p, i), p[w]),
{
    let n = p.len() as int;
    let (a, b, c) = (prev(p, i), p[i], next(p, i));
    let (x, y) = (after(k, n), before(k, n));
    lemma_not_next(p, i, k);
    lemma_tri(c, a, a);
    lemma_tri(c, a, c);
    if tri(c, a, p[x]) > tri(c, a, p[w]) {
        lemma_no_way_out(p, i, k, p[k], p[x], 1, 0);
        lemma_in_or_at(p, i, x);
        assert(enclosed(p, i, p[x]));
    }
    if tri(c, a, p[y]) > tri(c, a, p[w]) {
        assert(next(p, y) == p[k]);
        lemma_no_way_out(p, i, y, p[k], p[y], 1, 0);
        lemma_in_or_at(p, i, y);
        assert(enclosed(p, i, p[y]));
    }
}

/// The end of an edge that crosses the way to the furthest corner is not further.
#[verifier::spinoff_prover]
proof fn lemma_end_lower(
    p: Seq<(int, int)>,
    i: int,
    w: int,
    k: int,
    u: (int, int),
    l: int,
)
    requires
        weakly_simple(p),
        0 <= i < p.len(),
        0 <= w < p.len(),
        0 <= k < p.len(),
        0 <= l < p.len(),
        tri(prev(p, i), p[i], next(p, i)) > 0,
        enclosed(p, i, p[w]),
        furthest(p, i, w),
        (u == p[k] && p[l] == next(p, k)) || (u == next(p, k) && p[l] == p[k]),
        crossing(u, p[l], p[i], p[w]),
    ensures
        tri(next(p, i), prev(p, i), p[l]) <= tri(next(p, i), prev(p, i), p[w]),
{
    let (a, b, c) = (prev(p, i), p[i], next(p, i));
    let (v, z) = (p[l], p[w]);
    lemma_tri(a, b, c);
    lemma_tri(a, b, b);
    lemma_tri(b, c, b);
    lemma_tri(c, a, a);
    lemma_tri(c, a, c);
    lemma_tri(b, z, b);
    if tri(c, a, v) > tri(c, a, z) {
        lemma_weighed(a, b, u, v, b, z);
        lemma_weighed(b, c, u, v, b, z);
        lemma_weighed(c, a, u, v, b, z);
        let s = abs(tri(b, z, v));
        let t = abs(tri(b, z, u));
        let zb = abs(tri(u, v, z));
        let zz = abs(tri(u, v, b));
        lemma_signs(zb, 0);
        lemma_signs(zb, tri(c, a, b));
        lemma_signs(zz, tri(a, b, z));
        lemma_signs(zz, tri(b, c, z));
        lemma_signs(zz, tri(c, a, z));
        assert(u != b && v != b);
        lemma_no_way_out(p, i, k, u, v, s, t);
        lemma_in_or_at(p, i, l);
        assert(enclosed(p, i, p[l]));
    }
}

/// No edge crosses the way to the furthest corner.
#[verifier::spinoff_prover]
proof fn lemma_way_open(p: Seq<(int, int)>, i: int, w: int, k: int)
    requires
        weakly_simple(p),
        0 <= i < p.len(),
        0 <= w < p.len(),
        0 <= k < p.len(),
        tri(prev(p, i), p[i], next(p, i)) > 0,
        enclosed(p, i, p[w]),
        furthest(p, i, w),
    ensures
        uncrossed_by(p, k, p[i], p[w]),
{
    let n = p.len() as int;
    let (a, b, c, z) = (prev(p, i), p[i], next(p, i), p[w]);
    let (u, v) = (p[k], next(p, k));
    if crossing(u, v, b, z) {
        assert(crossing(v, u, b, z)) by {
            lemma_tri(u, v, b);
            lemma_tri(u, v, z);
        }
        lemma_end_lower(p, i, w, k, u, after(k, n));
        lemma_end_lower(p, i, w, k, v, k);
        lemma_weighed(c, a, u, v, b, z);
        let s = abs(tri(b, z, v));
        let t = abs(tri(b, z, u));
        let zb = abs(tri(u, v, z));
        let zz = abs(tri(u, v, b));
        let d = tri(c, a, z);
        lemma_sum(a, b, c, z);
        lemma_tri(a, b, c);
        assert(s * tri(c, a, u) <= s * d) by (nonlinear_arith)
            requires
                s > 0,
                tri(c, a, u) <= d,
        ;
        assert(t * tri(c, a, v) <= t * d) by (nonlinear_arith)
            requires
                t > 0,
                tri(c, a, v) <= d,
        ;
        assert(zb * tri(c, a, b) > zb * d) by (nonlinear_arith)
            requires
                zb > 0,
                tri(c, a, b) > d,
        ;
        assert(s * d + t * d == zb * d + zz * d) by (nonlinear_arith)
            requires
                s + t == zb + zz,
        ;
    }
}

/// One of the first `m` corners that are in the triangle is furthest.
proof fn lemma_has_furthest(p: Seq<(int, int)>, i: int, k: int, m: int) -> (w: int)
    requires
        0 <= k < p.len(),
        enclosed(p, i, p[k]),
        0 <= m <= p.len(),
    ensures
        0 <= w < p.len(),
        enclosed(p, i, p[w]),
        forall|l: int|
            0 <= l < m && #[trigger] enclosed(p, i, p[l]) ==> tri(next(p, i), prev(p, i), p[l])
                <= tri(next(p, i), prev(p, i), p[w]),
    decreases m,
{
    if m == 0 {
        k
    } else {
        let w = lemma_has_furthest(p, i, k, m - 1);
        let l = m - 1;
        if enclosed(p, i, p[l]) && tri(next(p, i), prev(p, i), p[l]) > tri(
            next(p, i),
            prev(p, i),
            p[w],
        ) {
            l
        } else {
            w
        }
    }
}

/// Where a corner is in the triangle, one of those faces the corner of the triangle, is faced by it
/// without an edge in between, and turns right.
#[verifier::spinoff_prover]
pub(crate) proof fn lemma_inner_corner(p: Seq<(int, int)>, i: int, k: int) -> (j: int)
    requires
        weakly_left(p),
        0 <= i < p.len(),
        0 <= k < p.len(),
        tri(prev(p, i), p[i], next(p, i)) > 0,
        enclosed(p, i, p[k]),
    ensures
        0 <= j < p.len(),
        enclosed(p, i, p[j]),
        p[j] != p[i],
        faces(p, i, p[j]),
        faces(p, j, p[i]),
        forall|l: int| 0 <= l < p.len() ==> #[trigger] uncrossed_by(p, l, p[i], p[j]),
        tri(prev(p, j), p[j], next(p, j)) < 0,
{
    let n = p.len() as int;
    let w = lemma_has_furthest(p, i, k, n);
    assert(furthest(p, i, w));
    lemma_enclosed_faced(p, i, p[w]);
    lemma_not_next(p, i, w);
    assert forall|l: int| 0 <= l < n implies #[trigger] uncrossed_by(p, l, p[i], p[w]) by {
        lemma_way_open(p, i, w, l);
    }
    let j = lemma_mutual(p, i, w);
    lemma_bend(p, j);
    lemma_lower_next(p, i, w, j);
    if tri(prev(p, j), p[j], next(p, j)) > 0 {
        lemma_convex_below(prev(p, i), p[i], next(p, i), p[j], next(p, j), prev(p, j));
    }
    j
}

/// A corner whose neighbours are not further from a side than itself does not face what is.
proof fn lemma_convex_below(
    a: (int, int),
    t: (int, int),
    c: (int, int),
    w: (int, int),
    x: (int, int),
    y: (int, int),
)
    requires
        tri(a, t, c) > 0,
        tri(a, t, w) > 0,
        tri(t, c, w) > 0,
        tri(c, a, x) <= tri(c, a, w),
        tri(c, a, y) <= tri(c, a, w),
        tri(y, w, x) > 0,
    ensures
        !in_turn(w, x, t, y),
{
    reveal(in_turn);
    let k = side(c, a);
    lemma_four(k, w, x, y, t);
    lemma_side(c, a, w);
    lemma_side(c, a, x);
    lemma_side(c, a, y);
    lemma_side(c, a, t);
    let (fw, fx, fy, ft) = (affine(k, w), affine(k, x), affine(k, y), affine(k, t));
    lemma_balance_at(
        tri(x, y, t),
        tri(w, y, t),
        tri(w, x, t),
        tri(w, x, y),
        fw,
        fx,
        fy,
        ft,
        fw,
    );
    lemma_sum(a, t, c, w);
    lemma_tri(a, t, c);
    lemma_tri(y, w, x);
    lemma_tri(w, x, y);
    lemma_tri(w, y, t);
    lemma_tri(w, t, y);
    lemma_signs(tri(x, y, t), fw - fw);
    lemma_signs(tri(w, y, t), fx - fw);
    lemma_signs(tri(w, x, t), fy - fw);
    lemma_signs(tri(w, x, y), ft - fw);
}

// ---------------------------------------------------------------------------------------------
// Empty triangles
// ---------------------------------------------------------------------------------------------
/// No corner is in the triangle at place `i`.
pub open spec fn vacant(p: Seq<(int, int)>, i: int) -> bool {
    &&& tri(prev(p, i), p[i], next(p, i)) > 0
    &&& forall|k: int| 0 <= k < p.len() ==> !#[trigger] enclosed(p, i, p[k])
}

/// No edge leads from the third corner of an empty triangle into it.
proof fn lemma_third_corner(p: Seq<(int, int)>, i: int)
    requires
        weakly_simple(p),
        0 <= i < p.len(),
        vacant(p, i),
        next(p, after(i, p.len() as int)) != prev(p, i),
    ensures
        faces(p, after(i, p.len() as int), prev(p, i)),
{
    let n = p.len() as int;
    let (j, e) = (after(i, n), before(i, n));
    let (a, t, c) = (p[e], p[i], p[j]);
    let k = after(j, n);
    let y = p[k];
    lemma_bend(p, i);
    lemma_bend(p, j);
    assert(next(p, j) == y && prev(p, j) == t);
    assert(tri(p[j], p[k], p[e]) != 0);
    lemma_tri(c, y, a);
    lemma_tri(a, t, c);
    lemma_tri(c, t, a);
    lemma_turns(c, y, a, t);
    if !in_turn(c, y, a, t) {
        assert(in_turn(c, a, y, t)) by {
            lemma_turns(c, y, t, a);
        }
        reveal(in_turn);
        lemma_tri(c, y, t);
        lemma_tri(t, c, y);
        lemma_tri(c, a, t);
        assert(tri(c, a, y) > 0 && tri(t, c, y) > 0);
        assert(!enclosed(p, i, p[k]));
        assert(y != a && y != t);
        assert(tri(p[e], p[i], p[k]) != 0);
        assert(next(p, e) == t);
        lemma_tri(c, y, a);
        assert(crossing(c, y, a, t));
        assert(uncrossing(p, j, e));
    }
}

/// No edge leads from the first corner of an empty triangle into it, and its third side is no edge
/// unless the triangle is all of the ring.
proof fn lemma_first_corner(p: Seq<(int, int)>, i: int)
    requires
        weakly_simple(p),
        p.len() >= 4,
        0 <= i < p.len(),
        vacant(p, i),
    ensures
        faces(p, before(i, p.len() as int), next(p, i)),
{
    let n = p.len() as int;
    let (j, e) = (after(i, n), before(i, n));
    let (a, t, c) = (p[e], p[i], p[j]);
    let k = before(e, n);
    let z = p[k];
    lemma_bend(p, i);
    lemma_bend(p, e);
    lemma_bend(p, j);
    assert(next(p, e) == t && prev(p, e) == z && next(p, k) == a);
    lemma_tri(a, t, c);
    if z == c {
        assert(k != j);
        lemma_prev_differ(p, j, k);
        assert(sharing(p, j, k));
        lemma_third_corner(p, i);
        assert(faces(p, j, next(p, k)));
    } else {
        assert(tri(p[e], p[k], p[j]) != 0);
        lemma_tri(a, z, c);
        lemma_tri(a, t, z);
        lemma_turns(a, t, c, z);
        if !in_turn(a, t, c, z) {
            reveal(in_turn);
            assert(tri(a, t, z) > 0 && tri(a, z, c) > 0);
            assert(!enclosed(p, i, p[k]));
            assert(tri(p[i], p[j], p[k]) != 0);
            lemma_tri(z, a, t);
            lemma_tri(z, a, c);
            lemma_tri(c, a, z);
            lemma_tri(t, c, a);
            assert(crossing(z, a, t, c));
            assert(uncrossing(p, k, i));
        }
    }
}

/// No edge crosses the third side of an empty triangle.
#[verifier::spinoff_prover]
proof fn lemma_third_side(p: Seq<(int, int)>, i: int, k: int, u: (int, int), l: int)
    requires
        weakly_simple(p),
        0 <= i < p.len(),
        vacant(p, i),
        0 <= k < p.len(),
        0 <= l < p.len(),
        (u == p[k] && p[l] == next(p, k) && l == after(k, p.len() as int)) || (u == next(p, k)
            && l == k),
        tri(next(p, i), prev(p, i), p[l]) > 0,
    ensures
        !crossing(u, p[l], prev(p, i), next(p, i)),
{
    let n = p.len() as int;
    let (a, b, c) = (prev(p, i), p[i], next(p, i));
    let v = p[l];
    if crossing(u, v, a, c) {
        lemma_tri(a, b, c);
        lemma_tri(a, b, a);
        lemma_tri(b, c, c);
        lemma_tri(c, a, a);
        lemma_tri(c, a, c);
        lemma_tri(a, c, u);
        lemma_tri(a, c, v);
        lemma_bend(p, i);
        if v == b {
            lemma_sum(a, b, c, u);
            lemma_tri(a, b, u);
            lemma_tri(b, c, u);
            lemma_tri(u, b, a);
            lemma_tri(u, b, c);
            lemma_enclosed_faced(p, i, u);
            let m = if l == k {
                after(k, n)
            } else {
                k
            };
            assert(p[m] == u);
            assert(prev(p, l) == u || next(p, l) == u);
            assert(l != i) by {
                lemma_tri(u, b, u);
            }
            assert(u != b);
            lemma_other_corner(p, i, l, m);
        } else {
            lemma_weighed(a, b, u, v, a, c);
            lemma_weighed(b, c, u, v, a, c);
            lemma_weighed(c, a, u, v, a, c);
            let s = abs(tri(a, c, v));
            let t = abs(tri(a, c, u));
            let za = abs(tri(u, v, c));
            let zc = abs(tri(u, v, a));
            lemma_signs(za, tri(a, b, a));
            lemma_signs(zc, tri(a, b, c));
            lemma_signs(za, tri(b, c, a));
            lemma_signs(zc, tri(b, c, c));
            lemma_signs(za, tri(c, a, a));
            lemma_signs(zc, tri(c, a, c));
            assert(u != b);
            lemma_no_way_out(p, i, k, u, v, s, t);
            lemma_in_or_at(p, i, l);
        }
    }
}

/// The corners next to that of an empty triangle face each other, and no edge crosses the segment
/// between them.
pub(crate) proof fn lemma_vacant_side(p: Seq<(int, int)>, i: int)
    requires
        weakly_simple(p),
        p.len() >= 4,
        0 <= i < p.len(),
        vacant(p, i),
    ensures
        faces(p, before(i, p.len() as int), next(p, i)),
        faces(p, after(i, p.len() as int), prev(p, i)),
        prev(p, i) != next(p, i),
        forall|k: int| 0 <= k < p.len() ==> #[trigger] uncrossed_by(p, k, prev(p, i), next(p, i)),
{
    let n = p.len() as int;
    let (j, e) = (after(i, n), before(i, n));
    lemma_bend(p, i);
    lemma_bend(p, j);
    lemma_first_corner(p, i);
    if next(p, j) == p[e] {
        let k = after(j, n);
        assert(k != e);
        assert(sharing(p, e, k));
        assert(prev(p, k) == p[j]);
    }
    lemma_third_corner(p, i);
    assert forall|k: int| 0 <= k < n implies #[trigger] uncrossed_by(
        p,
        k,
        prev(p, i),
        next(p, i),
    ) by {
        let (a, c) = (prev(p, i), next(p, i));
        let (u, v) = (p[k], next(p, k));
        lemma_tri(a, c, u);
        lemma_tri(a, c, v);
        lemma_tri(u, v, a);
        lemma_tri(u, v, c);
        if crossing(u, v, a, c) {
            if tri(c, a, v) > 0 {
                lemma_third_side(p, i, k, u, after(k, n));
            } else {
                assert(crossing(v, u, a, c));
                lemma_third_side(p, i, k, v, k);
            }
        }
    }
}

// ---------------------------------------------------------------------------------------------
// Cutting ears and finding diagonals
// ---------------------------------------------------------------------------------------------
/// Two corners face each other, and no edge crosses the segment between them.
pub open spec fn inner(p: Seq<(int, int)>, i: int, j: int) -> bool {
    &&& 0 <= i < p.len()
    &&& 0 <= j < p.len()
    &&& p[i] != p[j]
    &&& faces(p, i, p[j])
    &&& faces(p, j, p[i])
    &&& forall|k: int| 0 <= k < p.len() ==> #[trigger] uncrossed_by(p, k, p[i], p[j])
}

/// A diagonal, seen from its first corner.
pub(crate) proof fn lemma_inner_cuttable(p: Seq<(int, int)>, i: int, j: int) -> (k: int)
    requires
        weakly_simple(p),
        inner(p, i, j),
    ensures
        cuttable(seen_at(p, i), k),
        place(k, i, p.len() as int) == j,
{
    let n = p.len() as int;
    let s = seen_at(p, i);
    let k = if j >= i {
        j - i
    } else {
        j - i + n
    };
    lemma_seen_at(p, i, 0);
    lemma_seen_at(p, i, k);
    lemma_facing_end(p, i, j);
    assert(place(k, i, n) == j && place(0, i, n) == i);
    assert(k != 1 && k != n - 1);
    assert forall|l: int| 0 <= l < n implies #[trigger] uncrossed_by(s, l, s[0], s[k]) by {
        lemma_seen_at(p, i, l);
        assert(uncrossed_by(p, place(l, i, n), p[i], p[j]));
    }
    k
}

/// Without a corner whose triangle is empty, a weakly simple ring that runs counterclockwise is
/// such a ring.
pub(crate) proof fn lemma_weak_ear(p: Seq<(int, int)>)
    requires
        weakly_left(p),
        p.len() >= 4,
        vacant(p, 0),
    ensures
        weakly_left(p.drop_first()),
{
    let n = p.len() as int;
    lemma_vacant_side(p, 0);
    assert(inner(p, 1, n - 1)) by {
        assert(prev(p, 0) == p[n - 1] && next(p, 0) == p[1]);
        assert forall|k: int| 0 <= k < p.len() implies #[trigger] uncrossed_by(
            p,
            k,
            p[1],
            p[n - 1],
        ) by {
            assert(uncrossed_by(p, k, p[n - 1], p[1]));
            lemma_tri(p[1], p[n - 1], p[k]);
            lemma_tri(p[1], p[n - 1], next(p, k));
        }
    }
    let k = lemma_inner_cuttable(p, 1, n - 1);
    let s = seen_at(p, 1);
    lemma_weak_seen(p, 1);
    lemma_weak_cut(s, k);
    assert(k == n - 2);
    assert(early(s, k) =~= p.drop_first());
}

/// A weakly simple ring of at least four corners that runs counterclockwise has a diagonal.
pub(crate) proof fn lemma_weak_diagonal(p: Seq<(int, int)>) -> (d: (int, int))
    requires
        weakly_left(p),
        p.len() >= 4,
    ensures
        inner(p, d.0, d.1),
{
    let n = p.len() as int;
    let m = lemma_ground_bound(p);
    assert(p[m] == p[m]);
    if exists|k: int| 0 <= k < n && #[trigger] enclosed(p, m, p[k]) {
        let k = choose|k: int| 0 <= k < n && #[trigger] enclosed(p, m, p[k]);
        let j = lemma_inner_corner(p, m, k);
        (m, j)
    } else {
        assert(vacant(p, m));
        lemma_vacant_side(p, m);
        (before(m, n), after(m, n))
    }
}

} // verus!
