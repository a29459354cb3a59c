//! Weakly simple rings, cut in two along a diagonal.
use vstd::prelude::*;
use crate::areas::tri;
use crate::model::{after, before};
use crate::segments::{crossing, lemma_tri, under};
use crate::simple::{early, late, lemma_late_at, lemma_seen_at, place, seen_at, uncrossing};
use crate::splitting::lemma_parts_winding;
use crate::weak::{
    bent, faces, in_turn, lemma_bend, lemma_faces_once, lemma_ground_bound, lemma_prev_differ,
    lemma_turn_along, lemma_turn_ends, lemma_turn_of, lemma_turns, lemma_turns_follow, scattered,
    sharing, turn_away, turns_away, weakly_left, weakly_simple,
};
use crate::winding::{next, prev, wedge};

verus! {

// ---------------------------------------------------------------------------------------------
// Seen from another corner
// ---------------------------------------------------------------------------------------------
/// A weakly simple ring is so wherever it is seen from.
#[verifier::spinoff_prover]
pub(crate) proof fn lemma_weak_seen(p: Seq<(int, int)>, m: int)
    requires
        weakly_simple(p),
        0 <= m < p.len(),
    ensures
        weakly_simple(seen_at(p, m)),
        weakly_left(p) ==> weakly_left(seen_at(p, m)),
{
    let n = p.len() as int;
    let s = seen_at(p, m);
    assert forall|a: int, b: int, c: int|
        0 <= a < n && 0 <= b < n && 0 <= c < n && s[a] != s[b] && s[b] != s[c] && s[a]
            != s[c] implies #[trigger] tri(s[a], s[b], s[c]) != 0 by {
        lemma_seen_at(p, m, a);
        lemma_seen_at(p, m, b);
        lemma_seen_at(p, m, c);
        assert(tri(p[place(a, m, n)], p[place(b, m, n)], p[place(c, m, n)]) != 0);
    }
    assert forall|i: int| 0 <= i < n implies #[trigger] bent(s, i) by {
        lemma_seen_at(p, m, i);
        assert(bent(p, place(i, m, n)));
    }
    assert forall|i: int, j: int| 0 <= i < n && 0 <= j < n implies #[trigger] uncrossing(
        s,
        i,
        j,
    ) by {
        lemma_seen_at(p, m, i);
        lemma_seen_at(p, m, j);
        assert(uncrossing(p, place(i, m, n), place(j, m, n)));
    }
    assert forall|i: int, j: int|
        0 <= i < n && 0 <= j < n && i != j && s[i] == s[j] implies #[trigger] sharing(s, i, j) by {
        lemma_seen_at(p, m, i);
        lemma_seen_at(p, m, j);
        assert(sharing(p, place(i, m, n), place(j, m, n)));
    }
    if weakly_left(p) {
        let k = lemma_ground_bound(p);
        let l = lemma_ground_bound(s);
        lemma_seen_at(p, m, l);
        assert(p[k] == s[l]) by {
            let i = if k >= m {
                k - m
            } else {
                k - m + n
            };
            lemma_seen_at(p, m, i);
            assert(s[i] == p[k]);
            assert(p[k] == p[place(l, m, n)] || under(p[k], p[place(l, m, n)]));
        }
        assert forall|j: int| 0 <= j < n && #[trigger] s[j] == s[l] implies tri(
            prev(s, j),
            s[j],
            next(s, j),
        ) > 0 by {
            lemma_seen_at(p, m, j);
            assert(p[place(j, m, n)] == p[k]);
        }
    }
}

// ---------------------------------------------------------------------------------------------
// Cutting
// ---------------------------------------------------------------------------------------------
/// The edge at place `k` does not cross the segment.
pub open spec fn uncrossed_by(p: Seq<(int, int)>, k: int, q: (int, int), w: (int, int)) -> bool {
    !crossing(p[k], next(p, k), q, w)
}

/// The first corner and the one at place `j` face each other, and no edge crosses the segment
/// between them.
pub open spec fn cuttable(p: Seq<(int, int)>, j: int) -> bool {
    &&& 2 <= j < p.len() - 1
    &&& p[0] != p[j]
    &&& faces(p, 0, p[j])
    &&& faces(p, j, p[0])
    &&& forall|k: int| 0 <= k < p.len() ==> #[trigger] uncrossed_by(p, k, p[0], p[j])
}

/// What a corner that is cut faces after the cut, it has faced before.
pub(crate) proof fn lemma_narrower(
    o: (int, int),
    n: (int, int),
    d: (int, int),
    v: (int, int),
    x: (int, int),
)
    requires
        in_turn(o, n, d, v),
        tri(o, n, d) != 0,
        tri(o, d, v) != 0,
        tri(o, n, v) != 0,
        x == n || tri(o, n, x) != 0,
        x == d || tri(o, d, x) != 0,
        x == v || tri(o, v, x) != 0,
    ensures
        in_turn(o, n, x, d) ==> in_turn(o, n, x, v),
        in_turn(o, d, x, v) ==> in_turn(o, n, x, v),
        !(in_turn(o, n, x, d) && in_turn(o, d, x, v)),
{
    lemma_turn_ends(o, n, d);
    lemma_turn_ends(o, d, v);
    lemma_turn_ends(o, n, v);
    lemma_tri(o, n, d);
    lemma_tri(o, d, v);
    lemma_tri(o, n, v);
    lemma_tri(o, n, x);
    lemma_tri(o, d, x);
    lemma_tri(o, v, x);
    lemma_turns(o, n, d, v);
    if in_turn(o, n, x, d) {
        if x != v && x != n && x != d {
            lemma_turns_follow(o, n, x, d, v);
            lemma_turns(o, d, x, v);
            lemma_turns(o, x, d, v);
        }
    }
    if in_turn(o, d, x, v) {
        if x != v && x != n && x != d {
            // v, n, d and v, d, x
            lemma_turns(o, d, x, v);
            lemma_turns_follow(o, v, n, d, x);
            lemma_turns(o, v, n, x);
        }
    }
}

/// Of the corners at one point, only one has to do with a point that it faces.
pub(crate) proof fn lemma_other_corner(p: Seq<(int, int)>, i: int, k: int, c: int)
    requires
        weakly_simple(p),
        0 <= i < p.len(),
        0 <= k < p.len(),
        0 <= c < p.len(),
        p[i] == p[k],
        i != k,
        p[c] != p[i],
        faces(p, i, p[c]),
    ensures
        next(p, k) != p[c],
        prev(p, k) != p[c],
        !faces(p, k, p[c]),
{
    let n = p.len() as int;
    lemma_facing_end(p, i, c);
    assert(sharing(p, i, k));
    lemma_bend(p, k);
    assert(tri(p[k], p[after(k, n)], p[c]) != 0);
    assert(tri(p[k], p[before(k, n)], p[c]) != 0);
    lemma_faces_once(p, i, k, p[c]);
}

/// A corner that faces another is not next to it.
pub(crate) proof fn lemma_facing_end(p: Seq<(int, int)>, i: int, c: int)
    requires
        weakly_simple(p),
        0 <= i < p.len(),
        0 <= c < p.len(),
        p[c] != p[i],
        faces(p, i, p[c]),
    ensures
        next(p, i) != p[c],
        prev(p, i) != p[c],
        tri(p[i], next(p, i), p[c]) != 0,
        tri(p[i], prev(p, i), p[c]) != 0,
{
    let n = p.len() as int;
    lemma_bend(p, i);
    lemma_turn_ends(p[i], next(p, i), prev(p, i));
    assert(next(p, i) != p[c] && prev(p, i) != p[c]);
    assert(tri(p[i], p[after(i, n)], p[c]) != 0);
    assert(tri(p[i], p[before(i, n)], p[c]) != 0);
}

/// No neighbour of the corners at one point is in line with the point, but for those at it.
pub(crate) open spec fn apart_rays(p: Seq<(int, int)>, a: int, d: (int, int)) -> bool {
    forall|x: int|
        0 <= x < p.len() && #[trigger] p[x] != p[a] ==> p[x] == d || tri(p[a], p[x], d) != 0
}

/// Two corners at one point get along if each faces no more than before: a corner may be cut along
/// the direction to a point that it faces.
#[verifier::spinoff_prover]
pub(crate) proof fn lemma_still_sharing(
    p: Seq<(int, int)>,
    e: Seq<(int, int)>,
    i: int,
    k: int,
    a: int,
    b: int,
    d: (int, int),
)
    requires
        weakly_simple(p),
        0 <= a < p.len(),
        0 <= b < p.len(),
        a != b,
        p[a] == p[b],
        e[i] == p[a],
        e[k] == p[b],
        d != p[a],
        apart_rays(p, a, d),
        (next(e, i) == next(p, a) && prev(e, i) == prev(p, a)) || (next(e, i) == next(p, a) && prev(
            e,
            i,
        ) == d && faces(p, a, d)) || (next(e, i) == d && prev(e, i) == prev(p, a) && faces(
            p,
            a,
            d,
        )),
        next(e, k) == next(p, b) || next(e, k) == d,
        prev(e, k) == prev(p, b) || prev(e, k) == d,
        next(e, k) == d || prev(e, k) == d ==> !faces(p, a, d),
        next(e, i) != next(e, k),
    ensures
        sharing(e, i, k),
{
    let n = p.len() as int;
    assert(sharing(p, a, b));
    lemma_bend(p, a);
    lemma_bend(p, b);
    lemma_prev_differ(p, a, b);
    let o = p[a];
    lemma_turn_ends(o, next(p, a), prev(p, a));
    lemma_tri(o, next(p, a), prev(p, a));
    if !(next(e, i) == next(p, a) && prev(e, i) == prev(p, a)) {
        let (u, v, x, y) = (after(a, n), before(a, n), after(b, n), before(b, n));
        assert(p[u] != p[a] && p[v] != p[a] && p[x] != p[a] && p[y] != p[a]);
        assert(d != next(p, a) && d != prev(p, a));
        assert(tri(p[a], p[u], d) != 0 && tri(p[a], p[v], d) != 0);
        lemma_tri(o, d, p[v]);
        lemma_tri(o, d, p[x]);
        lemma_tri(o, d, p[y]);
        assert(p[x] == p[u] || tri(p[a], p[u], p[x]) != 0);
        assert(p[x] == p[v] || tri(p[a], p[v], p[x]) != 0);
        assert(p[y] == p[u] || tri(p[a], p[u], p[y]) != 0);
        assert(p[y] == p[v] || tri(p[a], p[v], p[y]) != 0);
        lemma_narrower(o, p[u], d, p[v], p[x]);
        lemma_narrower(o, p[u], d, p[v], p[y]);
    }
}

/// In a weakly simple ring no neighbour is in line with another corner.
proof fn lemma_apart_rays(p: Seq<(int, int)>, a: int, c: int)
    requires
        weakly_simple(p),
        0 <= a < p.len(),
        0 <= c < p.len(),
        p[a] != p[c],
    ensures
        apart_rays(p, a, p[c]),
{
    assert forall|x: int| 0 <= x < p.len() && #[trigger] p[x] != p[a] implies p[x] == p[c] || tri(
        p[a],
        p[x],
        p[c],
    ) != 0 by {}
}

/// The two halves of a corner that is cut along the direction to a point that it faces get along.
pub(crate) proof fn lemma_halves_sharing(
    e: Seq<(int, int)>,
    i: int,
    k: int,
    v: (int, int),
    n: (int, int),
    d: (int, int),
)
    requires
        e[i] == e[k],
        next(e, i) == n,
        prev(e, i) == d,
        next(e, k) == d,
        prev(e, k) == v,
        in_turn(e[i], n, d, v),
        tri(e[i], n, d) != 0,
        tri(e[i], d, v) != 0,
        tri(e[i], n, v) != 0,
    ensures
        sharing(e, i, k),
        sharing(e, k, i),
{
    let o = e[i];
    lemma_turn_ends(o, n, d);
    lemma_turn_ends(o, d, v);
    lemma_turns(o, n, d, v);
    lemma_tri(o, n, n);
}

/// No edge of the early part crosses another.
proof fn lemma_early_uncrossed(p: Seq<(int, int)>, j: int, i: int, k: int)
    requires
        weakly_simple(p),
        cuttable(p, j),
        0 <= i <= j,
        0 <= k <= j,
    ensures
        uncrossing(early(p, j), i, k),
{
    let e = early(p, j);
    assert(e[i] == p[i] && e[k] == p[k]);
    if i < j && k < j {
        assert(next(e, i) == next(p, i) && next(e, k) == next(p, k));
        assert(uncrossing(p, i, k));
    } else {
        let l = if i < j {
            i
        } else {
            k
        };
        assert(next(e, j) == p[0]);
        lemma_tri(p[0], p[j], p[0]);
        lemma_tri(p[j], p[0], p[j]);
        if l < j {
            assert(next(e, l) == next(p, l));
            assert(uncrossed_by(p, l, p[0], p[j]));
            lemma_tri(p[0], p[j], p[l]);
            lemma_tri(p[0], p[j], next(p, l));
        }
    }
}

/// Corners of the early part at one point get along.
proof fn lemma_early_sharing(p: Seq<(int, int)>, j: int, i: int, k: int)
    requires
        weakly_simple(p),
        cuttable(p, j),
        0 <= i <= j,
        0 <= k <= j,
        i != k,
        p[i] == p[k],
    ensures
        sharing(early(p, j), i, k),
{
    let e = early(p, j);
    lemma_prev_differ(p, i, k);
    assert(next(e, j) == p[0] && prev(e, 0) == p[j] && next(e, 0) == next(p, 0) && prev(e, j)
        == prev(p, j));
    assert(0 < i < j ==> next(e, i) == next(p, i) && prev(e, i) == prev(p, i));
    assert(0 < k < j ==> next(e, k) == next(p, k) && prev(e, k) == prev(p, k));
    if p[i] == p[0] {
        if i != 0 {
            lemma_other_corner(p, 0, i, j);
        }
        if k != 0 {
            lemma_other_corner(p, 0, k, j);
        }
        lemma_apart_rays(p, i, j);
        lemma_still_sharing(p, e, i, k, i, k, p[j]);
    } else if p[i] == p[j] {
        if i != j {
            lemma_other_corner(p, j, i, 0);
        }
        if k != j {
            lemma_other_corner(p, j, k, 0);
        }
        lemma_apart_rays(p, i, 0);
        lemma_still_sharing(p, e, i, k, i, k, p[0]);
    } else {
        assert(sharing(p, i, k));
    }
}

/// The early part of a weakly simple ring, cut along a diagonal, is weakly simple.
#[verifier::spinoff_prover]
proof fn lemma_early_weak(p: Seq<(int, int)>, j: int)
    requires
        weakly_simple(p),
        cuttable(p, j),
    ensures
        weakly_simple(early(p, j)),
{
    let e = early(p, j);
    let m = j + 1;
    lemma_facing_end(p, 0, j);
    lemma_facing_end(p, j, 0);
    assert(scattered(e)) by {
        assert forall|a: int, b: int, c: int|
            0 <= a < m && 0 <= b < m && 0 <= c < m && e[a] != e[b] && e[b] != e[c] && e[a]
                != e[c] implies #[trigger] tri(e[a], e[b], e[c]) != 0 by {
            assert(tri(p[a], p[b], p[c]) != 0);
        }
    }
    assert forall|i: int| 0 <= i < m implies #[trigger] bent(e, i) by {
        assert(bent(p, i));
    }
    assert forall|i: int, k: int| 0 <= i < m && 0 <= k < m implies #[trigger] uncrossing(
        e,
        i,
        k,
    ) by {
        lemma_early_uncrossed(p, j, i, k);
    }
    assert forall|i: int, k: int|
        0 <= i < m && 0 <= k < m && i != k && e[i] == e[k] implies #[trigger] sharing(e, i, k) by {
        lemma_early_sharing(p, j, i, k);
    }
}

/// The place in a ring of a corner of its late part.
pub(crate) open spec fn late_place(j: int, k: int) -> int {
    if k == 0 {
        0
    } else {
        j + k - 1
    }
}

/// No edge of the late part crosses another.
proof fn lemma_late_uncrossed(p: Seq<(int, int)>, j: int, i: int, k: int)
    requires
        weakly_simple(p),
        cuttable(p, j),
        0 <= i < p.len() - j + 1,
        0 <= k < p.len() - j + 1,
    ensures
        uncrossing(late(p, j), i, k),
{
    let l = late(p, j);
    lemma_late_at(p, j, 1);
    if i > 0 && k > 0 {
        lemma_late_at(p, j, i);
        lemma_late_at(p, j, k);
        assert(uncrossing(p, j + i - 1, j + k - 1));
    } else {
        let c = if i > 0 {
            i
        } else {
            k
        };
        lemma_tri(p[0], p[j], p[0]);
        lemma_tri(p[0], p[j], p[j]);
        if c > 0 {
            lemma_late_at(p, j, c);
            assert(uncrossed_by(p, j + c - 1, p[0], p[j]));
        }
    }
}

/// Corners of the late part at one point get along.
proof fn lemma_late_sharing(p: Seq<(int, int)>, j: int, i: int, k: int)
    requires
        weakly_simple(p),
        cuttable(p, j),
        0 <= i < p.len() - j + 1,
        0 <= k < p.len() - j + 1,
        i != k,
        late(p, j)[i] == late(p, j)[k],
    ensures
        sharing(late(p, j), i, k),
{
    let n = p.len() as int;
    let l = late(p, j);
    let (a, b) = (late_place(j, i), late_place(j, k));
    lemma_late_at(p, j, 1);
    if i > 0 {
        lemma_late_at(p, j, i);
    }
    if k > 0 {
        lemma_late_at(p, j, k);
    }
    assert(l[i] == p[a] && l[k] == p[b]);
    assert(prev(l, 1) == p[0] && prev(p, 0) == p[n - 1]);
    lemma_prev_differ(p, a, b);
    if p[a] == p[0] {
        if a != 0 {
            lemma_other_corner(p, 0, a, j);
        }
        if b != 0 {
            lemma_other_corner(p, 0, b, j);
        }
        lemma_apart_rays(p, a, j);
        lemma_still_sharing(p, l, i, k, a, b, p[j]);
    } else if p[a] == p[j] {
        if a != j {
            lemma_other_corner(p, j, a, 0);
        }
        if b != j {
            lemma_other_corner(p, j, b, 0);
        }
        lemma_apart_rays(p, a, 0);
        lemma_still_sharing(p, l, i, k, a, b, p[0]);
    } else {
        assert(sharing(p, a, b));
    }
}

/// The late part of a weakly simple ring, cut along a diagonal, is weakly simple.
#[verifier::spinoff_prover]
proof fn lemma_late_weak(p: Seq<(int, int)>, j: int)
    requires
        weakly_simple(p),
        cuttable(p, j),
    ensures
        weakly_simple(late(p, j)),
{
    let n = p.len() as int;
    let l = late(p, j);
    let m = n - j + 1;
    lemma_facing_end(p, 0, j);
    lemma_facing_end(p, j, 0);
    lemma_late_at(p, j, 1);
    assert forall|k: int| 0 <= k < m implies #[trigger] l[k] == p[late_place(j, k)] by {
        if k > 0 {
            lemma_late_at(p, j, k);
        }
    }
    assert(prev(l, 1) == p[0]);
    assert(scattered(l)) by {
        assert forall|a: int, b: int, c: int|
            0 <= a < m && 0 <= b < m && 0 <= c < m && l[a] != l[b] && l[b] != l[c] && l[a]
                != l[c] implies #[trigger] tri(l[a], l[b], l[c]) != 0 by {
            assert(tri(p[late_place(j, a)], p[late_place(j, b)], p[late_place(j, c)]) != 0);
        }
    }
    assert forall|i: int| 0 <= i < m implies #[trigger] bent(l, i) by {
        assert(bent(p, late_place(j, i)));
        if i > 0 {
            lemma_late_at(p, j, i);
        }
    }
    assert forall|i: int, k: int| 0 <= i < m && 0 <= k < m implies #[trigger] uncrossing(
        l,
        i,
        k,
    ) by {
        lemma_late_uncrossed(p, j, i, k);
    }
    assert forall|i: int, k: int|
        0 <= i < m && 0 <= k < m && i != k && l[i] == l[k] implies #[trigger] sharing(l, i, k) by {
        lemma_late_sharing(p, j, i, k);
    }
}

/// What the two halves of a corner add away from what they face is what the corner does.
pub(crate) proof fn lemma_halves_away(
    v: (int, int),
    o: (int, int),
    n: (int, int),
    d: (int, int),
)
    requires
        tri(v, o, n) != 0,
        tri(d, o, n) != 0,
        tri(v, o, d) != 0,
        in_turn(o, n, d, v),
    ensures
        turn_away(d, o, n) + turn_away(v, o, d) == turn_away(v, o, n),
{
    lemma_tri(v, o, n);
    lemma_tri(d, o, n);
    lemma_tri(v, o, d);
    lemma_tri(o, n, o);
    lemma_tri(o, o, n);
    lemma_turn_of(v, o, n, d);
    lemma_turn_along(d, o, n);
    lemma_turn_along(v, o, d);
    assert(wedge(o, d, d) == 0) by {
        lemma_tri(o, d, d);
    }
}

/// What corners at the first corner add away from what they face, in the early part.
proof fn lemma_early_away(p: Seq<(int, int)>, j: int, k: int)
    requires
        2 <= j < p.len() - 1,
        p[0] != p[j],
        1 <= k <= j + 1,
    ensures
        turns_away(early(p, j), p[0], k) == turns_away(p, p[0], k) - turn_away(
            prev(p, 0),
            p[0],
            next(p, 0),
        ) + turn_away(p[j], p[0], p[1]),
    decreases k,
{
    let e = early(p, j);
    let o = p[0];
    if k == 1 {
        assert(turns_away(e, o, 0) == 0 && turns_away(p, o, 0) == 0);
        assert(prev(e, 0) == p[j] && next(e, 0) == p[1]);
    } else {
        lemma_early_away(p, j, k - 1);
        let i = k - 1;
        assert(e[i] == p[i]);
        if i < j {
            assert(next(e, i) == next(p, i) && prev(e, i) == prev(p, i));
        }
    }
}

/// What corners at the first corner add away from what they face, in the late part.
proof fn lemma_late_away(p: Seq<(int, int)>, j: int, k: int)
    requires
        2 <= j < p.len() - 1,
        p[0] != p[j],
        1 <= k <= p.len() - j + 1,
    ensures
        turns_away(late(p, j), p[0], k) == turns_away(p, p[0], j + k - 1) - turns_away(p, p[0], j)
            + turn_away(p[p.len() - 1], p[0], p[j]),
    decreases k,
{
    let l = late(p, j);
    let o = p[0];
    lemma_late_at(p, j, 1);
    if k == 1 {
        assert(turns_away(l, o, 0) == 0);
    } else {
        lemma_late_away(p, j, k - 1);
        let i = k - 1;
        lemma_late_at(p, j, i);
    }
}

/// A weakly simple ring that runs counterclockwise falls into two such rings along a diagonal.
pub(crate) proof fn lemma_weak_cut(p: Seq<(int, int)>, j: int)
    requires
        weakly_left(p),
        cuttable(p, j),
    ensures
        weakly_left(early(p, j)),
        weakly_left(late(p, j)),
{
    let n = p.len() as int;
    let (e, l) = (early(p, j), late(p, j));
    let o = p[0];
    lemma_facing_end(p, 0, j);
    lemma_early_weak(p, j);
    lemma_late_weak(p, j);
    let x = lemma_ground_bound(e);
    let y = lemma_ground_bound(l);
    lemma_late_at(p, j, 1);
    lemma_parts_winding(p, j, o);
    lemma_early_away(p, j, j + 1);
    lemma_late_away(p, j, n - j + 1);
    assert(turns_away(p, o, j + 1) == turns_away(p, o, j));
    lemma_bend(p, 0);
    let (v, w) = (prev(p, 0), next(p, 0));
    assert(v == p[n - 1] && w == p[1]);
    lemma_tri(o, w, p[j]);
    lemma_tri(o, v, p[j]);
    lemma_tri(v, o, w);
    lemma_halves_away(v, o, w, p[j]);
}

} // verus!
