//! Simple rings: what it takes for a corner to be an ear, and that there always is one.
use vstd::prelude::*;
use crate::areas::{abs, tri};
use crate::model::{after, before};
use crate::segments::{
    apart, crossing, lemma_balance_at, lemma_four, lemma_on_side, lemma_on_way, lemma_pasch,
    lemma_side, lemma_signs, lemma_strictly, lemma_sum, lemma_tri, on, side, under,
};
use crate::winding::{
    inside, lemma_along, lemma_apart_swapped, lemma_diagonal, lemma_in_angle, lemma_left,
    lemma_off_angle, lemma_outside, lemma_passes_back, lemma_seen, next, passes, passings, prev,
    winding, winding_left,
};

verus! {

/// The corner at place `k` is not on the edge that starts at place `i`.
pub open spec fn off_edge(p: Seq<(int, int)>, i: int, k: int) -> bool {
    !on(p[i], next(p, i), p[k])
}

/// The edges that start at the places `i` and `j` do not cross.
pub open spec fn uncrossing(p: Seq<(int, int)>, i: int, j: int) -> bool {
    !crossing(p[i], next(p, i), p[j], next(p, j))
}

/// The ring is simple: no corner is on an edge that does not end there, and no two edges cross.
pub open spec fn simple(p: Seq<(int, int)>) -> bool {
    &&& p.len() >= 3
    &&& forall|i: int, k: int|
        0 <= i < p.len() && 0 <= k < p.len() && k != i && k != after(i, p.len() as int)
            ==> #[trigger] off_edge(p, i, k)
    &&& forall|i: int, j: int|
        0 <= i < p.len() && 0 <= j < p.len() && i != j && j != after(i, p.len() as int) && i
            != after(j, p.len() as int) ==> #[trigger] uncrossing(p, i, j)
}

/// The ring is simple and runs counterclockwise: once around what is to its left.
pub open spec fn left_handed(p: Seq<(int, int)>) -> bool {
    simple(p) && winding_left(p, 0) == 1
}

/// The corner at place `i` is an ear: the ring turns left there, and no other corner is in the
/// triangle of that corner and its neighbours.
pub open spec fn ear(p: Seq<(int, int)>, i: int) -> bool {
    &&& tri(prev(p, i), p[i], next(p, i)) > 0
    &&& forall|k: int|
        0 <= k < p.len() && k != i && k != after(i, p.len() as int) && k != before(
            i,
            p.len() as int,
        ) ==> !inside(prev(p, i), p[i], next(p, i), #[trigger] p[k])
}

/// The corner at place `m` comes below all others.
pub(crate) open spec fn lowest(p: Seq<(int, int)>, m: int) -> bool {
    &&& 0 <= m < p.len()
    &&& forall|k: int| 0 <= k < p.len() && k != m ==> under(p[m], #[trigger] p[k])
}

/// Edges without a common end are apart.
pub(crate) proof fn lemma_edges_apart(p: Seq<(int, int)>, i: int, j: int)
    requires
        simple(p),
        0 <= i < p.len(),
        0 <= j < p.len(),
        i != j,
        j != after(i, p.len() as int),
        i != after(j, p.len() as int),
    ensures
        apart(p[i], next(p, i), p[j], next(p, j)),
{
    let n = p.len() as int;
    assert(uncrossing(p, i, j));
    assert(off_edge(p, i, j));
    assert(off_edge(p, i, after(j, n)));
    assert(off_edge(p, j, i));
    assert(off_edge(p, j, after(i, n)));
}

/// The corners of a simple ring are different points.
pub(crate) proof fn lemma_corners_differ(p: Seq<(int, int)>, i: int, j: int)
    requires
        simple(p),
        0 <= i < p.len(),
        0 <= j < p.len(),
        i != j,
    ensures
        p[i] != p[j],
{
    let n = p.len() as int;
    if p[i] == p[j] {
        lemma_tri(p[i], next(p, i), p[i]);
        lemma_tri(p[j], next(p, j), p[j]);
        if j != after(i, n) {
            assert(off_edge(p, i, j));
        } else {
            assert(off_edge(p, j, i));
        }
    }
}

/// A simple ring does not turn back on itself.
proof fn lemma_no_spike(p: Seq<(int, int)>, i: int)
    requires
        simple(p),
        0 <= i < p.len(),
    ensures
        !(tri(prev(p, i), p[i], next(p, i)) == 0 && under(prev(p, i), p[i]) == under(
            next(p, i),
            p[i],
        )),
{
    let n = p.len() as int;
    let (a, b, c) = (prev(p, i), p[i], next(p, i));
    let (j, k) = (before(i, n), after(i, n));
    lemma_corners_differ(p, i, j);
    lemma_corners_differ(p, i, k);
    lemma_tri(a, b, c);
    assert(next(p, j) == b);
    assert(off_edge(p, j, k));
    assert(off_edge(p, i, j));
}

/// The winding to the left is the same all along a simple ring.
pub(crate) proof fn lemma_left_along(p: Seq<(int, int)>, i: int)
    requires
        simple(p),
        0 <= i < p.len(),
    ensures
        winding_left(p, i) == winding_left(p, 0),
    decreases i,
{
    let n = p.len() as int;
    if i > 0 {
        let j = i - 1;
        lemma_left_along(p, j);
        assert(after(j, n) == i && before(i, n) == j);
        lemma_corners_differ(p, j, i);
        lemma_corners_differ(p, i, after(i, n));
        lemma_no_spike(p, i);
        assert forall|k: int|
            0 <= k < n && k != j && k != before(j, n) && k != after(j, n) implies apart(
            #[trigger] p[k],
            next(p, k),
            p[j],
            next(p, j),
        ) by {
            lemma_edges_apart(p, k, j);
        }
        lemma_left(p, j);
    }
}

/// A ring does not run around a point below all of its corners.
pub(crate) proof fn lemma_below(p: Seq<(int, int)>, q: (int, int), k: int)
    requires
        0 <= k <= p.len(),
        forall|j: int| 0 <= j < p.len() ==> q == #[trigger] p[j] || under(q, p[j]),
    ensures
        passings(p, q, k) == 0,
    decreases k,
{
    if k > 0 {
        lemma_below(p, q, k - 1);
        let u = p[k - 1];
        let v = next(p, k - 1);
        lemma_tri(u, v, u);
        lemma_tri(u, v, v);
    }
}

/// At its lowest corner a simple ring turns left if it runs once around what is to its left, and
/// right if it does not run around that at all.
pub(crate) proof fn lemma_lowest_turn(p: Seq<(int, int)>, m: int)
    requires
        simple(p),
        lowest(p, m),
    ensures
        tri(prev(p, m), p[m], next(p, m)) != 0,
        winding_left(p, 0) == if tri(prev(p, m), p[m], next(p, m)) > 0 {
            1int
        } else {
            0
        },
{
    let n = p.len() as int;
    lemma_left_along(p, m);
    lemma_below(p, p[m], n);
    let (a, b, c) = (prev(p, m), p[m], next(p, m));
    assert(under(b, p[before(m, n)]) && under(b, p[after(m, n)]));
    lemma_tri(a, b, c);
    lemma_tri(b, c, c);
    lemma_no_spike(p, m);
}

/// There is a lowest corner.
pub(crate) proof fn lemma_has_lowest(p: Seq<(int, int)>, k: int) -> (m: int)
    requires
        simple(p),
        1 <= k <= p.len(),
    ensures
        0 <= m < k,
        forall|j: int| 0 <= j < k && j != m ==> under(p[m], #[trigger] p[j]),
    decreases k,
{
    if k == 1 {
        0
    } else {
        let m = lemma_has_lowest(p, k - 1);
        lemma_corners_differ(p, m, k - 1);
        if under(p[m], p[k - 1]) {
            m
        } else {
            assert forall|j: int| 0 <= j < k && j != k - 1 implies under(
                p[k - 1],
                #[trigger] p[j],
            ) by {
                if j != m {
                    assert(under(p[m], p[j]));
                }
            }
            k - 1
        }
    }
}

// ---------------------------------------------------------------------------------------------
// What a corner sees
// ---------------------------------------------------------------------------------------------
/// No corner of the ring in the triangle at place `i` is further from the side opposite than `z`.
pub(crate) open spec fn foremost(p: Seq<(int, int)>, i: int, z: (int, int)) -> bool {
    forall|k: int|
        0 <= k < p.len() && k != i && k != after(i, p.len() as int) && k != before(
            i,
            p.len() as int,
        ) && inside(prev(p, i), p[i], next(p, i), #[trigger] p[k]) ==> tri(
            next(p, i),
            prev(p, i),
            p[k],
        ) <= tri(next(p, i), prev(p, i), z)
}

/// The point is in the triangle at place `i`, and not on the edges there.
pub(crate) open spec fn ahead(p: Seq<(int, int)>, i: int, z: (int, int)) -> bool {
    &&& tri(prev(p, i), p[i], next(p, i)) > 0
    &&& tri(prev(p, i), p[i], z) > 0
    &&& tri(p[i], next(p, i), z) > 0
    &&& tri(next(p, i), prev(p, i), z) >= 0
}

/// Where two segments cross, weighed between the ends of either.
pub(crate) proof fn lemma_weighed(
    f: (int, int),
    g: (int, int),
    u: (int, int),
    v: (int, int),
    q: (int, int),
    w: (int, int),
)
    requires
        crossing(u, v, q, w),
    ensures
        abs(tri(q, w, v)) > 0,
        abs(tri(q, w, u)) > 0,
        abs(tri(u, v, w)) > 0,
        abs(tri(u, v, q)) > 0,
        abs(tri(q, w, v)) + abs(tri(q, w, u)) == abs(tri(u, v, w)) + abs(tri(u, v, q)),
        abs(tri(q, w, v)) * tri(f, g, u) + abs(tri(q, w, u)) * tri(f, g, v) == abs(
            tri(u, v, w),
        ) * tri(f, g, q) + abs(tri(u, v, q)) * tri(f, g, w),
{
    let k = side(f, g);
    lemma_four(k, u, v, q, w);
    lemma_side(f, g, u);
    lemma_side(f, g, v);
    lemma_side(f, g, q);
    lemma_side(f, g, w);
    lemma_tri(u, q, w);
    lemma_tri(v, q, w);
    lemma_signs(tri(q, w, v), tri(f, g, u));
    lemma_signs(tri(q, w, u), tri(f, g, v));
    lemma_signs(tri(u, v, w), tri(f, g, q));
    lemma_signs(tri(u, v, q), tri(f, g, w));
}

/// The end of an edge that crosses the way from a corner to a point ahead is not further from the
/// side opposite than that point.
#[verifier::spinoff_prover]
proof fn lemma_end_behind(p: Seq<(int, int)>, i: int, z: (int, int), k: int, j: int)
    requires
        simple(p),
        0 <= i < p.len(),
        0 <= k < p.len(),
        k != i,
        k != before(i, p.len() as int),
        ahead(p, i, z),
        foremost(p, i, z),
        crossing(p[k], next(p, k), p[i], z),
        j == k || j == after(k, p.len() as int),
    ensures
        tri(next(p, i), prev(p, i), p[j]) <= tri(next(p, i), prev(p, i), z),
{
    let n = p.len() as int;
    let (a, b, c) = (prev(p, i), p[i], next(p, i));
    let v = p[j];
    let l = if j == k {
        after(k, n)
    } else {
        k
    };
    let u = p[l];
    lemma_tri(a, b, c);
    lemma_tri(a, b, b);
    lemma_tri(b, c, b);
    lemma_tri(c, a, a);
    lemma_tri(c, a, c);
    if tri(c, a, v) > tri(c, a, z) {
        assert(j != before(i, n) && j != after(i, n) && j != i);
        assert(!inside(a, b, c, v));
        if crossing(u, v, b, z) {
        } else {
            lemma_tri(u, v, b);
            lemma_tri(u, v, z);
        }
        lemma_weighed(a, b, u, v, b, z);
        lemma_weighed(b, c, u, v, b, z);
        lemma_weighed(c, a, u, v, b, z);
        let s = abs(tri(b, z, v));
        let t = abs(tri(b, z, u));
        let zb = abs(tri(u, v, z));
        let zz = abs(tri(u, v, b));
        lemma_signs(zb, 0);
        lemma_signs(zb, tri(c, a, b));
        lemma_signs(zz, tri(a, b, z));
        lemma_signs(zz, tri(b, c, z));
        lemma_signs(zz, tri(c, a, z));
        lemma_pasch(a, b, c, u, v, s, t);
        lemma_signs(s, tri(a, b, u));
        lemma_signs(t, tri(a, b, v));
        lemma_signs(s, tri(b, c, u));
        lemma_signs(t, tri(b, c, v));
        assert(next(p, before(i, n)) == b);
        if tri(a, b, v) < 0 {
            assert(l != before(i, n)) by {
                if l == before(i, n) {
                    lemma_tri(a, b, a);
                }
            }
            lemma_edges_apart(p, k, before(i, n));
            lemma_apart_swapped(p[k], next(p, k), a, b);
        }
        if tri(b, c, v) < 0 {
            assert(l != after(i, n)) by {
                if l == after(i, n) {
                    lemma_tri(b, c, c);
                }
            }
            lemma_edges_apart(p, k, i);
            lemma_apart_swapped(p[k], next(p, k), b, c);
        }
    }
}

/// An edge is apart from the way between a corner and a foremost point ahead that is not on it.
#[verifier::spinoff_prover]
proof fn lemma_way_clear(p: Seq<(int, int)>, i: int, z: (int, int), k: int)
    requires
        simple(p),
        0 <= i < p.len(),
        0 <= k < p.len(),
        k != i,
        k != before(i, p.len() as int),
        ahead(p, i, z),
        foremost(p, i, z),
        !on(p[k], next(p, k), z),
    ensures
        apart(p[k], next(p, k), p[i], z),
{
    let n = p.len() as int;
    let (a, b, c) = (prev(p, i), p[i], next(p, i));
    let (u, v) = (p[k], next(p, k));
    assert(after(k, n) != i);
    assert(off_edge(p, k, i));
    lemma_tri(u, v, u);
    lemma_tri(u, v, v);
    assert(on(u, v, u) && on(u, v, v));
    if on(b, z, u) {
        lemma_not_on_way(p, i, z, k);
    }
    if on(b, z, v) {
        lemma_not_on_way(p, i, z, after(k, n));
    }
    if crossing(u, v, b, z) {
        lemma_end_behind(p, i, z, k, k);
        lemma_end_behind(p, i, z, k, after(k, n));
        lemma_weighed(c, a, u, v, b, z);
        let s = abs(tri(b, z, v));
        let t = abs(tri(b, z, u));
        let zb = abs(tri(u, v, z));
        let zz = abs(tri(u, v, b));
        let d = tri(c, a, z);
        lemma_sum(a, b, c, z);
        lemma_tri(a, b, c);
        assert(s * tri(c, a, u) <= s * d) by (nonlinear_arith)
            requires
                s > 0,
                tri(c, a, u) <= d,
        ;
        assert(t * tri(c, a, v) <= t * d) by (nonlinear_arith)
            requires
                t > 0,
                tri(c, a, v) <= d,
        ;
        assert(zb * tri(c, a, b) > zb * d) by (nonlinear_arith)
            requires
                zb > 0,
                tri(c, a, b) > d,
        ;
        assert(s * d + t * d == zb * d + zz * d) by (nonlinear_arith)
            requires
                s + t == zb + zz,
        ;
    }
}

/// No other corner is on the way between a corner and a foremost point ahead.
proof fn lemma_not_on_way(p: Seq<(int, int)>, i: int, z: (int, int), k: int)
    requires
        simple(p),
        0 <= i < p.len(),
        0 <= k < p.len(),
        k != i,
        p[k] != z,
        ahead(p, i, z),
        foremost(p, i, z),
    ensures
        !on(p[i], z, p[k]),
{
    let n = p.len() as int;
    let (a, b, c) = (prev(p, i), p[i], next(p, i));
    if on(b, z, p[k]) {
        lemma_corners_differ(p, i, k);
        lemma_on_way(a, b, c, z, p[k]);
        lemma_tri(a, b, a);
        lemma_tri(b, c, c);
        assert(inside(a, b, c, p[k]));
    }
}

/// A ring runs once around a point in an ear that is on none of its edges.
#[verifier::spinoff_prover]
pub(crate) proof fn lemma_in_ear(p: Seq<(int, int)>, i: int, w: (int, int))
    requires
        left_handed(p),
        0 <= i < p.len(),
        ear(p, i),
        inside(prev(p, i), p[i], next(p, i), w),
        forall|k: int| 0 <= k < p.len() ==> !on(#[trigger] p[k], next(p, k), w),
    ensures
        winding(p, w) == 1,
{
    let n = p.len() as int;
    let (a, b, c) = (prev(p, i), p[i], next(p, i));
    assert(p[before(i, n)] == a && next(p, before(i, n)) == b);
    assert(!on(p[before(i, n)], next(p, before(i, n)), w));
    assert(!on(p[i], next(p, i), w));
    lemma_strictly(a, b, c, w);
    assert forall|k: int| 0 <= k < n && k != i && k != before(i, n) implies apart(
        #[trigger] p[k],
        next(p, k),
        b,
        w,
    ) by {
        assert(!on(p[k], next(p, k), w));
        lemma_way_clear(p, i, w, k);
    }
    assert(w != b) by {
        lemma_tri(a, b, b);
    }
    lemma_seen(p, i, w);
    lemma_tri(a, b, w);
    lemma_tri(b, w, a);
    lemma_in_angle(p, i, w);
    lemma_left_along(p, i);
}

// ---------------------------------------------------------------------------------------------
// Cutting rings
// ---------------------------------------------------------------------------------------------
/// No edge crosses the cut behind an ear.
proof fn lemma_cut_uncrossed(p: Seq<(int, int)>, k: int, j: int)
    requires
        simple(p),
        ear(p, 0),
        2 <= k < p.len() - 2,
        j == k || j == k + 1,
        tri(p[1], p[p.len() - 1], p[j]) > 0,
    ensures
        !crossing(p[k], p[k + 1], p[p.len() - 1], p[1]),
{
    let n = p.len() as int;
    let (a, b, c) = (p[n - 1], p[0], p[1]);
    let v = p[j];
    let u = p[k + (k + 1 - j)];
    if crossing(p[k], p[k + 1], a, c) {
        assert(crossing(u, v, a, c)) by {
            lemma_tri(u, v, a);
            lemma_tri(u, v, c);
        }
        lemma_weighed(a, b, u, v, a, c);
        lemma_weighed(b, c, u, v, a, c);
        lemma_weighed(c, a, u, v, a, c);
        lemma_tri(a, b, c);
        lemma_tri(a, b, a);
        lemma_tri(b, c, c);
        lemma_tri(c, a, a);
        lemma_tri(c, a, c);
        let s = abs(tri(a, c, v));
        let t = abs(tri(a, c, u));
        let za = abs(tri(u, v, c));
        let zc = abs(tri(u, v, a));
        lemma_signs(za, tri(a, b, a));
        lemma_signs(zc, tri(a, b, c));
        lemma_signs(za, tri(b, c, a));
        lemma_signs(zc, tri(b, c, c));
        lemma_signs(za, tri(c, a, a));
        lemma_signs(zc, tri(c, a, c));
        assert(prev(p, 0) == a && next(p, 0) == c);
        assert(!inside(a, b, c, p[j]));
        lemma_pasch(a, b, c, u, v, s, t);
        assert(next(p, k) == p[k + 1] && next(p, n - 1) == b);
        lemma_edges_apart(p, k, n - 1);
        lemma_edges_apart(p, k, 0);
        lemma_apart_swapped(p[k], p[k + 1], a, b);
        lemma_apart_swapped(p[k], p[k + 1], b, c);
    }
}

/// Without an ear a simple ring is simple.
#[verifier::spinoff_prover]
pub(crate) proof fn lemma_cut_simple(p: Seq<(int, int)>)
    requires
        simple(p),
        p.len() >= 4,
        ear(p, 0),
    ensures
        simple(p.drop_first()),
{
    let n = p.len() as int;
    let d = p.drop_first();
    let (a, b, c) = (p[n - 1], p[0], p[1]);
    assert(prev(p, 0) == a && next(p, 0) == c);
    assert forall|i: int, k: int|
        0 <= i < n - 1 && 0 <= k < n - 1 && k != i && k != after(i, n - 1) implies #[trigger] off_edge(
        d,
        i,
        k,
    ) by {
        assert(d[i] == p[i + 1] && d[k] == p[k + 1]);
        if i < n - 2 {
            assert(next(d, i) == next(p, i + 1));
            assert(off_edge(p, i + 1, k + 1));
        } else {
            assert(next(d, i) == c);
            if on(a, c, p[k + 1]) {
                lemma_on_side(a, b, c, p[k + 1]);
                assert(inside(a, b, c, p[k + 1]));
            }
        }
    }
    assert forall|i: int, j: int|
        0 <= i < n - 1 && 0 <= j < n - 1 && i != j && j != after(i, n - 1) && i != after(
            j,
            n - 1,
        ) implies #[trigger] uncrossing(d, i, j) by {
        assert(d[i] == p[i + 1] && d[j] == p[j + 1]);
        if i < n - 2 && j < n - 2 {
            assert(next(d, i) == next(p, i + 1) && next(d, j) == next(p, j + 1));
            assert(uncrossing(p, i + 1, j + 1));
        } else {
            let k = if i < n - 2 {
                i + 1
            } else {
                j + 1
            };
            assert(next(d, k - 1) == p[k + 1]);
            assert(next(d, n - 2) == c);
            assert(2 <= k < n - 2);
            lemma_tri(a, c, p[k]);
            lemma_tri(a, c, p[k + 1]);
            if tri(c, a, p[k]) > 0 {
                lemma_cut_uncrossed(p, k, k);
            } else if tri(c, a, p[k + 1]) > 0 {
                lemma_cut_uncrossed(p, k, k + 1);
            }
        }
    }
}

/// The passings of a ring without its first corner.
pub(crate) proof fn lemma_cut_passings(p: Seq<(int, int)>, q: (int, int), k: int)
    requires
        0 <= k <= p.len() - 2,
    ensures
        passings(p.drop_first(), q, k) == passings(p, q, k + 1) - passes(p[0], p[1], q),
    decreases k,
{
    let d = p.drop_first();
    if k > 0 {
        lemma_cut_passings(p, q, k - 1);
        assert(d[k - 1] == p[k] && next(d, k - 1) == p[k + 1] && next(p, k) == p[k + 1]);
    } else {
        assert(passings(p, q, 0) == 0);
        assert(next(p, 0) == p[1]);
    }
}

/// Without an ear a ring that runs counterclockwise does so.
pub(crate) proof fn lemma_cut(p: Seq<(int, int)>)
    requires
        left_handed(p),
        p.len() >= 4,
        ear(p, 0),
    ensures
        left_handed(p.drop_first()),
{
    let n = p.len() as int;
    let d = p.drop_first();
    let (a, b, c) = (p[n - 1], p[0], p[1]);
    let z = p[2];
    lemma_cut_simple(p);
    lemma_left_along(p, 2);
    lemma_left_along(d, 1);
    lemma_cut_passings(p, z, n - 2);
    assert(prev(p, 0) == a && next(p, 0) == c);
    assert(next(p, n - 1) == b && next(d, n - 2) == c && d[n - 2] == a);
    assert(passings(d, z, n - 1) == passings(d, z, n - 2) + passes(a, c, z));
    assert(passings(p, z, n) == passings(p, z, n - 1) + passes(a, b, z));
    if n == 4 {
        lemma_corners_differ(p, 2, 3);
    }
    assert(!inside(a, b, c, p[2])) by {
        if n == 4 {
            assert(2 != after(0, n) && 2 != before(0, n));
        }
    }
    lemma_outside(a, b, c, z);
    lemma_passes_back(a, c, z);
    assert(d[1] == z && next(d, 1) == next(p, 2) && prev(d, 1) == prev(p, 2));
}

/// The part of a ring up to the corner at place `j`.
pub open spec fn early(p: Seq<(int, int)>, j: int) -> Seq<(int, int)> {
    p.take(j + 1)
}

/// The part of a ring from the corner at place `j` on, and the first corner.
pub open spec fn late(p: Seq<(int, int)>, j: int) -> Seq<(int, int)> {
    seq![p[0]] + p.skip(j)
}

/// Corners and edges of the late part of a ring.
pub(crate) proof fn lemma_late_at(p: Seq<(int, int)>, j: int, i: int)
    requires
        2 <= j < p.len() - 1,
        1 <= i < p.len() - j + 1,
    ensures
        late(p, j).len() == p.len() - j + 1,
        late(p, j)[i] == p[j + i - 1],
        next(late(p, j), i) == next(p, j + i - 1),
        i > 1 ==> prev(late(p, j), i) == prev(p, j + i - 1),
        late(p, j)[0] == p[0],
        next(late(p, j), 0) == p[j],
        prev(late(p, j), 0) == p[p.len() - 1],
{
}

/// The first corner and the one at place `j` see each other.
pub(crate) open spec fn facing(p: Seq<(int, int)>, j: int) -> bool {
    &&& 2 <= j < p.len() - 1
    &&& forall|k: int|
        1 <= k < p.len() - 1 && k != j - 1 && k != j ==> apart(
            #[trigger] p[k],
            next(p, k),
            p[0],
            p[j],
        )
    &&& forall|k: int| 1 <= k < p.len() && k != j ==> !on(p[0], p[j], #[trigger] p[k])
}

/// Cut off where two corners see each other, the early part of a simple ring is simple.
#[verifier::spinoff_prover]
pub(crate) proof fn lemma_early_simple(p: Seq<(int, int)>, j: int)
    requires
        simple(p),
        facing(p, j),
    ensures
        simple(early(p, j)),
{
    let e = early(p, j);
    assert forall|i: int, k: int|
        0 <= i <= j && 0 <= k <= j && k != i && k != after(i, j + 1) implies #[trigger] off_edge(
        e,
        i,
        k,
    ) by {
        assert(e[i] == p[i] && e[k] == p[k]);
        if i < j {
            assert(next(e, i) == next(p, i));
            assert(off_edge(p, i, k));
        } else {
            assert(next(e, i) == p[0]);
            assert(!on(p[0], p[j], p[k]));
            lemma_tri(p[0], p[j], p[k]);
        }
    }
    assert forall|i: int, k: int|
        0 <= i <= j && 0 <= k <= j && i != k && k != after(i, j + 1) && i != after(
            k,
            j + 1,
        ) implies #[trigger] uncrossing(e, i, k) by {
        assert(e[i] == p[i] && e[k] == p[k]);
        if i < j && k < j {
            assert(next(e, i) == next(p, i) && next(e, k) == next(p, k));
            assert(uncrossing(p, i, k));
        } else {
            let m = if i < j {
                i
            } else {
                k
            };
            assert(next(e, m) == next(p, m) && next(e, j) == p[0]);
            assert(apart(p[m], next(p, m), p[0], p[j]));
            lemma_apart_swapped(p[m], next(p, m), p[0], p[j]);
            lemma_apart_swapped(p[m], next(p, m), p[j], p[0]);
        }
    }
}

/// Cut off where two corners see each other, the late part of a simple ring is simple.
#[verifier::spinoff_prover]
pub(crate) proof fn lemma_late_simple(p: Seq<(int, int)>, j: int)
    requires
        simple(p),
        facing(p, j),
    ensures
        simple(late(p, j)),
{
    let n = p.len() as int;
    let l = late(p, j);
    let c = n - j + 1;
    lemma_late_at(p, j, 1);
    assert forall|i: int, k: int|
        0 <= i < c && 0 <= k < c && k != i && k != after(i, c) implies #[trigger] off_edge(
        l,
        i,
        k,
    ) by {
        let m = if k == 0 {
            0
        } else {
            j + k - 1
        };
        if k > 0 {
            lemma_late_at(p, j, k);
        }
        if i > 0 {
            lemma_late_at(p, j, i);
            assert(off_edge(p, j + i - 1, m));
        } else {
            assert(!on(p[0], p[j], p[m]));
        }
    }
    assert forall|i: int, k: int|
        0 <= i < c && 0 <= k < c && i != k && k != after(i, c) && i != after(
            k,
            c,
        ) implies #[trigger] uncrossing(l, i, k) by {
        if i > 0 && k > 0 {
            lemma_late_at(p, j, i);
            lemma_late_at(p, j, k);
            assert(uncrossing(p, j + i - 1, j + k - 1));
        } else {
            let m = if i > 0 {
                i
            } else {
                k
            };
            lemma_late_at(p, j, m);
            assert(apart(p[j + m - 1], next(p, j + m - 1), p[0], p[j]));
            lemma_apart_swapped(p[j + m - 1], next(p, j + m - 1), p[0], p[j]);
        }
    }
}

/// Seen from the lowest corner, the early part does not run around the corners of the late one.
#[verifier::spinoff_prover]
proof fn lemma_early_winding(p: Seq<(int, int)>, j: int, m: int)
    requires
        simple(p),
        lowest(p, 0),
        facing(p, j),
        ahead(p, 0, p[j]),
        j < m < p.len(),
    ensures
        winding(early(p, j), p[m]) == 0,
    decreases p.len() - m,
{
    let n = p.len() as int;
    let e = early(p, j);
    let (a, b, c, z) = (p[n - 1], p[0], p[1], p[j]);
    assert(prev(p, 0) == a && next(p, 0) == c);
    assert(next(e, j) == b && e[j] == z && e[0] == b);
    if m == n - 1 {
        assert forall|k: int| 0 <= k < e.len() && k != 0 && k != before(0, e.len() as int) implies apart(
            #[trigger] e[k],
            next(e, k),
            b,
            a,
        ) by {
            assert(e[k] == p[k] && next(e, k) == next(p, k) && next(p, n - 1) == b);
            lemma_edges_apart(p, k, n - 1);
            lemma_apart_swapped(p[k], next(p, k), a, b);
        }
        assert(under(b, p[n - 1]) && under(b, p[1]) && under(b, p[j]));
        lemma_seen(e, 0, a);
        lemma_below(e, b, e.len() as int);
        assert(next(e, 0) == c && prev(e, 0) == z);
        lemma_tri(a, b, c);
        lemma_tri(a, b, z);
    } else {
        lemma_early_winding(p, j, m + 1);
        assert forall|k: int| 0 <= k < e.len() implies apart(
            #[trigger] e[k],
            next(e, k),
            p[m],
            p[m + 1],
        ) by {
            assert(e[k] == p[k] && next(p, m) == p[m + 1]);
            if k < j {
                assert(next(e, k) == next(p, k));
                lemma_edges_apart(p, k, m);
            } else {
                assert(apart(p[m], next(p, m), b, z));
                lemma_apart_swapped(p[m], p[m + 1], b, z);
                lemma_apart_swapped(p[m], p[m + 1], z, b);
            }
        }
        lemma_along(e, p[m], p[m + 1]);
    }
}

/// Seen from the lowest corner, the late part does not run around the corners of the early one.
#[verifier::spinoff_prover]
proof fn lemma_late_winding(p: Seq<(int, int)>, j: int, m: int)
    requires
        simple(p),
        lowest(p, 0),
        facing(p, j),
        ahead(p, 0, p[j]),
        1 <= m < j,
    ensures
        winding(late(p, j), p[m]) == 0,
    decreases m,
{
    let n = p.len() as int;
    let l = late(p, j);
    let (a, b, c, z) = (p[n - 1], p[0], p[1], p[j]);
    let s = n - j + 1;
    lemma_late_at(p, j, 1);
    assert(prev(p, 0) == a && next(p, 0) == c);
    if m == 1 {
        assert forall|k: int| 0 <= k < s && k != 0 && k != before(0, s) implies apart(
            #[trigger] l[k],
            next(l, k),
            b,
            c,
        ) by {
            lemma_late_at(p, j, k);
            lemma_edges_apart(p, j + k - 1, 0);
        }
        assert forall|k: int| 0 <= k < s implies b == #[trigger] l[k] || under(b, l[k]) by {
            if k > 0 {
                lemma_late_at(p, j, k);
            }
        }
        assert(under(b, p[n - 1]) && under(b, p[1]) && under(b, p[j]));
        lemma_seen(l, 0, c);
        lemma_below(l, b, s);
        lemma_tri(a, b, c);
        lemma_tri(b, c, z);
    } else {
        lemma_late_winding(p, j, m - 1);
        assert forall|k: int| 0 <= k < s implies apart(
            #[trigger] l[k],
            next(l, k),
            p[m - 1],
            p[m],
        ) by {
            assert(next(p, m - 1) == p[m]);
            if k > 0 {
                lemma_late_at(p, j, k);
                lemma_edges_apart(p, j + k - 1, m - 1);
            } else {
                assert(apart(p[m - 1], next(p, m - 1), b, z));
                lemma_apart_swapped(p[m - 1], p[m], b, z);
            }
        }
        lemma_along(l, p[m - 1], p[m]);
    }
}

// ---------------------------------------------------------------------------------------------
// Ears
// ---------------------------------------------------------------------------------------------
/// The ring seen from the corner at place `m`.
pub open spec fn seen_at(p: Seq<(int, int)>, m: int) -> Seq<(int, int)> {
    p.skip(m) + p.take(m)
}

/// The place in the ring of what comes `k` places after `m`.
pub(crate) open spec fn place(k: int, m: int, n: int) -> int {
    if k + m < n {
        k + m
    } else {
        k + m - n
    }
}

/// Corners and edges of a ring seen from another corner.
pub(crate) proof fn lemma_seen_at(p: Seq<(int, int)>, m: int, k: int)
    requires
        0 <= m < p.len(),
        0 <= k < p.len(),
    ensures
        seen_at(p, m).len() == p.len(),
        0 <= place(k, m, p.len() as int) < p.len(),
        seen_at(p, m)[k] == p[place(k, m, p.len() as int)],
        place(after(k, p.len() as int), m, p.len() as int) == after(
            place(k, m, p.len() as int),
            p.len() as int,
        ),
        place(before(k, p.len() as int), m, p.len() as int) == before(
            place(k, m, p.len() as int),
            p.len() as int,
        ),
        next(seen_at(p, m), k) == next(p, place(k, m, p.len() as int)),
        prev(seen_at(p, m), k) == prev(p, place(k, m, p.len() as int)),
{
    let n = p.len() as int;
    let s = seen_at(p, m);
    assert(s[after(k, n)] == p[place(after(k, n), m, n)]);
    assert(s[before(k, n)] == p[place(before(k, n), m, n)]);
}

/// A ring is simple wherever it is seen from.
pub(crate) proof fn lemma_seen_simple(p: Seq<(int, int)>, m: int)
    requires
        simple(p),
        0 <= m < p.len(),
    ensures
        simple(seen_at(p, m)),
{
    let n = p.len() as int;
    let s = seen_at(p, m);
    assert forall|i: int, k: int|
        0 <= i < n && 0 <= k < n && k != i && k != after(i, n) implies #[trigger] off_edge(
        s,
        i,
        k,
    ) by {
        lemma_seen_at(p, m, i);
        lemma_seen_at(p, m, k);
        assert(off_edge(p, place(i, m, n), place(k, m, n)));
    }
    assert forall|i: int, j: int|
        0 <= i < n && 0 <= j < n && i != j && j != after(i, n) && i != after(
            j,
            n,
        ) implies #[trigger] uncrossing(s, i, j) by {
        lemma_seen_at(p, m, i);
        lemma_seen_at(p, m, j);
        assert(uncrossing(p, place(i, m, n), place(j, m, n)));
    }
}

/// A ring runs counterclockwise wherever it is seen from.
pub(crate) proof fn lemma_seen_left_handed(p: Seq<(int, int)>, m: int)
    requires
        left_handed(p),
        0 <= m < p.len(),
    ensures
        left_handed(seen_at(p, m)),
{
    let n = p.len() as int;
    let s = seen_at(p, m);
    lemma_seen_simple(p, m);
    let l = lemma_has_lowest(s, n);
    let g = place(l, m, n);
    lemma_seen_at(p, m, l);
    assert forall|k: int| 0 <= k < n && k != g implies under(p[g], #[trigger] p[k]) by {
        let j = if k >= m {
            k - m
        } else {
            k - m + n
        };
        lemma_seen_at(p, m, j);
        assert(under(s[l], s[j]));
    }
    lemma_lowest_turn(p, g);
    lemma_lowest_turn(s, l);
}

/// An ear is one wherever the ring is seen from.
pub(crate) proof fn lemma_seen_ear(p: Seq<(int, int)>, m: int, k: int)
    requires
        0 <= m < p.len(),
        0 <= k < p.len(),
    ensures
        ear(seen_at(p, m), k) == ear(p, place(k, m, p.len() as int)),
{
    let n = p.len() as int;
    let s = seen_at(p, m);
    let g = place(k, m, n);
    lemma_seen_at(p, m, k);
    if ear(s, k) {
        assert forall|i: int| 0 <= i < n && i != g && i != after(g, n) && i != before(
            g,
            n,
        ) implies !inside(prev(p, g), p[g], next(p, g), #[trigger] p[i]) by {
            let j = if i >= m {
                i - m
            } else {
                i - m + n
            };
            lemma_seen_at(p, m, j);
            assert(!inside(prev(s, k), s[k], next(s, k), s[j]));
        }
    }
    if ear(p, g) {
        assert forall|j: int| 0 <= j < n && j != k && j != after(k, n) && j != before(
            k,
            n,
        ) implies !inside(prev(s, k), s[k], next(s, k), #[trigger] s[j]) by {
            lemma_seen_at(p, m, j);
            assert(!inside(prev(p, g), p[g], next(p, g), p[place(j, m, n)]));
        }
    }
}

/// Of the first `k` corners that are in the triangle at the first one, the place of that which is
/// furthest from the side opposite.
proof fn lemma_has_foremost(p: Seq<(int, int)>, k: int) -> (j: int)
    requires
        p.len() >= 4,
        2 <= k <= p.len() - 1,
    ensures
        j == 0 ==> forall|i: int|
            2 <= i < k ==> !inside(p[p.len() - 1], p[0], p[1], #[trigger] p[i]),
        j != 0 ==> 2 <= j < k && inside(p[p.len() - 1], p[0], p[1], p[j]) && forall|i: int|
            2 <= i < k && inside(p[p.len() - 1], p[0], p[1], #[trigger] p[i]) ==> tri(
                p[1],
                p[p.len() - 1],
                p[i],
            ) <= tri(p[1], p[p.len() - 1], p[j]),
    decreases k,
{
    let n = p.len() as int;
    let (a, b, c) = (p[n - 1], p[0], p[1]);
    if k == 2 {
        0
    } else {
        let j = lemma_has_foremost(p, k - 1);
        if !inside(a, b, c, p[k - 1]) {
            j
        } else if j == 0 || tri(c, a, p[k - 1]) >= tri(c, a, p[j]) {
            k - 1
        } else {
            j
        }
    }
}

/// The first corner and a foremost one in the triangle there see each other.
proof fn lemma_facing(p: Seq<(int, int)>, j: int)
    requires
        simple(p),
        2 <= j < p.len() - 1,
        tri(p[p.len() - 1], p[0], p[1]) > 0,
        inside(p[p.len() - 1], p[0], p[1], p[j]),
        foremost(p, 0, p[j]),
    ensures
        facing(p, j),
        ahead(p, 0, p[j]),
{
    let n = p.len() as int;
    let (a, b, c, z) = (p[n - 1], p[0], p[1], p[j]);
    assert(prev(p, 0) == a && next(p, 0) == c && next(p, n - 1) == b);
    assert(off_edge(p, n - 1, j));
    assert(off_edge(p, 0, j));
    lemma_strictly(a, b, c, z);
    assert forall|k: int| 1 <= k < n - 1 && k != j - 1 && k != j implies apart(
        #[trigger] p[k],
        next(p, k),
        b,
        z,
    ) by {
        assert(off_edge(p, k, j));
        lemma_way_clear(p, 0, z, k);
    }
    assert forall|k: int| 1 <= k < n && k != j implies !on(b, z, #[trigger] p[k]) by {
        lemma_corners_differ(p, k, j);
        lemma_not_on_way(p, 0, z, k);
    }
}

/// A ring that runs counterclockwise has an ear that is not at the edge which starts at place `k`.
pub proof fn lemma_has_ear(p: Seq<(int, int)>, k: int) -> (i: int)
    requires
        left_handed(p),
        0 <= k < p.len(),
    ensures
        0 <= i < p.len(),
        i != k,
        i != after(k, p.len() as int),
        ear(p, i),
    decreases p.len(), 2int,
{
    let n = p.len() as int;
    let m = lemma_has_lowest(p, n);
    let s = seen_at(p, m);
    lemma_seen_left_handed(p, m);
    assert forall|j: int| 0 <= j < n && j != 0 implies under(s[0], #[trigger] s[j]) by {
        lemma_seen_at(p, m, 0);
        lemma_seen_at(p, m, j);
    }
    let l = if k >= m {
        k - m
    } else {
        k - m + n
    };
    lemma_seen_at(p, m, l);
    let j = lemma_ear_from_lowest(s, l);
    lemma_seen_ear(p, m, j);
    lemma_seen_at(p, m, j);
    place(j, m, n)
}

/// The case of a ring seen from its lowest corner.
proof fn lemma_ear_from_lowest(p: Seq<(int, int)>, k: int) -> (i: int)
    requires
        left_handed(p),
        lowest(p, 0),
        0 <= k < p.len(),
    ensures
        0 <= i < p.len(),
        i != k,
        i != after(k, p.len() as int),
        ear(p, i),
    decreases p.len(), 1int,
{
    let n = p.len() as int;
    let (a, b, c) = (p[n - 1], p[0], p[1]);
    assert(prev(p, 0) == a && next(p, 0) == c);
    lemma_lowest_turn(p, 0);
    lemma_tri(a, b, c);
    if n == 3 {
        before(k, n)
    } else {
        let j = lemma_has_foremost(p, n - 1);
        if j == 0 {
            if k != 0 && k != n - 1 {
                0
            } else {
                lemma_cut(p);
                let d = p.drop_first();
                let i = lemma_has_ear(d, n - 2);
                lemma_ear_kept(p, i);
                i + 1
            }
        } else {
            assert(foremost(p, 0, p[j]));
            lemma_facing(p, j);
            if k < j {
                lemma_late_ear(p, j)
            } else {
                lemma_early_ear(p, j)
            }
        }
    }
}

/// An ear of what is left when an ear at the lowest corner is cut off.
proof fn lemma_ear_kept(p: Seq<(int, int)>, i: int)
    requires
        left_handed(p),
        left_handed(p.drop_first()),
        lowest(p, 0),
        p.len() >= 4,
        tri(p[p.len() - 1], p[0], p[1]) > 0,
        1 <= i < p.len() - 2,
        ear(p.drop_first(), i),
    ensures
        ear(p, i + 1),
{
    let n = p.len() as int;
    let d = p.drop_first();
    let b = p[0];
    let (x, e, y) = (p[i], p[i + 1], next(p, i + 1));
    assert(prev(d, i) == x && d[i] == e && next(d, i) == y && prev(p, i + 1) == x);
    assert forall|k: int|
        0 <= k < n && k != i + 1 && k != after(i + 1, n) && k != before(i + 1, n) implies !inside(
        x,
        e,
        y,
        #[trigger] p[k],
    ) by {
        if k > 0 {
            assert(d[k - 1] == p[k]);
        } else if inside(x, e, y, b) {
            assert forall|m: int| 0 <= m < d.len() implies !on(
                #[trigger] d[m],
                next(d, m),
                b,
            ) by {
                assert(d[m] == p[m + 1]);
                if m < n - 2 {
                    assert(next(d, m) == next(p, m + 1));
                    assert(off_edge(p, m + 1, 0));
                } else {
                    lemma_tri(p[n - 1], p[0], p[1]);
                }
            }
            lemma_in_ear(d, i, b);
            lemma_below(d, b, d.len() as int);
        }
    }
}

/// An ear in the early part.
#[verifier::spinoff_prover]
proof fn lemma_early_ear(p: Seq<(int, int)>, j: int) -> (i: int)
    requires
        left_handed(p),
        lowest(p, 0),
        facing(p, j),
        ahead(p, 0, p[j]),
    ensures
        1 <= i < j,
        ear(p, i),
    decreases p.len(), 0int,
{
    let n = p.len() as int;
    let e = early(p, j);
    let z = p[j];
    assert(prev(p, 0) == p[n - 1] && next(p, 0) == p[1]);
    lemma_early_simple(p, j);
    assert(lowest(e, 0)) by {
        assert forall|k: int| 0 <= k < e.len() && k != 0 implies under(e[0], #[trigger] e[k]) by {
            assert(e[k] == p[k]);
        }
    }
    assert(prev(e, 0) == z && e[0] == p[0] && next(e, 0) == p[1]);
    lemma_tri(z, p[0], p[1]);
    lemma_lowest_turn(e, 0);
    let i = lemma_has_ear(e, j);
    assert(1 <= i < j);
    assert(prev(e, i) == prev(p, i) && e[i] == p[i] && next(e, i) == next(p, i));
    assert forall|k: int| 0 <= k < n && k != i && k != after(i, n) && k != before(
        i,
        n,
    ) implies !inside(prev(p, i), p[i], next(p, i), #[trigger] p[k]) by {
        if k <= j {
            assert(e[k] == p[k]);
        } else if inside(prev(p, i), p[i], next(p, i), p[k]) {
            assert forall|m: int| 0 <= m < e.len() implies !on(
                #[trigger] e[m],
                next(e, m),
                p[k],
            ) by {
                assert(e[m] == p[m]);
                if m < j {
                    assert(next(e, m) == next(p, m));
                    assert(off_edge(p, m, k));
                } else {
                    assert(next(e, m) == p[0]);
                    assert(!on(p[0], z, p[k]));
                    lemma_tri(p[0], z, p[k]);
                }
            }
            lemma_in_ear(e, i, p[k]);
            lemma_early_winding(p, j, k);
        }
    }
    i
}

/// An ear in the late part.
#[verifier::spinoff_prover]
proof fn lemma_late_ear(p: Seq<(int, int)>, j: int) -> (i: int)
    requires
        left_handed(p),
        lowest(p, 0),
        facing(p, j),
        ahead(p, 0, p[j]),
    ensures
        j < i < p.len(),
        ear(p, i),
    decreases p.len(), 0int,
{
    let n = p.len() as int;
    let l = late(p, j);
    let s = n - j + 1;
    let z = p[j];
    lemma_late_at(p, j, 1);
    assert(prev(p, 0) == p[n - 1] && next(p, 0) == p[1]);
    lemma_late_simple(p, j);
    assert(lowest(l, 0)) by {
        assert forall|k: int| 0 <= k < s && k != 0 implies under(l[0], #[trigger] l[k]) by {
            lemma_late_at(p, j, k);
        }
    }
    lemma_lowest_turn(l, 0);
    let t = lemma_has_ear(l, 0);
    assert(2 <= t < s);
    let i = j + t - 1;
    lemma_late_at(p, j, t);
    assert forall|k: int| 0 <= k < n && k != i && k != after(i, n) && k != before(
        i,
        n,
    ) implies !inside(prev(p, i), p[i], next(p, i), #[trigger] p[k]) by {
        if k == 0 {
            assert(!inside(prev(l, t), l[t], next(l, t), l[0]));
        } else if k >= j {
            lemma_late_at(p, j, k - j + 1);
            assert(!inside(prev(l, t), l[t], next(l, t), l[k - j + 1]));
        } else if inside(prev(p, i), p[i], next(p, i), p[k]) {
            assert forall|m: int| 0 <= m < s implies !on(#[trigger] l[m], next(l, m), p[k]) by {
                if m > 0 {
                    lemma_late_at(p, j, m);
                    assert(off_edge(p, j + m - 1, k));
                } else {
                    assert(!on(p[0], z, p[k]));
                }
            }
            lemma_in_ear(l, t, p[k]);
            lemma_late_winding(p, j, k);
        }
    }
    i
}

// ---------------------------------------------------------------------------------------------
// Obstacles
// ---------------------------------------------------------------------------------------------
/// The neighbour of a foremost corner in the triangle at the first one is not further from the
/// side opposite.
proof fn lemma_neighbour_behind(p: Seq<(int, int)>, j: int, m: int)
    requires
        simple(p),
        2 <= j < p.len() - 1,
        m == j + 1 || m == j - 1,
        ahead(p, 0, p[j]),
        foremost(p, 0, p[j]),
    ensures
        tri(p[1], p[p.len() - 1], p[m]) <= tri(p[1], p[p.len() - 1], p[j]),
{
    let n = p.len() as int;
    let (a, b, c, z) = (p[n - 1], p[0], p[1], p[j]);
    let v = p[m];
    assert(prev(p, 0) == a && next(p, 0) == c && next(p, n - 1) == b);
    lemma_tri(c, a, a);
    lemma_tri(c, a, c);
    if tri(c, a, v) > tri(c, a, z) {
        assert(m != 1 && m != n - 1 && m != 0);
        assert(!inside(a, b, c, p[m]));
        assert(1 * tri(a, b, z) + 0 * tri(a, b, v) == tri(a, b, z));
        assert(1 * tri(b, c, z) + 0 * tri(b, c, v) == tri(b, c, z));
        assert(1 * tri(c, a, z) + 0 * tri(c, a, v) == tri(c, a, z));
        lemma_pasch(a, b, c, z, v, 1, 0);
        let k = if m == j + 1 {
            j
        } else {
            m
        };
        assert(next(p, k) == p[k + 1]);
        lemma_edges_apart(p, k, n - 1);
        lemma_edges_apart(p, k, 0);
        lemma_apart_swapped(p[k], p[k + 1], a, b);
        lemma_apart_swapped(p[k], p[k + 1], b, c);
    }
}

/// A foremost corner in the triangle at the first one does not turn left.
proof fn lemma_foremost_turn(p: Seq<(int, int)>, j: int)
    requires
        left_handed(p),
        facing(p, j),
        ahead(p, 0, p[j]),
        foremost(p, 0, p[j]),
    ensures
        tri(prev(p, j), p[j], next(p, j)) <= 0,
{
    let n = p.len() as int;
    let (a, b, c, z) = (p[n - 1], p[0], p[1], p[j]);
    let (x, y) = (p[j - 1], p[j + 1]);
    assert(prev(p, 0) == a && next(p, 0) == c);
    assert(prev(p, j) == x && next(p, j) == y);
    if tri(x, z, y) > 0 {
        lemma_corners_differ(p, 0, j);
        assert(before(0, n) == n - 1 && before(j, n) == j - 1);
        lemma_diagonal(p, 0, j);
        lemma_tri(a, b, z);
        lemma_tri(b, z, a);
        lemma_in_angle(p, 0, z);
        lemma_left_along(p, j);
        let f = side(c, a);
        lemma_neighbour_behind(p, j, j - 1);
        lemma_neighbour_behind(p, j, j + 1);
        lemma_side(c, a, x);
        lemma_side(c, a, y);
        lemma_side(c, a, z);
        lemma_side(c, a, b);
        lemma_sum(a, b, c, z);
        lemma_tri(a, b, c);
        lemma_four(f, z, y, x, b);
        lemma_tri(x, z, y);
        lemma_tri(z, x, b);
        let d = tri(c, a, z);
        lemma_balance_at(
            tri(y, x, b),
            tri(z, x, b),
            tri(z, y, b),
            tri(z, y, x),
            d,
            tri(c, a, y),
            tri(c, a, x),
            tri(c, a, b),
            d,
        );
        lemma_signs(tri(y, x, b), d - d);
        lemma_signs(tri(z, x, b), tri(c, a, y) - d);
        lemma_signs(tri(z, y, b), tri(c, a, x) - d);
        lemma_signs(tri(z, y, x), tri(c, a, b) - d);
        lemma_off_angle(p, j, b);
    }
}

/// Where the ring turns left at its first corner and that is no ear, there is a corner in the
/// triangle at which the ring does not turn left.
pub proof fn lemma_has_obstacle(p: Seq<(int, int)>) -> (j: int)
    requires
        left_handed(p),
        p.len() >= 4,
        tri(p[p.len() - 1], p[0], p[1]) > 0,
        !ear(p, 0),
    ensures
        2 <= j < p.len() - 1,
        inside(p[p.len() - 1], p[0], p[1], p[j]),
        tri(p[j - 1], p[j], p[j + 1]) <= 0,
{
    let n = p.len() as int;
    let (a, b, c) = (p[n - 1], p[0], p[1]);
    assert(prev(p, 0) == a && next(p, 0) == c);
    let j = lemma_has_foremost(p, n - 1);
    assert(j != 0);
    assert(foremost(p, 0, p[j]));
    lemma_facing(p, j);
    lemma_foremost_turn(p, j);
    assert(prev(p, j) == p[j - 1] && next(p, j) == p[j + 1]);
    j
}

// ---------------------------------------------------------------------------------------------
// Running backwards
// ---------------------------------------------------------------------------------------------
/// Corners and edges of a ring run backwards.
pub(crate) proof fn lemma_reversed_at(p: Seq<(int, int)>, k: int)
    requires
        0 <= k < p.len(),
    ensures
        p.reverse().len() == p.len(),
        p.reverse()[k] == p[p.len() - 1 - k],
        next(p.reverse(), k) == prev(p, p.len() - 1 - k),
        prev(p.reverse(), k) == next(p, p.len() - 1 - k),
        next(p, before(p.len() - 1 - k, p.len() as int)) == p[p.len() - 1 - k],
{
}

/// A simple ring is simple if it is run backwards.
pub(crate) proof fn lemma_reversed_simple(p: Seq<(int, int)>)
    requires
        simple(p),
    ensures
        simple(p.reverse()),
{
    let n = p.len() as int;
    let s = p.reverse();
    assert forall|i: int, k: int|
        0 <= i < n && 0 <= k < n && k != i && k != after(i, n) implies #[trigger] off_edge(
        s,
        i,
        k,
    ) by {
        lemma_reversed_at(p, i);
        lemma_reversed_at(p, k);
        let j = before(n - 1 - i, n);
        assert(off_edge(p, j, n - 1 - k));
        lemma_tri(p[j], next(p, j), p[n - 1 - k]);
    }
    assert forall|i: int, k: int|
        0 <= i < n && 0 <= k < n && i != k && k != after(i, n) && i != after(
            k,
            n,
        ) implies #[trigger] uncrossing(s, i, k) by {
        lemma_reversed_at(p, i);
        lemma_reversed_at(p, k);
        let (j, l) = (before(n - 1 - i, n), before(n - 1 - k, n));
        lemma_edges_apart(p, j, l);
        let (u, v, q, w) = (p[j], next(p, j), p[l], next(p, l));
        lemma_apart_swapped(u, v, q, w);
        lemma_apart_swapped(v, u, q, w);
    }
}

/// A simple ring runs counterclockwise, or does so backwards.
pub proof fn lemma_either_way(p: Seq<(int, int)>)
    requires
        simple(p),
    ensures
        left_handed(p) != left_handed(p.reverse()),
{
    let n = p.len() as int;
    let s = p.reverse();
    lemma_reversed_simple(p);
    let m = lemma_has_lowest(p, n);
    let l = n - 1 - m;
    lemma_reversed_at(p, l);
    assert forall|k: int| 0 <= k < n && k != l implies under(s[l], #[trigger] s[k]) by {
        lemma_reversed_at(p, k);
        assert(under(p[m], p[n - 1 - k]));
    }
    lemma_lowest_turn(p, m);
    lemma_lowest_turn(s, l);
    lemma_tri(prev(p, m), p[m], next(p, m));
}

} // verus!
