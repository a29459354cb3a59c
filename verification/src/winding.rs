//! How often rings of points run around a point.
use vstd::prelude::*;
use crate::areas::tri;
use crate::model::{after, before};
use crate::segments::{
    affine, apart, astride, height, lemma_apart, lemma_balance_at, lemma_four, lemma_height,
    lemma_signs, lemma_tri, spread_of, under,
};

verus! {

/// Whether the edge from `u` to `v` passes the ray from `q` to the right: `1` if it does so
/// upwards, `-1` if downwards.
pub open spec fn passes(u: (int, int), v: (int, int), q: (int, int)) -> int {
    if !under(q, u) && under(q, v) && tri(u, v, q) > 0 {
        1
    } else if !under(q, v) && under(q, u) && tri(u, v, q) < 0 {
        -1
    } else {
        0
    }
}

/// Whether a point lies to the right of the segment from `q` up to `w`.
pub(crate) open spec fn beside(q: (int, int), w: (int, int), p: (int, int)) -> int {
    if !under(p, q) && under(p, w) && tri(q, w, p) < 0 {
        1
    } else {
        0
    }
}

/// How the passings of an edge differ between the rays from `q` and `w`, apart from where the
/// edge starts and ends.
pub(crate) open spec fn change(
    u: (int, int),
    v: (int, int),
    q: (int, int),
    w: (int, int),
) -> int {
    passes(u, v, q) - passes(u, v, w) - (beside(q, w, v) - beside(q, w, u))
}

/// The signs of the triangles of two segments, with the heights of their ends.
proof fn lemma_weights(
    o1: int,
    o2: int,
    o3: int,
    o4: int,
    hu: int,
    hv: int,
    hq: int,
    hw: int,
)
    requires
        o4 - o3 + o2 - o1 == 0,
        o4 * hu - o3 * hv + o2 * hq - o1 * hw == 0,
        hq < hw,
        !(astride(o1, o2) && astride(o3, o4)),
        hu <= hv,
    ensures
        hq <= hu && hv < hw ==> (o3 < 0 <==> o4 < 0),
        hu < hq && hq <= hv && hv < hw ==> (o1 > 0 <==> o4 < 0),
        hq <= hu && hu < hw && hw <= hv ==> (o2 > 0 <==> o3 < 0),
        hu < hq && hw <= hv ==> (o1 > 0 <==> o2 > 0),
{
    lemma_balance_at(o4, o3, o2, o1, hu, hv, hq, hw, hq);
    lemma_balance_at(o4, o3, o2, o1, hu, hv, hq, hw, hw);
    lemma_signs(o4, hu - hq);
    lemma_signs(o3, hv - hq);
    lemma_signs(o1, hw - hq);
    lemma_signs(o4, hu - hw);
    lemma_signs(o3, hv - hw);
    lemma_signs(o2, hq - hw);
    lemma_signs(o2, hq - hq);
    lemma_signs(o1, hw - hw);
}

/// An edge that is apart from the segment between two points passes their rays alike, but for
/// where it starts and ends.
pub(crate) proof fn lemma_change(u: (int, int), v: (int, int), q: (int, int), w: (int, int))
    requires
        under(q, w),
        apart(u, v, q, w),
    ensures
        change(u, v, q, w) == 0,
{
    lemma_tri(u, v, q);
    lemma_tri(u, v, w);
    lemma_tri(q, w, u);
    lemma_tri(q, w, v);
    lemma_tri(u, q, w);
    lemma_tri(v, q, w);
    let k = spread_of(u, v, q, w);
    lemma_height(k, u, v);
    lemma_height(k, v, u);
    let h = height(k);
    if affine(h, u) <= affine(h, v) {
        lemma_change_up(u, v, q, w);
    } else {
        lemma_apart_swapped(u, v, q, w);
        lemma_change_up(v, u, q, w);
        lemma_passes_back(u, v, q);
        lemma_passes_back(u, v, w);
    }
}

/// Being apart does not depend on the direction.
pub(crate) proof fn lemma_apart_swapped(
    u: (int, int),
    v: (int, int),
    q: (int, int),
    w: (int, int),
)
    ensures
        apart(u, v, q, w) == apart(v, u, q, w),
        apart(u, v, q, w) == apart(q, w, u, v),
        apart(u, v, q, w) == apart(u, v, w, q),
{
    lemma_tri(u, v, q);
    lemma_tri(u, v, w);
    lemma_tri(q, w, u);
    lemma_tri(q, w, v);
}

/// Running an edge backwards passes rays the other way.
pub(crate) proof fn lemma_passes_back(u: (int, int), v: (int, int), q: (int, int))
    ensures
        passes(v, u, q) == -passes(u, v, q),
        passes(u, v, u) == 0,
        passes(u, v, v) == 0,
{
    lemma_tri(u, v, q);
    lemma_tri(u, v, u);
    lemma_tri(u, v, v);
}

/// The case of an edge that does not run downwards.
proof fn lemma_change_up(u: (int, int), v: (int, int), q: (int, int), w: (int, int))
    requires
        under(q, w),
        apart(u, v, q, w),
        !under(v, u),
    ensures
        change(u, v, q, w) == 0,
{
    let (o1, o2, o3, o4) = (tri(u, v, q), tri(u, v, w), tri(q, w, u), tri(q, w, v));
    let k = spread_of(u, v, q, w);
    let h = height(k);
    let (hu, hv, hq, hw) = (affine(h, u), affine(h, v), affine(h, q), affine(h, w));
    lemma_four(h, u, v, q, w);
    lemma_tri(u, q, w);
    lemma_tri(v, q, w);
    lemma_tri(u, v, u);
    lemma_tri(u, v, v);
    lemma_height(k, q, w);
    lemma_height(k, w, q);
    lemma_height(k, u, q);
    lemma_height(k, q, u);
    lemma_height(k, u, w);
    lemma_height(k, w, u);
    lemma_height(k, v, q);
    lemma_height(k, q, v);
    lemma_height(k, v, w);
    lemma_height(k, w, v);
    lemma_height(k, v, u);
    if o1 != 0 || o2 != 0 {
        lemma_apart(u, v, q, w);
        lemma_weights(o1, o2, o3, o4, hu, hv, hq, hw);
    } else {
        assert(o3 == o4);
        assert(o3 * (hu - hv) == 0) by (nonlinear_arith)
            requires
                o4 * hu - o3 * hv + o2 * hq - o1 * hw == 0,
                o1 == 0,
                o2 == 0,
                o3 == o4,
        ;
        lemma_signs(o3, hu - hv);
    }
}

// ---------------------------------------------------------------------------------------------
// Rings
// ---------------------------------------------------------------------------------------------
/// The corner of a ring after the one at place `k`.
pub open spec fn next(p: Seq<(int, int)>, k: int) -> (int, int) {
    p[after(k, p.len() as int)]
}

/// The corner of a ring before the one at place `k`.
pub open spec fn prev(p: Seq<(int, int)>, k: int) -> (int, int) {
    p[before(k, p.len() as int)]
}

/// How often the first `k` edges of a ring pass the ray from `q`, those downwards taken off.
pub open spec fn passings(p: Seq<(int, int)>, q: (int, int), k: int) -> int
    decreases k,
{
    if k <= 0 {
        0
    } else {
        passings(p, q, k - 1) + passes(p[k - 1], next(p, k - 1), q)
    }
}

/// How often a ring runs around a point that is not on it, counterclockwise.
pub open spec fn winding(p: Seq<(int, int)>, q: (int, int)) -> int {
    passings(p, q, p.len() as int)
}

/// The changes of the first `k` edges of a ring.
pub(crate) open spec fn changes(p: Seq<(int, int)>, q: (int, int), w: (int, int), k: int) -> int
    decreases k,
{
    if k <= 0 {
        0
    } else {
        changes(p, q, w, k - 1) + change(p[k - 1], next(p, k - 1), q, w)
    }
}

/// The change of the edge at place `i` if it is one of the first `k`.
spec fn change_at(p: Seq<(int, int)>, q: (int, int), w: (int, int), k: int, i: int) -> int {
    if 0 <= i < k {
        change(p[i], next(p, i), q, w)
    } else {
        0
    }
}

/// Passings differ by the changes, and by where the path starts and ends.
pub(crate) proof fn lemma_passings(p: Seq<(int, int)>, q: (int, int), w: (int, int), k: int)
    requires
        0 <= k <= p.len(),
        p.len() > 0,
    ensures
        passings(p, q, k) - passings(p, w, k) == changes(p, q, w, k) + beside(
            q,
            w,
            if k < p.len() {
                p[k]
            } else {
                p[0]
            },
        ) - beside(q, w, p[0]),
    decreases k,
{
    if k > 0 {
        lemma_passings(p, q, w, k - 1);
    }
}

/// The changes of the first `k` edges where all but four have none.
proof fn lemma_few_changes(
    p: Seq<(int, int)>,
    q: (int, int),
    w: (int, int),
    k: int,
    a: int,
    b: int,
    c: int,
    d: int,
)
    requires
        0 <= k <= p.len(),
        a != b,
        a != c,
        a != d,
        b != c,
        b != d,
        c != d,
        forall|i: int|
            0 <= i < p.len() && i != a && i != b && i != c && i != d ==> #[trigger] change_at(
                p,
                q,
                w,
                p.len() as int,
                i,
            ) == 0,
    ensures
        changes(p, q, w, k) == change_at(p, q, w, k, a) + change_at(p, q, w, k, b) + change_at(
            p,
            q,
            w,
            k,
            c,
        ) + change_at(p, q, w, k, d),
    decreases k,
{
    if k > 0 {
        lemma_few_changes(p, q, w, k - 1, a, b, c, d);
        assert(k - 1 != a && k - 1 != b && k - 1 != c && k - 1 != d ==> change_at(
            p,
            q,
            w,
            p.len() as int,
            k - 1,
        ) == 0);
    }
}

/// How two windings differ where all edges but four are apart from the segment between.
proof fn lemma_windings(
    p: Seq<(int, int)>,
    q: (int, int),
    w: (int, int),
    a: int,
    b: int,
    c: int,
    d: int,
)
    requires
        p.len() > 0,
        under(q, w),
        a != b,
        a != c,
        a != d,
        b != c,
        b != d,
        c != d,
        forall|i: int|
            0 <= i < p.len() && i != a && i != b && i != c && i != d ==> apart(
                #[trigger] p[i],
                next(p, i),
                q,
                w,
            ),
    ensures
        winding(p, q) - winding(p, w) == change_at(p, q, w, p.len() as int, a) + change_at(
            p,
            q,
            w,
            p.len() as int,
            b,
        ) + change_at(p, q, w, p.len() as int, c) + change_at(p, q, w, p.len() as int, d),
{
    let n = p.len() as int;
    assert forall|i: int|
        0 <= i < p.len() && i != a && i != b && i != c && i != d implies #[trigger] change_at(
        p,
        q,
        w,
        n,
        i,
    ) == 0 by {
        assert(apart(p[i], next(p, i), q, w));
        lemma_change(p[i], next(p, i), q, w);
    }
    lemma_passings(p, q, w, n);
    lemma_few_changes(p, q, w, n, a, b, c, d);
}

/// A ring runs around two points alike if it is apart from the segment between them.
pub proof fn lemma_along(p: Seq<(int, int)>, q: (int, int), w: (int, int))
    requires
        p.len() > 0,
        forall|i: int| 0 <= i < p.len() ==> apart(#[trigger] p[i], next(p, i), q, w),
    ensures
        winding(p, q) == winding(p, w),
{
    if under(q, w) {
        lemma_windings(p, q, w, -1, -2, -3, -4);
    } else if under(w, q) {
        assert forall|i: int| 0 <= i < p.len() implies apart(#[trigger] p[i], next(p, i), w, q) by {
            lemma_apart_swapped(p[i], next(p, i), q, w);
        }
        lemma_windings(p, w, q, -1, -2, -3, -4);
    }
}

/// What the edge from `v` to `r` adds to the winding around a point near `v` in the direction of
/// `d`, compared to that around `v`.
pub open spec fn wedge(v: (int, int), d: (int, int), r: (int, int)) -> int {
    if under(v, d) {
        if under(v, r) && tri(v, d, r) < 0 {
            1
        } else {
            0
        }
    } else {
        if under(r, v) && tri(v, d, r) > 0 {
            -1
        } else {
            0
        }
    }
}

/// The winding around points near the corner at place `i`, in the direction of `d`.
pub open spec fn near(p: Seq<(int, int)>, i: int, d: (int, int)) -> int {
    winding(p, p[i]) + wedge(p[i], d, next(p, i)) - wedge(p[i], d, prev(p, i))
}

/// The change of an edge that starts at one end of the segment.
pub(crate) proof fn lemma_wedge(v: (int, int), d: (int, int), r: (int, int))
    ensures
        under(v, d) ==> change(v, r, v, d) == -wedge(v, d, r) && change(r, v, v, d) == wedge(
            v,
            d,
            r,
        ),
        under(d, v) ==> change(v, r, d, v) == wedge(v, d, r) && change(r, v, d, v) == -wedge(
            v,
            d,
            r,
        ),
{
    lemma_passes_back(v, r, v);
    lemma_passes_back(v, r, d);
    lemma_tri(v, d, r);
    lemma_tri(v, r, d);
    lemma_tri(v, d, v);
    lemma_tri(d, v, v);
    lemma_tri(d, v, r);
}

/// The winding around a point that is seen from a corner of the ring.
pub(crate) proof fn lemma_seen(p: Seq<(int, int)>, i: int, q: (int, int))
    requires
        p.len() >= 3,
        0 <= i < p.len(),
        q != p[i],
        forall|k: int|
            0 <= k < p.len() && k != i && k != before(i, p.len() as int) ==> apart(
                #[trigger] p[k],
                next(p, k),
                p[i],
                q,
            ),
    ensures
        winding(p, q) == near(p, i, q),
{
    let n = p.len() as int;
    let v = p[i];
    let b = before(i, n);
    assert(next(p, b) == v);
    lemma_wedge(v, q, next(p, i));
    lemma_wedge(v, q, prev(p, i));
    if under(v, q) {
        lemma_windings(p, v, q, i, b, -1, -2);
    } else {
        assert forall|k: int| 0 <= k < n && k != i && k != b implies apart(
            #[trigger] p[k],
            next(p, k),
            q,
            v,
        ) by {
            lemma_apart_swapped(p[k], next(p, k), v, q);
        }
        lemma_windings(p, q, v, i, b, -1, -2);
    }
}

/// The windings near two corners that see each other, in the direction of the other.
pub(crate) proof fn lemma_diagonal(p: Seq<(int, int)>, i: int, j: int)
    requires
        p.len() >= 3,
        0 <= i < p.len(),
        0 <= j < p.len(),
        p[i] != p[j],
        i != before(j, p.len() as int),
        j != before(i, p.len() as int),
        forall|k: int|
            0 <= k < p.len() && k != i && k != before(i, p.len() as int) && k != j && k != before(
                j,
                p.len() as int,
            ) ==> apart(#[trigger] p[k], next(p, k), p[i], p[j]),
    ensures
        near(p, i, p[j]) == near(p, j, p[i]),
{
    let n = p.len() as int;
    let v = p[i];
    let w = p[j];
    let b = before(i, n);
    let c = before(j, n);
    assert(next(p, b) == v && next(p, c) == w);
    lemma_wedge(v, w, next(p, i));
    lemma_wedge(v, w, prev(p, i));
    lemma_wedge(w, v, next(p, j));
    lemma_wedge(w, v, prev(p, j));
    if under(v, w) {
        lemma_windings(p, v, w, i, b, j, c);
    } else {
        assert forall|k: int| 0 <= k < n && k != i && k != b && k != j && k != c implies apart(
            #[trigger] p[k],
            next(p, k),
            w,
            v,
        ) by {
            lemma_apart_swapped(p[k], next(p, k), v, w);
        }
        lemma_windings(p, w, v, i, b, j, c);
    }
}

/// The winding around points to the left of the edge at place `i`.
pub open spec fn winding_left(p: Seq<(int, int)>, i: int) -> int {
    near(p, i, next(p, i)) + if under(p[i], next(p, i)) {
        1int
    } else {
        0
    }
}

/// The winding to the left of an edge and of the next one is the same.
pub(crate) proof fn lemma_left(p: Seq<(int, int)>, i: int)
    requires
        p.len() >= 3,
        0 <= i < p.len(),
        ({
            let v = p[i];
            let w = next(p, i);
            let x = next(p, after(i, p.len() as int));
            v != w && w != x && !(tri(v, w, x) == 0 && under(v, w) == under(x, w))
        }),
        forall|k: int|
            0 <= k < p.len() && k != i && k != before(i, p.len() as int) && k != after(
                i,
                p.len() as int,
            ) ==> apart(#[trigger] p[k], next(p, k), p[i], next(p, i)),
    ensures
        winding_left(p, after(i, p.len() as int)) == winding_left(p, i),
{
    let n = p.len() as int;
    let j = after(i, n);
    let b = before(i, n);
    let v = p[i];
    let w = p[j];
    let x = next(p, j);
    assert(next(p, b) == v && before(j, n) == i);
    lemma_wedge(v, w, w);
    lemma_wedge(v, w, prev(p, i));
    lemma_wedge(w, v, x);
    lemma_tri(v, w, w);
    lemma_tri(v, w, x);
    lemma_tri(w, x, x);
    lemma_tri(w, v, x);
    lemma_tri(w, x, v);
    if under(v, w) {
        lemma_windings(p, v, w, i, b, j, -1);
    } else {
        assert forall|k: int| 0 <= k < n && k != i && k != b && k != j implies apart(
            #[trigger] p[k],
            next(p, k),
            w,
            v,
        ) by {
            lemma_apart_swapped(p[k], next(p, k), v, w);
        }
        lemma_windings(p, w, v, i, b, j, -1);
    }
}

// ---------------------------------------------------------------------------------------------
// Angles
// ---------------------------------------------------------------------------------------------
/// The point lies in the triangle, which runs counterclockwise, or on its sides.
pub open spec fn inside(a: (int, int), b: (int, int), c: (int, int), p: (int, int)) -> bool {
    tri(a, b, p) >= 0 && tri(b, c, p) >= 0 && tri(c, a, p) >= 0
}

/// The heights of three points above a fourth, weighted by its triangles with two of them.
proof fn lemma_heights(v: (int, int), n: (int, int), p: (int, int), d: (int, int))
    ensures
        ({
            let k = spread_of(v, n, p, d);
            let h = height(k);
            let (x, y, z) = (
                affine(h, n) - affine(h, v),
                affine(h, p) - affine(h, v),
                affine(h, d) - affine(h, v),
            );
            &&& tri(v, n, p) * z == tri(v, d, p) * x + tri(v, n, d) * y
            &&& under(v, n) <==> x > 0
            &&& under(n, v) <==> x < 0
            &&& under(v, p) <==> y > 0
            &&& under(p, v) <==> y < 0
            &&& under(v, d) <==> z > 0
            &&& under(d, v) <==> z < 0
        }),
{
    let k = spread_of(v, n, p, d);
    let h = height(k);
    lemma_four(h, v, n, p, d);
    lemma_balance_at(
        tri(n, p, d),
        tri(v, p, d),
        tri(v, n, d),
        tri(v, n, p),
        affine(h, v),
        affine(h, n),
        affine(h, p),
        affine(h, d),
        affine(h, v),
    );
    lemma_tri(v, p, d);
    lemma_signs(tri(n, p, d), affine(h, v) - affine(h, v));
    lemma_signs(tri(v, d, p), affine(h, n) - affine(h, v));
    lemma_height(k, v, n);
    lemma_height(k, n, v);
    lemma_height(k, v, p);
    lemma_height(k, p, v);
    lemma_height(k, v, d);
    lemma_height(k, d, v);
}

/// In the angle of a corner at which the ring turns left, the winding is that to the left of the
/// next edge.
pub(crate) proof fn lemma_in_angle(p: Seq<(int, int)>, i: int, d: (int, int))
    requires
        p.len() >= 3,
        0 <= i < p.len(),
        tri(prev(p, i), p[i], next(p, i)) > 0,
        tri(p[i], next(p, i), d) > 0,
        tri(p[i], d, prev(p, i)) > 0,
    ensures
        near(p, i, d) == winding_left(p, i),
{
    let (v, n, q) = (p[i], next(p, i), prev(p, i));
    lemma_tri(q, v, n);
    lemma_tri(v, n, d);
    lemma_tri(v, n, n);
    lemma_tri(v, d, q);
    lemma_tri(v, n, q);
    lemma_heights(v, n, q, d);
    let k = spread_of(v, n, q, d);
    let h = height(k);
    lemma_signs(tri(v, n, q), affine(h, d) - affine(h, v));
    lemma_signs(tri(v, d, q), affine(h, n) - affine(h, v));
    lemma_signs(tri(v, n, d), affine(h, q) - affine(h, v));
    lemma_tri(v, d, d);
    lemma_tri(v, v, d);
    assert(d != v);
    assert(v != n && v != q);
}

/// Outside the angle of a corner at which the ring turns left, the winding is one less than that
/// to the left of the next edge.
pub(crate) proof fn lemma_off_angle(p: Seq<(int, int)>, i: int, d: (int, int))
    requires
        p.len() >= 3,
        0 <= i < p.len(),
        tri(prev(p, i), p[i], next(p, i)) > 0,
        d != p[i],
        tri(p[i], next(p, i), d) < 0 || tri(p[i], d, prev(p, i)) < 0,
    ensures
        near(p, i, d) == winding_left(p, i) - 1,
{
    let (v, n, q) = (p[i], next(p, i), prev(p, i));
    lemma_tri(q, v, n);
    lemma_tri(v, n, d);
    lemma_tri(v, n, n);
    lemma_tri(v, d, q);
    lemma_tri(v, n, q);
    lemma_heights(v, n, q, d);
    let k = spread_of(v, n, q, d);
    let h = height(k);
    lemma_signs(tri(v, n, q), affine(h, d) - affine(h, v));
    lemma_signs(tri(v, d, q), affine(h, n) - affine(h, v));
    lemma_signs(tri(v, n, d), affine(h, q) - affine(h, v));
    lemma_heights(v, n, d, q);
    let k2 = spread_of(v, n, d, q);
    let h2 = height(k2);
    lemma_signs(tri(v, n, d), affine(h2, q) - affine(h2, v));
    lemma_signs(tri(v, q, d), affine(h2, n) - affine(h2, v));
    lemma_signs(tri(v, n, q), affine(h2, d) - affine(h2, v));
    assert(v != n && v != q);
}

/// A triangle does not run around a point outside.
pub(crate) proof fn lemma_outside(a: (int, int), b: (int, int), c: (int, int), z: (int, int))
    requires
        tri(a, b, c) > 0,
        !inside(a, b, c, z),
    ensures
        passes(a, b, z) + passes(b, c, z) + passes(c, a, z) == 0,
{
    let k = spread_of(a, b, c, z);
    let h = height(k);
    lemma_four(h, a, b, c, z);
    lemma_tri(a, c, z);
    lemma_balance_at(
        tri(b, c, z),
        tri(a, c, z),
        tri(a, b, z),
        tri(a, b, c),
        affine(h, a),
        affine(h, b),
        affine(h, c),
        affine(h, z),
        affine(h, z),
    );
    lemma_signs(tri(b, c, z), affine(h, a) - affine(h, z));
    lemma_signs(tri(c, a, z), affine(h, b) - affine(h, z));
    lemma_signs(tri(a, b, z), affine(h, c) - affine(h, z));
    lemma_signs(tri(a, b, c), affine(h, z) - affine(h, z));
    lemma_height(k, z, a);
    lemma_height(k, z, b);
    lemma_height(k, z, c);
}

} // verus!
