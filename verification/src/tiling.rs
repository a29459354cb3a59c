//! The triangles of a polygon cover it, and do not overlap.
use vstd::prelude::*;
use crate::areas::{all_left, around, measure, placed, tri, tris_sum, Measure};
use crate::bounds::{in_table, lemma_turned_in};
use crate::geometry::{hashed, Grid};
use crate::model::{before, clippable, clipped, sliced, triangle, turned, Pt};
use crate::polygon_areas::{
    corners, exact_data, lemma_triangulation_sum, net_sum, sliced_completely,
};
use crate::scalar::Scalar;
use crate::segments::{
    affine, height, lemma_balance_at, lemma_four, lemma_height, lemma_signs, lemma_strictly,
    lemma_sum, lemma_tri, on, spread_of,
};
use crate::simple::{
    ear, left_handed, lemma_cut, lemma_cut_passings, lemma_has_ear, lemma_in_ear, lemma_seen_at,
    lemma_seen_ear, lemma_seen_left_handed, seen_at,
};
use crate::simple_polygons::{lemma_clippable, places_found, spots};
use crate::triangulation::{is_flat, triangulation};
use crate::winding::{
    inside, lemma_outside, lemma_passes_back, next, passes, passings, prev, winding,
};

verus! {

/// The point lies in the triangle, whichever way that runs, and not on its sides.
pub open spec fn within_triangle(
    a: (int, int),
    b: (int, int),
    c: (int, int),
    q: (int, int),
) -> bool {
    ||| tri(a, b, q) > 0 && tri(b, c, q) > 0 && tri(c, a, q) > 0
    ||| tri(a, b, q) < 0 && tri(b, c, q) < 0 && tri(c, a, q) < 0
}

/// The point lies on a side of the triangle.
pub open spec fn on_triangle(
    a: (int, int),
    b: (int, int),
    c: (int, int),
    q: (int, int),
) -> bool {
    on(a, b, q) || on(b, c, q) || on(c, a, q)
}

/// In how many of the triangles, vertices three by three, the point lies.
pub open spec fn layers(at: spec_fn(int) -> (int, int), tris: Seq<usize>, q: (int, int)) -> nat
    decreases tris.len(),
{
    if tris.len() < 3 {
        0
    } else {
        layers(at, tris.skip(3), q) + if within_triangle(
            at(tris[0] as int),
            at(tris[1] as int),
            at(tris[2] as int),
            q,
        ) {
            1nat
        } else {
            0
        }
    }
}

/// The point lies on no side of the triangles.
pub open spec fn off_sides(at: spec_fn(int) -> (int, int), tris: Seq<usize>, q: (int, int)) -> bool
    decreases tris.len(),
{
    tris.len() < 3 || (!on_triangle(
        at(tris[0] as int),
        at(tris[1] as int),
        at(tris[2] as int),
        q,
    ) && off_sides(at, tris.skip(3), q))
}

/// A triangle that runs counterclockwise runs once around a point within.
proof fn lemma_around(a: (int, int), b: (int, int), c: (int, int), z: (int, int))
    requires
        tri(a, b, z) > 0,
        tri(b, c, z) > 0,
        tri(c, a, z) > 0,
    ensures
        passes(a, b, z) + passes(b, c, z) + passes(c, a, z) == 1,
{
    let k = spread_of(a, b, c, z);
    let h = height(k);
    lemma_four(h, a, b, c, z);
    lemma_tri(a, c, z);
    lemma_balance_at(
        tri(b, c, z),
        tri(a, c, z),
        tri(a, b, z),
        tri(a, b, c),
        affine(h, a),
        affine(h, b),
        affine(h, c),
        affine(h, z),
        affine(h, z),
    );
    lemma_signs(tri(b, c, z), affine(h, a) - affine(h, z));
    lemma_signs(tri(c, a, z), affine(h, b) - affine(h, z));
    lemma_signs(tri(a, b, z), affine(h, c) - affine(h, z));
    lemma_signs(tri(a, b, c), affine(h, z) - affine(h, z));
    lemma_height(k, z, a);
    lemma_height(k, z, b);
    lemma_height(k, z, c);
    lemma_tri(a, b, b);
    lemma_tri(a, b, a);
    lemma_tri(b, c, c);
}

/// A triangle that runs counterclockwise runs once around a point within, and not around one that
/// is neither within nor on a side.
proof fn lemma_triangle_winding(a: (int, int), b: (int, int), c: (int, int), z: (int, int))
    requires
        tri(a, b, c) > 0,
        !on_triangle(a, b, c, z),
    ensures
        passes(a, b, z) + passes(b, c, z) + passes(c, a, z) == (if within_triangle(a, b, c, z) {
            1int
        } else {
            0
        }),
        within_triangle(a, b, c, z) == inside(a, b, c, z),
{
    lemma_sum(a, b, c, z);
    if inside(a, b, c, z) {
        lemma_strictly(a, b, c, z);
        lemma_tri(a, b, c);
        lemma_strictly(b, c, a, z);
        lemma_around(a, b, c, z);
    } else {
        lemma_outside(a, b, c, z);
    }
}

/// The passings of a ring seen from its next corner.
proof fn lemma_turned_passings(p: Seq<(int, int)>, q: (int, int), k: int)
    requires
        p.len() >= 2,
        0 <= k < p.len(),
    ensures
        passings(seen_at(p, 1), q, k) == passings(p, q, k + 1) - passes(p[0], p[1], q),
    decreases k,
{
    let s = seen_at(p, 1);
    let n = p.len() as int;
    if k > 0 {
        lemma_turned_passings(p, q, k - 1);
        assert(s[k - 1] == p[k]);
        assert(next(s, k - 1) == next(p, k)) by {
            if k == n - 1 {
                assert(s[n - 1] == p[0]);
            } else {
                assert(s[k] == p[k + 1]);
            }
        }
    } else {
        assert(passings(p, q, 0) == 0);
        assert(next(p, 0) == p[1]);
    }
}

/// A ring runs around a point as often, wherever it is seen from.
pub(crate) proof fn lemma_turned_winding(p: Seq<(int, int)>, q: (int, int), m: int)
    requires
        p.len() >= 2,
        0 <= m < p.len(),
    ensures
        winding(seen_at(p, m), q) == winding(p, q),
    decreases m,
{
    let n = p.len() as int;
    if m == 0 {
        assert(seen_at(p, 0) =~= p);
    } else {
        let t = seen_at(p, m - 1);
        let s = seen_at(t, 1);
        assert(s =~= seen_at(p, m));
        lemma_turned_winding(p, q, m - 1);
        lemma_turned_passings(t, q, n - 1);
        assert(s[n - 1] == t[0] && next(s, n - 1) == t[1]);
    }
}

/// The passings of a ring run backwards.
proof fn lemma_reversed_passings(p: Seq<(int, int)>, q: (int, int), k: int)
    requires
        0 <= k < p.len(),
    ensures
        passings(p.reverse(), q, k) == passings(p, q, p.len() - 1 - k) - passings(
            p,
            q,
            p.len() - 1,
        ),
    decreases k,
{
    let n = p.len() as int;
    let s = p.reverse();
    if k > 0 {
        lemma_reversed_passings(p, q, k - 1);
        let j = n - 1 - k;
        assert(s[k - 1] == p[j + 1] && next(s, k - 1) == p[j] && next(p, j) == p[j + 1]);
        lemma_passes_back(p[j], p[j + 1], q);
    }
}

/// Run backwards, a ring runs around a point the other way.
pub(crate) proof fn lemma_reversed_winding(p: Seq<(int, int)>, q: (int, int))
    requires
        p.len() >= 1,
    ensures
        winding(p.reverse(), q) == -winding(p, q),
{
    let n = p.len() as int;
    let s = p.reverse();
    lemma_reversed_passings(p, q, n - 1);
    assert(s[n - 1] == p[0] && next(s, n - 1) == p[n - 1] && next(p, n - 1) == p[0]);
    lemma_passes_back(p[n - 1], p[0], q);
    assert(passings(p, q, 0) == 0);
}

/// What is left of a ring that runs counterclockwise is covered by its triangles, once; none of
/// the last `passed` corners is an ear.
#[verifier::spinoff_prover]
proof fn lemma_clipped_layers<C: Scalar>(
    val: spec_fn(C) -> int,
    at: spec_fn(int) -> (int, int),
    pts: Seq<Pt<C>>,
    r: Seq<int>,
    ord: Seq<int>,
    passed: nat,
    g: Grid<C>,
    q: (int, int),
)
    requires
        places_found(val, pts),
        placed(val, at, pts),
        in_table(r, pts.len() as int),
        r.len() == 2 || left_handed(spots(val, pts, r)),
        passed <= r.len(),
        !hashed(g),
        forall|j: int|
            r.len() - passed <= j < r.len() ==> !#[trigger] ear(spots(val, pts, r), j),
        off_sides(at, clipped(pts, r, ord, passed, false, g).tris, q),
    ensures
        layers(at, clipped(pts, r, ord, passed, false, g).tris, q) == winding(
            spots(val, pts, r),
            q,
        ),
        0 <= winding(spots(val, pts, r), q) <= 1,
        r.len() > 2 ==> forall|k: int|
            0 <= k < r.len() ==> !on(
                #[trigger] spots(val, pts, r)[k],
                next(spots(val, pts, r), k),
                q,
            ),
    decreases r.len(), r.len() - passed,
{
    let n = r.len() as int;
    let p = spots(val, pts, r);
    if n <= 2 {
        lemma_pair_winding(p, q);
    } else {
        lemma_clippable(val, pts, r, ord, g);
        if clippable(pts, r, ord, g) {
            let d = r.drop_first();
            assert forall|k: int| 0 <= k < d.len() implies 0 <= #[trigger] d[k] < pts.len() by {
                assert(d[k] == r[k + 1]);
            }
            assert(spots(val, pts, d) =~= p.drop_first());
            if n >= 4 {
                lemma_cut(p);
            }
            let rest = clipped(pts, d, ord, 0, false, g);
            let first = triangle(pts, r.last(), r[0], r[1]);
            let all = first + rest.tris;
            assert(all.skip(3) =~= rest.tris);
            assert(all == clipped(pts, r, ord, passed, false, g).tris);
            assert(0 <= r[n - 1] < pts.len() && 0 <= r[0] < pts.len() && 0 <= r[1] < pts.len());
            assert(at(all[0] as int) == p[n - 1] && at(all[1] as int) == p[0] && at(all[2] as int)
                == p[1]);
            lemma_clipped_layers(val, at, pts, d, ord, 0, g, q);
            lemma_ear_layers(p, q);
        } else {
            let t = turned(r);
            let s = spots(val, pts, t);
            assert(s =~= seen_at(p, 1));
            lemma_seen_left_handed(p, 1);
            lemma_turned_in(r, pts.len() as int);
            assert forall|j: int| n - (passed + 1) <= j < n && 0 <= j implies !#[trigger] ear(
                s,
                j,
            ) by {
                lemma_seen_ear(p, 1, j);
            }
            if passed + 1 < n {
                lemma_clipped_layers(val, at, pts, t, ord, passed + 1, g, q);
                lemma_turned_winding(p, q, 1);
                assert forall|k: int| 0 <= k < n implies !on(#[trigger] p[k], next(p, k), q) by {
                    let j = before(k, n);
                    lemma_seen_at(p, 1, j);
                    assert(!on(s[j], next(s, j), q));
                }
            } else {
                let i = lemma_has_ear(s, 0);
                assert(!ear(s, i));
            }
        }
    }
}

/// A ring of two corners runs around nothing.
proof fn lemma_pair_winding(p: Seq<(int, int)>, q: (int, int))
    requires
        p.len() == 2,
    ensures
        winding(p, q) == 0,
{
    assert(passings(p, q, 0) == 0);
    assert(passings(p, q, 1) == passings(p, q, 0) + passes(p[0], next(p, 0), q));
    assert(passings(p, q, 2) == passings(p, q, 1) + passes(p[1], next(p, 1), q));
    lemma_passes_back(p[0], p[1], q);
}

/// Cutting an ear off a ring takes it from the points within.
proof fn lemma_ear_layers(p: Seq<(int, int)>, q: (int, int))
    requires
        left_handed(p),
        ear(p, 0),
        !on_triangle(p[p.len() - 1], p[0], p[1], q),
        0 <= winding(p.drop_first(), q) <= 1,
        p.len() > 3 ==> forall|k: int|
            0 <= k < p.len() - 1 ==> !on(
                #[trigger] p.drop_first()[k],
                next(p.drop_first(), k),
                q,
            ),
    ensures
        winding(p, q) == winding(p.drop_first(), q) + if within_triangle(
            p[p.len() - 1],
            p[0],
            p[1],
            q,
        ) {
            1int
        } else {
            0
        },
        0 <= winding(p, q) <= 1,
        forall|k: int| 0 <= k < p.len() ==> !on(#[trigger] p[k], next(p, k), q),
{
    let n = p.len() as int;
    let d = p.drop_first();
    let (a, b, c) = (p[n - 1], p[0], p[1]);
    assert(prev(p, 0) == a && next(p, 0) == c && next(p, n - 1) == b);
    assert(d[n - 2] == a && next(d, n - 2) == c);
    lemma_cut_passings(p, q, n - 2);
    assert(passings(d, q, n - 1) == passings(d, q, n - 2) + passes(a, c, q));
    assert(passings(p, q, n) == passings(p, q, n - 1) + passes(a, b, q));
    lemma_passes_back(a, c, q);
    lemma_triangle_winding(a, b, c, q);
    assert forall|k: int| 0 <= k < n implies !on(#[trigger] p[k], next(p, k), q) by {
        if 0 < k < n - 1 {
            assert(next(p, k) == p[k + 1]);
            if n > 3 {
                assert(d[k - 1] == p[k] && next(d, k - 1) == p[k + 1]);
                assert(!on(d[k - 1], next(d, k - 1), q));
            }
        }
    }
    if within_triangle(a, b, c, q) {
        lemma_in_ear(p, 0, q);
    }
}

/// The triangles of a ring that runs counterclockwise cover it and do not overlap: a point on none
/// of their sides lies in one of them if the ring runs around it, and in none if not.
pub proof fn lemma_sliced_layers<C: Scalar>(
    val: spec_fn(C) -> int,
    at: spec_fn(int) -> (int, int),
    pts: Seq<Pt<C>>,
    r: Seq<int>,
    g: Grid<C>,
    q: (int, int),
)
    requires
        places_found(val, pts),
        placed(val, at, pts),
        in_table(r, pts.len() as int),
        left_handed(spots(val, pts, r)),
        !hashed(g),
        off_sides(at, sliced(pts, r, g).tris, q),
    ensures
        layers(at, sliced(pts, r, g).tris, q) == winding(spots(val, pts, r), q),
        0 <= winding(spots(val, pts, r), q) <= 1,
{
    lemma_clipped_layers(val, at, pts, r, Seq::empty(), 0, g, q);
}

// ---------------------------------------------------------------------------------------------
// Polygons with holes
// ---------------------------------------------------------------------------------------------
/// The measure of windings around `q`.
pub open spec fn by_winding(q: (int, int)) -> Measure {
    |u: (int, int), v: (int, int)| passes(u, v, q)
}

/// Three points on a line run around nothing.
proof fn lemma_flat_passes(a: (int, int), b: (int, int), c: (int, int), q: (int, int))
    requires
        tri(a, b, c) == 0,
    ensures
        passes(a, b, q) + passes(b, c, q) + passes(c, a, q) == 0,
{
    let k = spread_of(a, b, c, q);
    let h = height(k);
    let (ha, hb, hc, hq) = (affine(h, a), affine(h, b), affine(h, c), affine(h, q));
    let (x, y, z) = (tri(a, b, q), tri(b, c, q), tri(c, a, q));
    lemma_four(h, a, b, c, q);
    lemma_tri(a, c, q);
    lemma_sum(a, b, c, q);
    lemma_balance_at(y, -z, x, 0, ha, hb, hc, hq, ha);
    lemma_balance_at(y, -z, x, 0, ha, hb, hc, hq, hb);
    lemma_balance_at(y, -z, x, 0, ha, hb, hc, hq, hc);
    lemma_signs(y, ha - hb);
    lemma_signs(x, hc - hb);
    lemma_signs(-z, hb - hb);
    lemma_signs(z, hb - ha);
    lemma_signs(-z, hb - ha);
    lemma_signs(x, hc - ha);
    lemma_signs(y, ha - ha);
    lemma_signs(y, ha - hc);
    lemma_signs(z, hb - hc);
    lemma_signs(-z, hb - hc);
    lemma_signs(x, hc - hc);
    lemma_signs(0, hq - ha);
    lemma_signs(0, hq - hb);
    lemma_signs(0, hq - hc);
    lemma_height(k, q, a);
    lemma_height(k, q, b);
    lemma_height(k, q, c);
}

/// Windings are measured along edges.
pub(crate) proof fn lemma_by_winding(q: (int, int))
    ensures
        measure(by_winding(q)),
{
    let m = by_winding(q);
    assert forall|u: (int, int), v: (int, int)| #[trigger] m(u, v) == -m(v, u) by {
        lemma_passes_back(u, v, q);
    }
    assert forall|a: (int, int), b: (int, int), c: (int, int)|
        tri(a, b, c) == 0 implies #[trigger] around(m, a, b, c) == 0 by {
        lemma_flat_passes(a, b, c, q);
    }
}

/// A point on no side of triangles that run counterclockwise lies in as many of them as run around
/// it.
proof fn lemma_layers(at: spec_fn(int) -> (int, int), tris: Seq<usize>, q: (int, int))
    requires
        all_left(at, tris),
        off_sides(at, tris, q),
    ensures
        layers(at, tris, q) == tris_sum(by_winding(q), at, tris),
    decreases tris.len(),
{
    if tris.len() >= 3 {
        lemma_layers(at, tris.skip(3), q);
        lemma_triangle_winding(
            at(tris[0] as int),
            at(tris[1] as int),
            at(tris[2] as int),
            q,
        );
    }
}

/// Where coordinates are computed with exactly, the triangles of a polygon that is sliced
/// completely cover it and leave its holes out: a point on none of their sides lies in as many of
/// them as the outer ring runs around it, less the holes.
pub proof fn lemma_triangulation_layers<C: Scalar>(
    val: spec_fn(C) -> int,
    data: Seq<C>,
    holes: Seq<usize>,
    dim: int,
    q: (int, int),
)
    requires
        is_flat(data, holes, dim),
        data.len() <= usize::MAX,
        exact_data(val, data, holes, dim),
        sliced_completely(data, holes, dim),
        off_sides(corners(val, data, dim), triangulation(data, holes, dim), q),
    ensures
        layers(corners(val, data, dim), triangulation(data, holes, dim), q) == net_sum(
            by_winding(q),
            corners(val, data, dim),
            holes,
            data.len() as int / dim,
            holes.len() as int,
        ),
{
    lemma_by_winding(q);
    lemma_triangulation_sum(by_winding(q), val, data, holes, dim);
    lemma_layers(corners(val, data, dim), triangulation(data, holes, dim), q);
}

} // verus!
