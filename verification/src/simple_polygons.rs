//! Simple polygons are sliced completely.
use vstd::prelude::*;
use crate::areas::{
    by_area, lemma_by_area, lemma_cross, lemma_dropped_sum, lemma_path_joined, lemma_turned_to_sum,
    path_sum, ring_area, spot, tri,
};
use crate::bounds::{in_table, lemma_turned_in};
use crate::geometry::{hashed, point_in_triangle_spec, zero, Grid};
use crate::model::{area, clippable, clipped, obstructs, pred, sliced, succ, turned, turned_to, Pt};
use crate::scalar::Scalar;
use crate::simple::{
    ear, left_handed, lemma_corners_differ, lemma_cut, lemma_either_way, lemma_has_ear,
    lemma_has_obstacle, lemma_seen_ear, lemma_seen_left_handed, seen_at, simple,
};
use crate::winding::{inside, next, prev};

verus! {

/// The points at which the nodes of a ring are.
pub open spec fn spots<C>(val: spec_fn(C) -> int, pts: Seq<Pt<C>>, r: Seq<int>) -> Seq<(int, int)> {
    Seq::new(r.len(), |k: int| spot(val, pts, r[k]))
}

/// The node `p` is found to lie in the triangle of `a`, `b` and `c`, and not at `a`.
pub open spec fn found_inside<C: Scalar>(
    pts: Seq<Pt<C>>,
    a: int,
    b: int,
    c: int,
    p: int,
) -> bool {
    let (a, b, c, p) = (pts[a], pts[b], pts[c], pts[p]);
    &&& a.x.lower_spec(b.x).lower_spec(c.x).at_most_spec(p.x)
    &&& p.x.at_most_spec(a.x.upper_spec(b.x).upper_spec(c.x))
    &&& a.y.lower_spec(b.y).lower_spec(c.y).at_most_spec(p.y)
    &&& p.y.at_most_spec(a.y.upper_spec(b.y).upper_spec(c.y))
    &&& !(a.x.same_spec(p.x) && a.y.same_spec(p.y))
    &&& point_in_triangle_spec(a.x, a.y, b.x, b.y, c.x, c.y, p.x, p.y)
}

/// Which way three nodes turn, and whether a fourth lies in their triangle, is found as it is, with
/// the integers that `val` takes coordinates for.
pub open spec fn places_found<C: Scalar>(val: spec_fn(C) -> int, pts: Seq<Pt<C>>) -> bool {
    &&& forall|p: int, q: int, r: int|
        0 <= p < pts.len() && 0 <= q < pts.len() && 0 <= r < pts.len() ==> (
        (#[trigger] area(pts, p, q, r)).less_spec(zero::<C>()) <==> tri(
            spot(val, pts, p),
            spot(val, pts, q),
            spot(val, pts, r),
        ) > 0) && (zero::<C>().at_most_spec(area(pts, p, q, r)) <==> tri(
            spot(val, pts, p),
            spot(val, pts, q),
            spot(val, pts, r),
        ) <= 0)
    &&& forall|a: int, b: int, c: int, p: int|
        0 <= a < pts.len() && 0 <= b < pts.len() && 0 <= c < pts.len() && 0 <= p < pts.len() && tri(
            spot(val, pts, a),
            spot(val, pts, b),
            spot(val, pts, c),
        ) > 0 ==> (#[trigger] found_inside(pts, a, b, c, p) <==> inside(
            spot(val, pts, a),
            spot(val, pts, b),
            spot(val, pts, c),
            spot(val, pts, p),
        ) && spot(val, pts, a) != spot(val, pts, p))
}

/// The first node of a ring that runs counterclockwise is clipped if and only if it is an ear.
pub(crate) proof fn lemma_clippable<C: Scalar>(
    val: spec_fn(C) -> int,
    pts: Seq<Pt<C>>,
    r: Seq<int>,
    ord: Seq<int>,
    g: Grid<C>,
)
    requires
        places_found(val, pts),
        in_table(r, pts.len() as int),
        left_handed(spots(val, pts, r)),
        !hashed(g),
    ensures
        clippable(pts, r, ord, g) == ear(spots(val, pts, r), 0),
{
    let n = r.len() as int;
    let p = spots(val, pts, r);
    let (a, b, c) = (r[n - 1], r[0], r[1]);
    assert(0 <= a < pts.len() && 0 <= b < pts.len() && 0 <= c < pts.len());
    assert(prev(p, 0) == p[n - 1] && next(p, 0) == p[1]);
    assert(p[n - 1] == spot(val, pts, a) && p[0] == spot(val, pts, b) && p[1] == spot(val, pts, c));
    if clippable(pts, r, ord, g) && !ear(p, 0) {
        assert(tri(p[n - 1], p[0], p[1]) > 0);
        if n >= 4 {
            let j = lemma_has_obstacle(p);
            let h = r[j];
            assert(0 <= h < pts.len() && 0 <= r[j - 1] < pts.len() && 0 <= r[j + 1] < pts.len());
            assert(pred(r, j) == r[j - 1] && succ(r, j) == r[j + 1]);
            assert(p[j] == spot(val, pts, h));
            assert(p[j] != p[n - 1]) by {
                lemma_corners_differ(p, j, n - 1);
            }
            assert(found_inside(pts, a, b, c, h));
            assert(zero::<C>().at_most_spec(area(pts, r[j - 1], h, r[j + 1])));
            assert(obstructs(pts, r, j));
        }
    }
    if ear(p, 0) {
        assert(area(pts, a, b, c).less_spec(zero::<C>()));
        assert forall|k: int| 2 <= k < n - 1 implies !obstructs(pts, r, k) by {
            assert(0 <= r[k] < pts.len());
            assert(!inside(p[n - 1], p[0], p[1], p[k]));
            assert(!found_inside(pts, a, b, c, r[k]));
        }
    }
}

/// What is left of a ring that runs counterclockwise is sliced completely; none of the last
/// `passed` corners is an ear.
proof fn lemma_simple_clipped<C: Scalar>(
    val: spec_fn(C) -> int,
    pts: Seq<Pt<C>>,
    r: Seq<int>,
    ord: Seq<int>,
    passed: nat,
    g: Grid<C>,
)
    requires
        places_found(val, pts),
        in_table(r, pts.len() as int),
        r.len() == 2 || left_handed(spots(val, pts, r)),
        passed <= r.len(),
        !hashed(g),
        forall|j: int|
            r.len() - passed <= j < r.len() ==> !#[trigger] ear(spots(val, pts, r), j),
    ensures
        clipped(pts, r, ord, passed, false, g).complete,
        clipped(pts, r, ord, passed, false, g).tris.len() == 3 * (r.len() - 2),
        clipped(pts, r, ord, passed, false, g).pts == pts,
    decreases r.len(), r.len() - passed,
{
    let n = r.len() as int;
    let p = spots(val, pts, r);
    if n > 2 {
        lemma_clippable(val, pts, r, ord, g);
        if clippable(pts, r, ord, g) {
            let d = r.drop_first();
            assert(spots(val, pts, d) =~= p.drop_first());
            assert forall|k: int| 0 <= k < d.len() implies 0 <= #[trigger] d[k] < pts.len() by {
                assert(d[k] == r[k + 1]);
            }
            if n >= 4 {
                lemma_cut(p);
            }
            lemma_simple_clipped(val, pts, d, ord, 0, g);
        } else {
            let t = turned(r);
            let s = spots(val, pts, t);
            assert(s =~= seen_at(p, 1));
            lemma_seen_left_handed(p, 1);
            lemma_turned_in(r, pts.len() as int);
            assert forall|j: int| n - (passed + 1) <= j < n && 0 <= j implies !#[trigger] ear(
                s,
                j,
            ) by {
                lemma_seen_ear(p, 1, j);
            }
            if passed + 1 < n {
                lemma_simple_clipped(val, pts, t, ord, passed + 1, g);
            } else {
                let i = lemma_has_ear(s, 0);
                assert(!ear(s, i));
            }
        }
    }
}

/// A ring that runs counterclockwise is sliced completely: `n` nodes give `n - 2` triangles.
pub proof fn lemma_simple_sliced<C: Scalar>(
    val: spec_fn(C) -> int,
    pts: Seq<Pt<C>>,
    r: Seq<int>,
    g: Grid<C>,
)
    requires
        places_found(val, pts),
        in_table(r, pts.len() as int),
        left_handed(spots(val, pts, r)),
        !hashed(g),
    ensures
        sliced(pts, r, g).complete,
        sliced(pts, r, g).tris.len() == 3 * (r.len() - 2),
        sliced(pts, r, g).pts == pts,
{
    lemma_simple_clipped(val, pts, r, Seq::empty(), 0, g);
}

// ---------------------------------------------------------------------------------------------
// Areas
// ---------------------------------------------------------------------------------------------
/// A ring that runs counterclockwise has a positive area.
pub(crate) proof fn lemma_left_handed_area<C>(val: spec_fn(C) -> int, pts: Seq<Pt<C>>, r: Seq<int>)
    requires
        left_handed(spots(val, pts, r)),
    ensures
        ring_area(val, pts, r) > 0,
    decreases r.len(),
{
    let n = r.len() as int;
    let p = spots(val, pts, r);
    lemma_by_area();
    let i = lemma_has_ear(p, 0);
    let t = turned_to(r, i);
    let s = spots(val, pts, t);
    assert(s =~= seen_at(p, i));
    lemma_seen_left_handed(p, i);
    lemma_seen_ear(p, i, 0);
    lemma_turned_to_sum(by_area(), val, pts, r, i);
    lemma_dropped_sum(by_area(), val, pts, t);
    let d = t.drop_first();
    assert(prev(s, 0) == s[n - 1] && next(s, 0) == s[1]);
    assert(tri(spot(val, pts, t[n - 1]), spot(val, pts, t[0]), spot(val, pts, t[1])) > 0);
    if n >= 4 {
        lemma_cut(s);
        assert(spots(val, pts, d) =~= s.drop_first());
        lemma_left_handed_area(val, pts, d);
    } else {
        assert(d.len() == 2);
        assert(d.drop_last().len() == 1);
        assert(path_sum(by_area(), val, pts, d.drop_last()) == 0);
        lemma_cross(spot(val, pts, d[0]), spot(val, pts, d[1]));
    }
}

/// A path run backwards.
proof fn lemma_path_back<C>(val: spec_fn(C) -> int, pts: Seq<Pt<C>>, s: Seq<int>)
    ensures
        path_sum(by_area(), val, pts, s.reverse()) == -path_sum(by_area(), val, pts, s),
    decreases s.len(),
{
    if s.len() > 1 {
        let d = s.drop_last();
        let l = seq![s.last()];
        lemma_by_area();
        lemma_path_back(val, pts, d);
        assert(s.reverse() =~= l + d.reverse());
        lemma_path_joined(by_area(), val, pts, l, d.reverse());
        assert(d.reverse()[0] == s[s.len() - 2]);
        lemma_cross(spot(val, pts, s.last()), spot(val, pts, s[s.len() - 2]));
        assert(l.len() == 1 && path_sum(by_area(), val, pts, l) == 0);
    }
}

/// A simple ring whose area is not negative runs counterclockwise.
pub(crate) proof fn lemma_handed<C>(val: spec_fn(C) -> int, pts: Seq<Pt<C>>, r: Seq<int>)
    requires
        simple(spots(val, pts, r)),
        ring_area(val, pts, r) >= 0,
    ensures
        left_handed(spots(val, pts, r)),
{
    let p = spots(val, pts, r);
    lemma_either_way(p);
    if !left_handed(p) {
        let b = r.reverse();
        assert(spots(val, pts, b) =~= p.reverse());
        lemma_left_handed_area(val, pts, b);
        lemma_path_back(val, pts, r);
        assert(b.last() == r[0] && b[0] == r.last());
        lemma_cross(spot(val, pts, r[0]), spot(val, pts, r.last()));
    }
}

} // verus!
