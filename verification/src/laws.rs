//! What holds of sweeping, sorting and slicing as a whole.
use vstd::prelude::*;
use crate::areas::{spot, tri};
use crate::bounds::in_table;
use crate::geometry::{hashed, zero, Grid};
use crate::hole_model::{comes_after, in_order, put_in};
use crate::model::{
    after, area, backtracked, before, clippable, clipped, degenerate, dropped_back, healed,
    obstructs, pred, sliced, succ, swept, triangle, turned, turned_to, z_ranked, Pt,
};
use crate::scalar::Scalar;
use crate::zsort::{
    is_stable_order, lemma_distinct_is_onto, lemma_stable_order_exists, permuted, precedes,
    stable_order, z_key, z_keys, z_sorted,
};

verus! {

// ---------------------------------------------------------------------------------------------
// Sweeping
// ---------------------------------------------------------------------------------------------
/// The last `checked` nodes of the ring are not degenerate.
spec fn in_order_since<C: Scalar>(pts: Seq<Pt<C>>, r: Seq<int>, checked: int) -> bool {
    forall|j: int|
        r.len() - checked <= j < r.len() && 0 <= j ==> !degenerate(pts, #[trigger] turned_to(r, j))
}

/// Sweeping reaches a fixpoint: no node of the ring that is left is degenerate.
pub proof fn lemma_swept_fixpoint<C: Scalar>(pts: Seq<Pt<C>>, r: Seq<int>, j: int)
    requires
        r.len() > 0,
        0 <= j < swept(pts, r, 0).len(),
    ensures
        !degenerate(pts, turned_to(swept(pts, r, 0), j)),
{
    lemma_swept_since(pts, r, 0);
}

/// Sweeping keeps track of the nodes found in order.
proof fn lemma_swept_since<C: Scalar>(pts: Seq<Pt<C>>, r: Seq<int>, checked: nat)
    requires
        r.len() > 0,
        checked < r.len(),
        in_order_since(pts, r, checked as int),
    ensures
        in_order_since(pts, swept(pts, r, checked), swept(pts, r, checked).len() as int),
    decreases r.len(), r.len() - checked,
{
    let n = r.len() as int;
    if degenerate(pts, r) {
        lemma_swept_since(pts, dropped_back(r), 0);
    } else {
        let t = turned(r);
        assert forall|j: int| n - (checked + 1) <= j < n && 0 <= j implies !degenerate(
            pts,
            #[trigger] turned_to(t, j),
        ) by {
            if j == n - 1 {
                assert(turned_to(t, j) =~= r);
            } else {
                assert(turned_to(t, j) =~= turned_to(r, j + 1));
            }
        }
        if checked + 1 < r.len() {
            lemma_swept_since(pts, t, checked + 1);
        }
    }
}

/// Sweeping drops no Steiner point.
pub proof fn lemma_steiner_swept<C: Scalar>(pts: Seq<Pt<C>>, r: Seq<int>, checked: nat, h: int)
    requires
        r.contains(h),
        pts[h].steiner,
    ensures
        swept(pts, r, checked).contains(h),
    decreases r.len(), r.len() - checked,
{
    lemma_turned_keeps(r, h);
    if degenerate(pts, r) {
        lemma_dropped_keeps(r, h);
        lemma_steiner_swept(pts, dropped_back(r), 0, h);
    } else if checked + 1 >= r.len() {
    } else {
        lemma_steiner_swept(pts, turned(r), checked + 1, h);
    }
}

/// Healing drops no Steiner point.
pub proof fn lemma_steiner_healed<C: Scalar>(pts: Seq<Pt<C>>, r: Seq<int>, h: int)
    requires
        r.contains(h),
        pts[h].steiner,
    ensures
        healed(pts, r).contains(h),
{
    lemma_steiner_backtracked(pts, r, h);
    lemma_turned_keeps(backtracked(pts, r), h);
    lemma_steiner_backtracked(pts, turned(backtracked(pts, r)), h);
}

/// Dropping nodes backwards drops no Steiner point.
proof fn lemma_steiner_backtracked<C: Scalar>(pts: Seq<Pt<C>>, r: Seq<int>, h: int)
    requires
        r.contains(h),
        pts[h].steiner,
    ensures
        backtracked(pts, r).contains(h),
    decreases r.len(),
{
    if degenerate(pts, r) {
        lemma_dropped_keeps(r, h);
        lemma_steiner_backtracked(pts, dropped_back(r), h);
    }
}

/// Turning a ring keeps its nodes.
proof fn lemma_turned_keeps(r: Seq<int>, h: int)
    requires
        r.contains(h),
    ensures
        turned(r).contains(h),
{
    let k = choose|k: int| 0 <= k < r.len() && r[k] == h;
    assert(turned(r)[before(k, r.len() as int)] == h);
}

/// Dropping the first node keeps the others.
proof fn lemma_dropped_keeps(r: Seq<int>, h: int)
    requires
        r.contains(h),
        r.len() >= 2,
        r[0] != h,
    ensures
        dropped_back(r).contains(h),
{
    let k = choose|k: int| 0 <= k < r.len() && r[k] == h;
    if k == r.len() - 1 {
        assert(dropped_back(r)[0] == h);
    } else {
        assert(dropped_back(r)[k] == h);
    }
}

// ---------------------------------------------------------------------------------------------
// Sorting
// ---------------------------------------------------------------------------------------------
/// Taking the items of a sequence in another order keeps how often each occurs.
pub(crate) proof fn lemma_permuted_multiset<T>(s: Seq<T>, perm: Seq<int>)
    requires
        perm.len() == s.len(),
        forall|j: int| 0 <= j < perm.len() ==> 0 <= #[trigger] perm[j] < perm.len(),
        perm.no_duplicates(),
    ensures
        permuted(s, perm).to_multiset() == s.to_multiset(),
    decreases s.len(),
{
    let n = s.len() as int;
    let t = permuted(s, perm);
    if n == 0 {
        assert(t =~= s);
    } else {
        lemma_distinct_is_onto(perm, n - 1);
        let j = choose|j: int| 0 <= j < perm.len() && perm[j] == n - 1;
        let rest = perm.remove(j);
        assert forall|i: int| 0 <= i < rest.len() implies 0 <= #[trigger] rest[i] < rest.len() by {
            let k = if i < j {
                i
            } else {
                i + 1
            };
            assert(rest[i] == perm[k] && 0 <= perm[k] < n && perm[k] != perm[j]);
        }
        assert(rest.no_duplicates());
        lemma_permuted_multiset(s.drop_last(), rest);
        assert(s.drop_last() =~= s.remove(n - 1));
        assert(permuted(s.drop_last(), rest) =~= t.remove(j)) by {
            assert forall|i: int| 0 <= i < rest.len() implies s.drop_last()[#[trigger] rest[i]]
                == t.remove(j)[i] by {}
        }
        vstd::seq_lib::to_multiset_remove(s, n - 1);
        vstd::seq_lib::to_multiset_remove(t, j);
        broadcast use vstd::seq_lib::group_to_multiset_ensures;

        assert(t[j] == s[n - 1]);
        assert(s.contains(s[n - 1]) && t.contains(t[j]));
        assert(t.to_multiset() =~= t.to_multiset().remove(t[j]).insert(t[j]));
        assert(s.to_multiset() =~= s.to_multiset().remove(s[n - 1]).insert(s[n - 1]));
    }
}

/// Sorting a z-order queue puts its items in ascending order, keeps all of them, each as often as
/// it occurs, and adds none.
pub proof fn lemma_z_sorted<T>(s: Seq<(i32, T)>)
    ensures
        z_sorted(s).len() == s.len(),
        z_sorted(s).to_multiset() == s.to_multiset(),
        forall|i: int, j: int|
            0 <= i <= j < s.len() ==> z_key(s.len(), (#[trigger] z_sorted(s)[i]).0) <= z_key(
                s.len(),
                (#[trigger] z_sorted(s)[j]).0,
            ),
        forall|i: int| 0 <= i < s.len() ==> z_sorted(s).contains(#[trigger] s[i]),
        forall|i: int| 0 <= i < s.len() ==> s.contains(#[trigger] z_sorted(s)[i]),
        is_stable_order(z_keys(s), stable_order(z_keys(s))),
{
    let keys = z_keys(s);
    let perm = stable_order(keys);
    let t = z_sorted(s);
    lemma_stable_order_exists(keys);
    assert forall|i: int, j: int| 0 <= i <= j < s.len() implies z_key(
        s.len(),
        (#[trigger] t[i]).0,
    ) <= z_key(s.len(), (#[trigger] t[j]).0) by {
        assert(0 <= perm[i] < s.len() && 0 <= perm[j] < s.len());
        if i < j {
            assert(precedes(keys, perm[i], perm[j]));
        }
        assert(keys[perm[i]] == z_key(s.len(), t[i].0));
        assert(keys[perm[j]] == z_key(s.len(), t[j].0));
    }
    assert(perm.no_duplicates());
    lemma_permuted_multiset(s, perm);
    assert forall|i: int| 0 <= i < s.len() implies t.contains(#[trigger] s[i]) by {
        lemma_distinct_is_onto(perm, i);
        let j = choose|j: int| 0 <= j < perm.len() && perm[j] == i;
        assert(t[j] == s[i]);
    }
    assert forall|i: int| 0 <= i < s.len() implies s.contains(#[trigger] t[i]) by {
        assert(0 <= perm[i] < s.len());
        assert(s[perm[i]] == t[i]);
    }
}

/// Sorting a z-order queue gives its items in the order of the places that are returned: each place
/// once, by ascending value, and places with the same value as they come. In a queue of 512 items
/// or more, negative values count as the unsigned numbers of their bits, and so come last.
pub proof fn lemma_by_z<T>(s: Seq<(i32, T)>) -> (places: Seq<int>)
    ensures
        places.len() == s.len(),
        z_sorted(s).len() == s.len(),
        forall|j: int|
            0 <= j < s.len() ==> 0 <= #[trigger] places[j] < s.len() && z_sorted(s)[j]
                == s[places[j]],
        forall|i: int, j: int|
            #![trigger places[i], places[j]]
            0 <= i < j < s.len() ==> {
                let (a, b) = (s[places[i]].0, s[places[j]].0);
                &&& places[i] != places[j]
                &&& a == b ==> places[i] < places[j]
                &&& a >= 0 && b >= 0 ==> a <= b
                &&& a < 0 && b < 0 ==> a <= b
                &&& s.len() < 512 ==> a <= b
                &&& s.len() >= 512 && a < 0 ==> b < 0
            },
{
    let keys = z_keys(s);
    let perm = stable_order(keys);
    lemma_stable_order_exists(keys);
    assert forall|i: int, j: int| #![trigger perm[i], perm[j]] 0 <= i < j < s.len() implies {
        let (a, b) = (s[perm[i]].0, s[perm[j]].0);
        &&& perm[i] != perm[j]
        &&& a == b ==> perm[i] < perm[j]
        &&& a >= 0 && b >= 0 ==> a <= b
        &&& a < 0 && b < 0 ==> a <= b
        &&& s.len() < 512 ==> a <= b
        &&& s.len() >= 512 && a < 0 ==> b < 0
    } by {
        assert(0 <= perm[i] < s.len() && 0 <= perm[j] < s.len());
        assert(precedes(keys, perm[i], perm[j]));
        let (a, b) = (s[perm[i]].0, s[perm[j]].0);
        assert(keys[perm[i]] == z_key(s.len(), a) && keys[perm[j]] == z_key(s.len(), b));
        lemma_unsigned(a);
        lemma_unsigned(b);
    }
    perm
}

/// The bits of a number read as an unsigned one.
proof fn lemma_unsigned(z: i32)
    ensures
        z >= 0 ==> z as u32 == z,
        z < 0 ==> z as u32 == z + 0x1_0000_0000,
{
    assert(z >= 0 ==> z as u32 == z) by (bit_vector);
    assert(z < 0 ==> z as u32 == z + 0x1_0000_0000) by (bit_vector);
}

/// The order of holes is one: of two holes at most one comes after the other, and what does not
/// come after a hole that does not come after a third does not come after the third.
pub open spec fn orderly<C: Scalar>(pts: Seq<Pt<C>>, q: Seq<Seq<int>>) -> bool {
    &&& forall|a: Seq<int>, b: Seq<int>|
        q.contains(a) && q.contains(b) && #[trigger] comes_after(pts, a, b) ==> !comes_after(
            pts,
            b,
            a,
        )
    &&& forall|a: Seq<int>, b: Seq<int>, c: Seq<int>|
        q.contains(a) && q.contains(b) && q.contains(c) && !#[trigger] comes_after(pts, a, b)
            && !#[trigger] comes_after(pts, b, c) ==> !comes_after(pts, a, c)
}

/// No hole of the queue comes after a later one.
pub open spec fn sorted<C: Scalar>(pts: Seq<Pt<C>>, q: Seq<Seq<int>>) -> bool {
    forall|i: int, j: int|
        0 <= i < j < q.len() ==> !comes_after(pts, #[trigger] q[i], #[trigger] q[j])
}

/// Putting a hole in its place keeps a queue sorted.
proof fn lemma_put_in_sorted<C: Scalar>(
    pts: Seq<Pt<C>>,
    q: Seq<Seq<int>>,
    hole: Seq<int>,
    all: Seq<Seq<int>>,
)
    requires
        orderly(pts, all),
        sorted(pts, q),
        all.contains(hole),
        forall|j: int| 0 <= j < q.len() ==> all.contains(#[trigger] q[j]),
    ensures
        sorted(pts, put_in(pts, q, hole)),
        forall|x: Seq<int>| #[trigger]
            put_in(pts, q, hole).contains(x) ==> x == hole || q.contains(x),
    decreases q.len(),
{
    let s = put_in(pts, q, hole);
    if q.len() > 0 && comes_after(pts, q.last(), hole) {
        let d = q.drop_last();
        let last = q[q.len() - 1];
        assert forall|j: int| 0 <= j < d.len() implies all.contains(#[trigger] d[j]) by {
            assert(d[j] == q[j]);
        }
        assert forall|i: int, j: int| 0 <= i < j < d.len() implies !comes_after(
            pts,
            #[trigger] d[i],
            #[trigger] d[j],
        ) by {
            assert(d[i] == q[i] && d[j] == q[j]);
        }
        lemma_put_in_sorted(pts, d, hole, all);
        let p = put_in(pts, d, hole);
        assert(all.contains(last));
        assert forall|i: int, j: int| 0 <= i < j < s.len() implies !comes_after(
            pts,
            #[trigger] s[i],
            #[trigger] s[j],
        ) by {
            if j < p.len() {
                assert(s[i] == p[i] && s[j] == p[j]);
            } else {
                assert(s[j] == last && s[i] == p[i]);
                assert(p.contains(p[i]));
                if p[i] != hole {
                    assert(d.contains(p[i]));
                    let k = choose|k: int| 0 <= k < d.len() && d[k] == p[i];
                    assert(q[k] == p[i]);
                }
            }
        }
        assert forall|x: Seq<int>| #[trigger] s.contains(x) implies x == hole || q.contains(x) by {
            let i = choose|i: int| 0 <= i < s.len() && s[i] == x;
            if i < p.len() {
                assert(p[i] == x);
                assert(p.contains(x));
                if x != hole {
                    assert(d.contains(x));
                    let k = choose|k: int| 0 <= k < d.len() && d[k] == x;
                    assert(q[k] == x);
                }
            } else {
                assert(q[q.len() - 1] == x);
            }
        }
    } else {
        let n = q.len() as int;
        assert forall|i: int, j: int| 0 <= i < j < s.len() implies !comes_after(
            pts,
            #[trigger] s[i],
            #[trigger] s[j],
        ) by {
            assert(s[i] == q[i]);
            if j < n {
                assert(s[j] == q[j]);
            } else {
                assert(all.contains(q[i]) && all.contains(q[n - 1]));
                if i < n - 1 {
                    assert(!comes_after(pts, q[i], q[n - 1]));
                    assert(!comes_after(pts, q[n - 1], hole));
                }
            }
        }
        assert forall|x: Seq<int>| #[trigger] s.contains(x) implies x == hole || q.contains(x) by {
            let i = choose|i: int| 0 <= i < s.len() && s[i] == x;
            if i < n {
                assert(q[i] == x);
            }
        }
    }
}

/// Holes are merged from left to right: where their order is one, none comes after a later one.
pub proof fn lemma_in_order_sorted<C: Scalar>(pts: Seq<Pt<C>>, q: Seq<Seq<int>>)
    requires
        orderly(pts, q),
    ensures
        sorted(pts, in_order(pts, q)),
{
    lemma_in_order_of(pts, q, q);
}

/// Some holes of an orderly queue put in order are sorted.
proof fn lemma_in_order_of<C: Scalar>(pts: Seq<Pt<C>>, q: Seq<Seq<int>>, all: Seq<Seq<int>>)
    requires
        orderly(pts, all),
        forall|j: int| 0 <= j < q.len() ==> all.contains(#[trigger] q[j]),
    ensures
        sorted(pts, in_order(pts, q)),
        forall|x: Seq<int>| #[trigger] in_order(pts, q).contains(x) ==> q.contains(x),
    decreases q.len(),
{
    if q.len() > 0 {
        let d = q.drop_last();
        let n = q.len() as int;
        assert forall|j: int| 0 <= j < d.len() implies all.contains(#[trigger] d[j]) by {
            assert(d[j] == q[j]);
        }
        lemma_in_order_of(pts, d, all);
        let p = in_order(pts, d);
        assert(all.contains(q[n - 1]));
        assert forall|j: int| 0 <= j < p.len() implies all.contains(#[trigger] p[j]) by {
            assert(p.contains(p[j]));
            let k = choose|k: int| 0 <= k < d.len() && d[k] == p[j];
            assert(all.contains(d[k]));
        }
        lemma_put_in_sorted(pts, p, q[n - 1], all);
        assert forall|x: Seq<int>| #[trigger] in_order(pts, q).contains(x) implies q.contains(
            x,
        ) by {
            if x == q[n - 1] {
                assert(q[n - 1] == x);
            } else {
                assert(p.contains(x));
                assert(d.contains(x));
                let k = choose|k: int| 0 <= k < d.len() && d[k] == x;
                assert(q[k] == x);
            }
        }
    }
}

// ---------------------------------------------------------------------------------------------
// Convex rings
// ---------------------------------------------------------------------------------------------
/// Which way three nodes turn is found as it is, with the integers that `val` takes coordinates
/// for.
pub open spec fn turns_found<C: Scalar>(val: spec_fn(C) -> int, pts: Seq<Pt<C>>) -> bool {
    forall|p: int, q: int, r: int|
        0 <= p < pts.len() && 0 <= q < pts.len() && 0 <= r < pts.len() && tri(
            spot(val, pts, p),
            spot(val, pts, q),
            spot(val, pts, r),
        ) > 0 ==> (#[trigger] area(pts, p, q, r)).less_spec(zero::<C>())
            && !zero::<C>().at_most_spec(area(pts, p, q, r))
}

/// Any three nodes of the ring, taken in its order, turn left.
pub open spec fn convex<C>(val: spec_fn(C) -> int, pts: Seq<Pt<C>>, r: Seq<int>) -> bool {
    forall|i: int, j: int, k: int|
        0 <= i < j < k < r.len() ==> tri(
            spot(val, pts, #[trigger] r[i]),
            spot(val, pts, #[trigger] r[j]),
            spot(val, pts, #[trigger] r[k]),
        ) > 0
}

/// A triangle can be told from any of its corners.
pub(crate) proof fn lemma_tri_turned(a: (int, int), b: (int, int), c: (int, int))
    ensures
        tri(a, b, c) == tri(b, c, a),
{
}

/// Every node of a convex ring is an ear.
pub(crate) proof fn lemma_convex_ear<C: Scalar>(
    val: spec_fn(C) -> int,
    pts: Seq<Pt<C>>,
    r: Seq<int>,
    ord: Seq<int>,
    g: Grid<C>,
)
    requires
        turns_found(val, pts),
        in_table(r, pts.len() as int),
        convex(val, pts, r),
        r.len() >= 3,
    ensures
        clippable(pts, r, ord, g),
{
    let n = r.len() as int;
    assert forall|k: int| 0 <= k < n implies #[trigger] area(
        pts,
        pred(r, k),
        r[k],
        succ(r, k),
    ).less_spec(zero::<C>()) && !zero::<C>().at_most_spec(
        area(pts, pred(r, k), r[k], succ(r, k)),
    ) by {
        let b = before(k, n);
        let a = after(k, n);
        assert(0 <= r[b] < pts.len() && 0 <= r[k] < pts.len() && 0 <= r[a] < pts.len());
        let (x, y, z) = (spot(val, pts, r[b]), spot(val, pts, r[k]), spot(val, pts, r[a]));
        lemma_tri_turned(x, y, z);
        lemma_tri_turned(y, z, x);
        if k == 0 {
            assert(tri(y, z, x) > 0);
        } else if k == n - 1 {
            assert(tri(z, x, y) > 0);
        } else {
            assert(tri(x, y, z) > 0);
        }
    }
    assert(pred(r, 0) == r.last() && succ(r, 0) == r[1]);
    assert(area(pts, pred(r, 0), r[0], succ(r, 0)).less_spec(zero::<C>()));
    assert forall|k: int| 2 <= k < n implies !obstructs(pts, r, k) by {
        assert(!zero::<C>().at_most_spec(area(pts, pred(r, k), r[k], succ(r, k))));
    }
}

/// A convex ring of `n` nodes is sliced completely, into `n - 2` triangles.
pub proof fn lemma_convex_sliced<C: Scalar>(
    val: spec_fn(C) -> int,
    pts: Seq<Pt<C>>,
    r: Seq<int>,
    g: Grid<C>,
)
    requires
        turns_found(val, pts),
        in_table(r, pts.len() as int),
        convex(val, pts, r),
        r.len() >= 2,
    ensures
        sliced(pts, r, g).complete,
        sliced(pts, r, g).tris.len() == 3 * (r.len() - 2),
{
    let ord = if hashed(g) {
        z_ranked(pts, r, g)
    } else {
        Seq::empty()
    };
    lemma_convex_clipped(val, pts, r, ord, g);
}

/// What is left of a convex ring is sliced completely.
proof fn lemma_convex_clipped<C: Scalar>(
    val: spec_fn(C) -> int,
    pts: Seq<Pt<C>>,
    r: Seq<int>,
    ord: Seq<int>,
    g: Grid<C>,
)
    requires
        turns_found(val, pts),
        in_table(r, pts.len() as int),
        convex(val, pts, r),
        r.len() >= 2,
    ensures
        clipped(pts, r, ord, 0, false, g).complete,
        clipped(pts, r, ord, 0, false, g).tris.len() == 3 * (r.len() - 2),
    decreases r.len(),
{
    if r.len() > 2 {
        let d = r.drop_first();
        lemma_convex_ear(val, pts, r, ord, g);
        assert forall|k: int| 0 <= k < d.len() implies 0 <= #[trigger] d[k] < pts.len() by {
            assert(d[k] == r[k + 1]);
        }
        assert forall|i: int, j: int, k: int| 0 <= i < j < k < d.len() implies tri(
            spot(val, pts, #[trigger] d[i]),
            spot(val, pts, #[trigger] d[j]),
            spot(val, pts, #[trigger] d[k]),
        ) > 0 by {
            assert(d[i] == r[i + 1] && d[j] == r[j + 1] && d[k] == r[k + 1]);
        }
        lemma_convex_clipped(val, pts, d, ord, g);
    }
}

} // verus!
