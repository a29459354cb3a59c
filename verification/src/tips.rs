//! Which corner of a triangle is cut off, and which vertices are used.
use vstd::prelude::*;
use crate::bounds::{lemma_clipped, lemma_sliced, lemma_uncrossed_small};
use crate::exact::Exact;
use crate::exact_areas::{integer, integral};
use crate::exact_simple::{corner_count, corner_ring, lemma_ring_read, lemma_sliced_plainly};
use crate::geometry::{hashed, Grid};
use crate::hole_model::wound;
use crate::model::{
    backtracked, before, bridged, clippable, clipped, curable, cured, degenerate, dropped_back,
    far_part, first_diagonal, first_split, halved, healed, lemma_backtracked_len, lemma_cured_len,
    lemma_first_split, lemma_healed_len, lemma_swept_len, lemma_uncrossed_len, near_part, sliced,
    swept, triangle, turned, uncrossed, z_ranked, Pt,
};
use crate::rings::{
    is_ring, lemma_dropped_ring, lemma_first_split_ring, lemma_healed_ring, lemma_listed_ring,
    lemma_parts_rings, lemma_swept_ring, lemma_turned_ring, lemma_uncrossed_ring,
};
use crate::scalar::Scalar;
use crate::scaling::lemma_shortcut_ring;
use crate::simple::simple;
use crate::simple_polygons::lemma_simple_sliced;
use crate::triangulation::{is_flat, outer_ring, triangulation};

verus! {

// ---------------------------------------------------------------------------------------------
// Tips
// ---------------------------------------------------------------------------------------------
/// No two nodes of the table are of one vertex.
pub open spec fn vertices_differ<C>(pts: Seq<Pt<C>>) -> bool {
    forall|a: int, b: int|
        0 <= a < b < pts.len() ==> (#[trigger] pts[a]).i != (#[trigger] pts[b]).i
}

/// A node of the ring is of the vertex `v`.
spec fn vertex_in<C>(pts: Seq<Pt<C>>, r: Seq<int>, v: usize) -> bool {
    exists|h: int| #[trigger] r.contains(h) && pts[h].i == v
}

/// The corners are of nodes of the ring.
spec fn of_ring<C>(pts: Seq<Pt<C>>, r: Seq<int>, tris: Seq<usize>) -> bool {
    forall|t: int| 0 <= t < tris.len() ==> vertex_in(pts, r, #[trigger] tris[t])
}

/// The middle corner of the triangle number `j` is no corner of that number `k`.
spec fn clear_of(tris: Seq<usize>, j: int, k: int) -> bool {
    tris[3 * j + 1] != tris[3 * k] && tris[3 * j + 1] != tris[3 * k + 1] && tris[3 * j + 1]
        != tris[3 * k + 2]
}

/// The middle corner of each triangle is in no later one.
spec fn tipped(tris: Seq<usize>) -> bool {
    &&& tris.len() % 3 == 0
    &&& forall|j: int, k: int| 0 <= j < k < tris.len() / 3 ==> #[trigger] clear_of(tris, j, k)
}

/// The middle corner of the triangle number `j` is of no node of the ring.
spec fn gone_at<C>(pts: Seq<Pt<C>>, r: Seq<int>, tris: Seq<usize>, j: int) -> bool {
    !vertex_in(pts, r, tris[3 * j + 1])
}

/// The middle corners of the triangles are of no node of the ring.
spec fn gone<C>(pts: Seq<Pt<C>>, r: Seq<int>, tris: Seq<usize>) -> bool {
    forall|j: int| 0 <= j < tris.len() / 3 ==> #[trigger] gone_at(pts, r, tris, j)
}

/// Triangles whose middle corners are gone, and then triangles of what is left.
proof fn lemma_tips_joined<C>(
    pts: Seq<Pt<C>>,
    r: Seq<int>,
    s: Seq<int>,
    one: Seq<usize>,
    two: Seq<usize>,
)
    requires
        tipped(one),
        tipped(two),
        of_ring(pts, r, one),
        of_ring(pts, s, two),
        gone(pts, s, one),
        forall|h: int| #[trigger] s.contains(h) ==> r.contains(h),
    ensures
        tipped(one + two),
        of_ring(pts, r, one + two),
        forall|q: Seq<int>|
            gone(pts, q, two) && (forall|h: int| #[trigger] q.contains(h) ==> s.contains(h))
                ==> #[trigger] gone(pts, q, one + two),
{
    let t = one + two;
    let m = one.len() as int / 3;
    assert forall|j: int, k: int| 0 <= j < k < t.len() / 3 implies #[trigger] clear_of(t, j, k) by {
        if k < m {
            assert(clear_of(one, j, k));
        } else {
            assert(t[3 * k] == two[3 * (k - m)]);
            assert(t[3 * k + 1] == two[3 * (k - m) + 1]);
            assert(t[3 * k + 2] == two[3 * (k - m) + 2]);
            if j < m {
                assert(gone_at(pts, s, one, j));
                assert(vertex_in(pts, s, two[3 * (k - m)]));
                assert(vertex_in(pts, s, two[3 * (k - m) + 1]));
                assert(vertex_in(pts, s, two[3 * (k - m) + 2]));
            } else {
                assert(clear_of(two, j - m, k - m));
                assert(t[3 * j + 1] == two[3 * (j - m) + 1]);
            }
        }
    }
    assert forall|k: int| 0 <= k < t.len() implies vertex_in(pts, r, #[trigger] t[k]) by {
        if k < one.len() {
            assert(t[k] == one[k]);
        } else {
            assert(t[k] == two[k - one.len()]);
            assert(vertex_in(pts, s, two[k - one.len()]));
            let h = choose|h: int| #[trigger] s.contains(h) && pts[h].i == t[k];
            assert(r.contains(h));
        }
    }
    assert forall|q: Seq<int>|
        gone(pts, q, two) && (forall|h: int| #[trigger] q.contains(h) ==> s.contains(h)) implies
        #[trigger] gone(pts, q, t) by {
        assert forall|j: int| 0 <= j < t.len() / 3 implies #[trigger] gone_at(pts, q, t, j) by {
            if j < m {
                assert(gone_at(pts, s, one, j));
                if vertex_in(pts, q, t[3 * j + 1]) {
                    let h = choose|h: int| #[trigger] q.contains(h) && pts[h].i == t[3 * j + 1];
                    assert(s.contains(h));
                    assert(vertex_in(pts, s, one[3 * j + 1]));
                }
            } else {
                assert(gone_at(pts, q, two, j - m));
                assert(t[3 * j + 1] == two[3 * (j - m) + 1]);
            }
        }
    }
}

/// A triangle of nodes of the ring with one in the middle that is not in what is left.
proof fn lemma_tip<C>(pts: Seq<Pt<C>>, r: Seq<int>, s: Seq<int>, a: int, b: int, c: int)
    requires
        vertices_differ(pts),
        is_ring(r, pts.len() as int),
        is_ring(s, pts.len() as int),
        r.contains(a),
        r.contains(b),
        r.contains(c),
        !s.contains(b),
    ensures
        tipped(triangle(pts, a, b, c)),
        of_ring(pts, r, triangle(pts, a, b, c)),
        gone(pts, s, triangle(pts, a, b, c)),
{
    let t = triangle(pts, a, b, c);
    let n = pts.len() as int;
    assert(t[0] == pts[a].i && t[1] == pts[b].i && t[2] == pts[c].i);
    assert(vertex_in(pts, r, pts[a].i) && vertex_in(pts, r, pts[b].i) && vertex_in(
        pts,
        r,
        pts[c].i,
    ));
    assert forall|j: int| 0 <= j < t.len() / 3 implies #[trigger] gone_at(pts, s, t, j) by {
        assert(j == 0);
        if vertex_in(pts, s, t[1]) {
            let h = choose|h: int| #[trigger] s.contains(h) && pts[h].i == t[1];
            let k = choose|k: int| 0 <= k < s.len() && s[k] == h;
            let l = choose|l: int| 0 <= l < r.len() && r[l] == b;
            assert(0 <= s[k] < n && 0 <= r[l] < n);
            assert(h == b);
        }
    }
}

/// What is cut off of crossing edges is not in what is left.
proof fn lemma_uncrossed_tips<C: Scalar>(pts: Seq<Pt<C>>, r: Seq<int>, passed: nat)
    requires
        vertices_differ(pts),
        is_ring(r, pts.len() as int),
    ensures
        ({
            let u = uncrossed(pts, r, passed);
            &&& tipped(u.tris)
            &&& of_ring(pts, r, u.tris)
            &&& gone(pts, u.ring, u.tris)
        }),
    decreases r.len(), r.len() - passed,
{
    let n = r.len() as int;
    if curable(pts, r) {
        let rest = r.subrange(3, n).push(r[2]);
        let u = uncrossed(pts, rest, 1);
        lemma_shortcut_ring(r, pts.len() as int);
        lemma_uncrossed_tips(pts, rest, 1);
        lemma_uncrossed_ring(pts, rest, 1, pts.len() as int);
        assert forall|h: int| #[trigger] rest.contains(h) implies r.contains(h) && h != r[0] by {
            let k = choose|k: int| 0 <= k < rest.len() && rest[k] == h;
            if k < n - 3 {
                assert(rest[k] == r[k + 3]);
            } else {
                assert(rest[k] == r[2]);
            }
        }
        assert(r.contains(r[0]) && r.contains(r[2]) && r.contains(r[n - 1]));
        lemma_tip(pts, r, rest, r[n - 1], r[0], r[2]);
        lemma_tips_joined(pts, r, rest, triangle(pts, r[n - 1], r[0], r[2]), u.tris);
        assert(gone(pts, u.ring, triangle(pts, r[n - 1], r[0], r[2]) + u.tris));
    } else if passed + 1 >= r.len() {
    } else {
        lemma_turned_ring(r, pts.len() as int);
        lemma_uncrossed_tips(pts, turned(r), passed + 1);
        lemma_in_larger(pts, turned(r), r, uncrossed(pts, turned(r), passed + 1).tris);
    }
}

/// What is of a ring is of one that has its nodes.
proof fn lemma_in_larger<C>(pts: Seq<Pt<C>>, s: Seq<int>, r: Seq<int>, tris: Seq<usize>)
    requires
        of_ring(pts, s, tris),
        forall|h: int| #[trigger] s.contains(h) ==> r.contains(h),
    ensures
        of_ring(pts, r, tris),
{
    assert forall|k: int| 0 <= k < tris.len() implies vertex_in(pts, r, #[trigger] tris[k]) by {
        assert(vertex_in(pts, s, tris[k]));
        let h = choose|h: int| #[trigger] s.contains(h) && pts[h].i == tris[k];
        assert(r.contains(h));
    }
}

/// What is left of a ring that is not split is sliced into triangles whose middle corners are in no
/// later ones.
proof fn lemma_clipped_tips<C: Scalar>(
    pts: Seq<Pt<C>>,
    r: Seq<int>,
    ord: Seq<int>,
    passed: nat,
    cured_once: bool,
    g: Grid<C>,
)
    requires
        vertices_differ(pts),
        is_ring(r, pts.len() as int),
        clipped(pts, r, ord, passed, cured_once, g).pts.len() == pts.len(),
    ensures
        tipped(clipped(pts, r, ord, passed, cured_once, g).tris),
        of_ring(pts, r, clipped(pts, r, ord, passed, cured_once, g).tris),
    decreases
            r.len(),
            (if cured_once {
                1int
            } else {
                2int
            }),
            r.len() - passed,
{
    let n = pts.len() as int;
    if r.len() <= 2 {
    } else if clippable(pts, r, ord, g) {
        let d = r.drop_first();
        lemma_dropped_ring(r, n);
        lemma_clipped_tips(pts, d, ord, 0, cured_once, g);
        let l = r.len() - 1;
        assert(r.contains(r[0]) && r.contains(r[1]) && r.contains(r[l]));
        assert(!d.contains(r[0])) by {
            if d.contains(r[0]) {
                let k = choose|k: int| 0 <= k < d.len() && d[k] == r[0];
                assert(d[k] == r[k + 1]);
            }
        }
        lemma_tip(pts, r, d, r[l], r[0], r[1]);
        lemma_tips_joined(
            pts,
            r,
            d,
            triangle(pts, r[l], r[0], r[1]),
            clipped(pts, d, ord, 0, cured_once, g).tris,
        );
    } else if passed + 1 < r.len() {
        let t = turned(r);
        lemma_turned_ring(r, n);
        lemma_clipped_tips(pts, t, ord, passed + 1, cured_once, g);
        lemma_in_larger(pts, t, r, clipped(pts, t, ord, passed + 1, cured_once, g).tris);
    } else {
        let t = turned(r);
        let f = swept(pts, t, 0);
        lemma_turned_ring(r, n);
        lemma_swept_ring(pts, t, 0, n);
        lemma_swept_len(pts, t, 0);
        if f.len() < r.len() {
            lemma_clipped_tips(pts, f, ord, 0, cured_once, g);
            lemma_in_larger(pts, f, r, clipped(pts, f, ord, 0, cured_once, g).tris);
        } else if !cured_once {
            let u = uncrossed(pts, f, 0);
            let c = cured(pts, f);
            lemma_uncrossed_tips(pts, f, 0);
            lemma_uncrossed_ring(pts, f, 0, n);
            lemma_swept_ring(pts, u.ring, 0, n);
            lemma_cured_len(pts, f);
            lemma_clipped_tips(pts, c.ring, ord, 0, true, g);
            let rest = clipped(pts, c.ring, ord, 0, true, g).tris;
            lemma_in_larger(pts, c.ring, u.ring, rest);
            lemma_in_larger(pts, f, r, c.tris);
            assert forall|h: int| #[trigger] u.ring.contains(h) implies r.contains(h) by {
                assert(f.contains(h));
            }
            lemma_tips_joined(pts, r, u.ring, c.tris, rest);
        } else {
            lemma_unsplit(pts, f, g);
        }
    }
}

/// Where a ring without ears is not split, it gives no triangle.
proof fn lemma_unsplit<C: Scalar>(pts: Seq<Pt<C>>, r: Seq<int>, g: Grid<C>)
    requires
        is_ring(r, pts.len() as int),
        halved(pts, r, g).pts.len() == pts.len(),
    ensures
        halved(pts, r, g).tris.len() == 0,
{
    let n = pts.len() as int;
    match first_split(pts, r, r.len() as int) {
        None => {},
        Some((s, j)) => {
            lemma_first_split(pts, r, r.len() as int);
            lemma_first_split_ring(pts, r, r.len() as int, n);
            lemma_parts_rings(s, j, n);
            let all = bridged(pts, s[0], s[j]);
            let (near0, far0) = (near_part(s, j), far_part(s, j, n));
            lemma_healed_ring(all, near0, n + 2);
            lemma_healed_ring(all, far0, n + 2);
            let (near, far) = (healed(all, near0), healed(all, far0));
            let one = sliced(all, near, g);
            lemma_sliced(all, near, g, usize::MAX + 1);
            assert(is_ring(far, one.pts.len() as int)) by {
                assert forall|i: int| 0 <= i < far.len() implies 0 <= #[trigger] far[i]
                    < one.pts.len() by {
                    assert(0 <= far[i] < n + 2);
                }
            }
            lemma_sliced(one.pts, far, g, usize::MAX + 1);
        },
    }
}

/// A ring that is not split is sliced corner by corner: the middle corner of each triangle is cut
/// off by it, and in no later one.
pub proof fn lemma_sliced_tips<C: Scalar>(
    pts: Seq<Pt<C>>,
    r: Seq<int>,
    g: Grid<C>,
    j: int,
    k: int,
)
    requires
        vertices_differ(pts),
        is_ring(r, pts.len() as int),
        sliced(pts, r, g).pts.len() == pts.len(),
        0 <= j < k,
        3 * k + 2 < sliced(pts, r, g).tris.len(),
    ensures
        ({
            let t = sliced(pts, r, g).tris;
            &&& t[3 * j + 1] != t[3 * k]
            &&& t[3 * j + 1] != t[3 * k + 1]
            &&& t[3 * j + 1] != t[3 * k + 2]
        }),
{
    if hashed(g) {
        lemma_clipped_tips(pts, r, z_ranked(pts, r, g), 0, false, g);
    } else {
        lemma_clipped_tips(pts, r, Seq::empty(), 0, false, g);
    }
    assert(clear_of(sliced(pts, r, g).tris, j, k));
}

/// The nodes of the outer ring are of vertices of their own.
proof fn lemma_outer_differs(data: Seq<Exact>, dim: int)
    requires
        is_flat(data, Seq::empty(), dim),
        data.len() <= usize::MAX,
        data.len() as int / dim > 0,
    ensures
        vertices_differ(outer_ring(data, Seq::empty(), dim).pts),
        is_ring(
            outer_ring(data, Seq::empty(), dim).ring,
            outer_ring(data, Seq::empty(), dim).pts.len() as int,
        ),
{
    let count = data.len() as int / dim;
    let l = outer_ring(data, Seq::empty(), dim);
    vstd::arithmetic::div_mod::lemma_div_nonincreasing(data.len() as int, dim);
    lemma_listed_ring(Seq::<Pt<Exact>>::empty(), data, dim, 0, count, true);
    assert(l.pts =~= wound(data, dim, 0, count, true));
}

/// A simple polygon with integer coordinates is sliced corner by corner: the middle corner of each
/// triangle is in no later one.
pub proof fn lemma_corner_by_corner(data: Seq<Exact>, dim: int, j: int, k: int)
    requires
        is_flat(data, Seq::empty(), dim),
        integral(data),
        simple(corner_ring(data, dim)),
        0 <= j < k < corner_count(data, dim) - 2,
    ensures
        ({
            let t = triangulation(data, Seq::empty(), dim);
            &&& t[3 * j + 1] != t[3 * k]
            &&& t[3 * j + 1] != t[3 * k + 1]
            &&& t[3 * j + 1] != t[3 * k + 2]
        }),
{
    let l = outer_ring(data, Seq::empty(), dim);
    lemma_ring_read(data, dim);
    let plain = lemma_sliced_plainly(data, dim);
    lemma_simple_sliced(integer(), l.pts, l.ring, plain);
    lemma_outer_differs(data, dim);
    lemma_sliced_tips(l.pts, l.ring, plain, j, k);
}

// ---------------------------------------------------------------------------------------------
// Used vertices
// ---------------------------------------------------------------------------------------------
/// Every node of the ring is a corner.
spec fn used<C>(pts: Seq<Pt<C>>, r: Seq<int>, tris: Seq<usize>) -> bool {
    forall|h: int| #[trigger] r.contains(h) ==> tris.contains(pts[h].i)
}

/// Turning a ring loses no node.
proof fn lemma_turned_whole(r: Seq<int>, h: int)
    requires
        r.contains(h),
    ensures
        turned(r).contains(h),
{
    let k = choose|k: int| 0 <= k < r.len() && r[k] == h;
    assert(turned(r)[before(k, r.len() as int)] == h);
}

/// Sweeping that drops no node loses none.
pub(crate) proof fn lemma_swept_whole<C: Scalar>(pts: Seq<Pt<C>>, r: Seq<int>, checked: nat, h: int)
    requires
        r.contains(h),
        swept(pts, r, checked).len() == r.len(),
    ensures
        swept(pts, r, checked).contains(h),
    decreases r.len(), r.len() - checked,
{
    lemma_turned_whole(r, h);
    if degenerate(pts, r) {
        lemma_swept_len(pts, dropped_back(r), 0);
    } else if checked + 1 >= r.len() {
    } else {
        lemma_swept_whole(pts, turned(r), checked + 1, h);
    }
}

/// Curing that cuts nothing off loses no node.
pub(crate) proof fn lemma_uncrossed_whole<C: Scalar>(
    pts: Seq<Pt<C>>,
    r: Seq<int>,
    passed: nat,
    h: int,
)
    requires
        r.contains(h),
        uncrossed(pts, r, passed).tris.len() == 0,
    ensures
        uncrossed(pts, r, passed).ring.contains(h),
    decreases r.len(), r.len() - passed,
{
    lemma_turned_whole(r, h);
    if curable(pts, r) {
    } else if passed + 1 >= r.len() {
    } else {
        lemma_uncrossed_whole(pts, turned(r), passed + 1, h);
    }
}

/// Dropping backwards that drops no node changes nothing.
proof fn lemma_healed_whole<C: Scalar>(pts: Seq<Pt<C>>, r: Seq<int>, h: int)
    requires
        r.len() > 0,
        r.contains(h),
        healed(pts, r).len() == r.len(),
    ensures
        healed(pts, r).contains(h),
{
    let b = backtracked(pts, r);
    lemma_backtracked_len(pts, r);
    lemma_backtracked_len(pts, turned(b));
    assert(b.len() == r.len());
    if degenerate(pts, r) {
        lemma_backtracked_len(pts, dropped_back(r));
    }
    assert(b == r);
    lemma_turned_whole(r, h);
    let t = turned(b);
    if degenerate(pts, t) {
        lemma_backtracked_len(pts, dropped_back(t));
    }
    assert(backtracked(pts, t) == t);
}

/// A ring that gives as many triangles as it can has all its nodes among their corners.
proof fn lemma_sliced_used<C: Scalar>(pts: Seq<Pt<C>>, r: Seq<int>, g: Grid<C>)
    requires
        is_ring(r, pts.len() as int),
        r.len() >= 3,
        sliced(pts, r, g).tris.len() == 3 * (r.len() - 2),
    ensures
        used(pts, r, sliced(pts, r, g).tris),
    decreases r.len(), 3int, 0int,
{
    if hashed(g) {
        lemma_clipped_used(pts, r, z_ranked(pts, r, g), 0, false, g);
    } else {
        lemma_clipped_used(pts, r, Seq::empty(), 0, false, g);
    }
}

/// What is left of a ring that gives as many triangles as it can has all its nodes among their
/// corners.
proof fn lemma_clipped_used<C: Scalar>(
    pts: Seq<Pt<C>>,
    r: Seq<int>,
    ord: Seq<int>,
    passed: nat,
    cured_once: bool,
    g: Grid<C>,
)
    requires
        is_ring(r, pts.len() as int),
        r.len() >= 3,
        clipped(pts, r, ord, passed, cured_once, g).tris.len() == 3 * (r.len() - 2),
    ensures
        used(pts, r, clipped(pts, r, ord, passed, cured_once, g).tris),
    decreases
            r.len(),
            (if cured_once {
                1int
            } else {
                2int
            }),
            r.len() - passed,
{
    let n = pts.len() as int;
    let count = usize::MAX + 1;
    if clippable(pts, r, ord, g) {
        let d = r.drop_first();
        let l = r.len() - 1;
        let one = triangle(pts, r[l], r[0], r[1]);
        let rest = clipped(pts, d, ord, 0, cured_once, g).tris;
        lemma_dropped_ring(r, n);
        if d.len() >= 3 {
            lemma_clipped_used(pts, d, ord, 0, cured_once, g);
        }
        assert forall|h: int| #[trigger] r.contains(h) implies (one + rest).contains(
            pts[h].i,
        ) by {
            let k = choose|k: int| 0 <= k < r.len() && r[k] == h;
            if k == 0 {
                assert((one + rest)[1] == pts[h].i);
            } else if k == 1 {
                assert((one + rest)[2] == pts[h].i);
            } else if k == l {
                assert((one + rest)[0] == pts[h].i);
            } else {
                assert(d[k - 1] == h);
                assert(d.contains(h));
                let t = choose|t: int| 0 <= t < rest.len() && rest[t] == pts[h].i;
                assert((one + rest)[3 + t] == pts[h].i);
            }
        }
    } else if passed + 1 < r.len() {
        let t = turned(r);
        lemma_turned_ring(r, n);
        lemma_clipped_used(pts, t, ord, passed + 1, cured_once, g);
        lemma_used_whole(pts, t, r, clipped(pts, t, ord, passed + 1, cured_once, g).tris);
    } else {
        let t = turned(r);
        let f = swept(pts, t, 0);
        lemma_turned_ring(r, n);
        lemma_swept_ring(pts, t, 0, n);
        lemma_swept_len(pts, t, 0);
        assert forall|h: int| r.contains(h) && f.len() == r.len() implies #[trigger] f.contains(
            h,
        ) by {
            lemma_turned_whole(r, h);
            lemma_swept_whole(pts, t, 0, h);
        }
        if f.len() < r.len() {
            lemma_clipped(pts, f, ord, 0, cured_once, g, count);
        } else if !cured_once {
            let u = uncrossed(pts, f, 0);
            let c = cured(pts, f);
            let rest = clipped(pts, c.ring, ord, 0, true, g).tris;
            lemma_uncrossed_ring(pts, f, 0, n);
            lemma_swept_ring(pts, u.ring, 0, n);
            lemma_uncrossed_len(pts, f, 0);
            lemma_cured_len(pts, f);
            lemma_clipped(pts, c.ring, ord, 0, true, g, count);
            if f.len() <= 3 {
                lemma_uncrossed_small(pts, f, 0);
            }
            assert(u.tris.len() == 0);
            lemma_clipped_used(pts, u.ring, ord, 0, true, g);
            assert(c.tris + rest =~= rest);
            assert forall|h: int| #[trigger] r.contains(h) implies rest.contains(pts[h].i) by {
                assert(f.contains(h));
                lemma_uncrossed_whole(pts, f, 0, h);
            }
        } else {
            lemma_halved_used(pts, f, g);
            lemma_used_whole(pts, f, r, halved(pts, f, g).tris);
        }
    }
}

/// What is used of a ring is used of one whose nodes it has.
proof fn lemma_used_whole<C>(pts: Seq<Pt<C>>, s: Seq<int>, r: Seq<int>, tris: Seq<usize>)
    requires
        used(pts, s, tris),
        s == turned(r) || forall|h: int| r.contains(h) ==> #[trigger] s.contains(h),
    ensures
        used(pts, r, tris),
{
    assert forall|h: int| #[trigger] r.contains(h) implies tris.contains(pts[h].i) by {
        lemma_turned_whole(r, h);
        assert(s.contains(h));
    }
}

/// The parts of a ring that give as many triangles as they can have all its nodes among their
/// corners.
proof fn lemma_halved_used<C: Scalar>(pts: Seq<Pt<C>>, r: Seq<int>, g: Grid<C>)
    requires
        is_ring(r, pts.len() as int),
        r.len() >= 3,
        halved(pts, r, g).tris.len() == 3 * (r.len() - 2),
    ensures
        used(pts, r, halved(pts, r, g).tris),
    decreases r.len(), 0int, 0int,
{
    let n = pts.len() as int;
    let count = usize::MAX + 1;
    match first_split(pts, r, r.len() as int) {
        None => {},
        Some((s, j)) => {
            lemma_first_split(pts, r, r.len() as int);
            lemma_first_split_ring(pts, r, r.len() as int, n);
            lemma_parts_rings(s, j, n);
            let all = bridged(pts, s[0], s[j]);
            let (near0, far0) = (near_part(s, j), far_part(s, j, n));
            lemma_healed_ring(all, near0, n + 2);
            lemma_healed_ring(all, far0, n + 2);
            lemma_healed_len(all, near0);
            lemma_healed_len(all, far0);
            let (near, far) = (healed(all, near0), healed(all, far0));
            let one = sliced(all, near, g);
            lemma_sliced(all, near, g, count);
            assert(is_ring(far, one.pts.len() as int)) by {
                assert forall|i: int| 0 <= i < far.len() implies 0 <= #[trigger] far[i]
                    < one.pts.len() by {
                    assert(0 <= far[i] < n + 2);
                }
            }
            let two = sliced(one.pts, far, g);
            lemma_sliced(one.pts, far, g, count);
            assert(near0.len() + far0.len() == r.len() + 2);
            assert(near.len() == near0.len() && far.len() == far0.len());
            lemma_sliced_used(all, near, g);
            lemma_sliced_used(one.pts, far, g);
            assert forall|h: int| #[trigger] r.contains(h) implies (one.tris + two.tris).contains(
                pts[h].i,
            ) by {
                lemma_first_split_whole(pts, r, r.len() as int, h);
                let k = choose|k: int| 0 <= k < s.len() && s[k] == h;
                assert(0 <= s[k] < n);
                assert(all[h] == pts[h]);
                if k == 0 || k >= j {
                    assert(near0[if k == 0 {
                        0
                    } else {
                        k - j + 1
                    }] == h);
                    assert(near0.contains(h));
                    lemma_healed_whole(all, near0, h);
                    assert(near.contains(h));
                    let t = choose|t: int| 0 <= t < one.tris.len() && one.tris[t] == pts[h].i;
                    assert((one.tris + two.tris)[t] == pts[h].i);
                } else {
                    assert(far0[k + 1] == h);
                    assert(far0.contains(h));
                    lemma_healed_whole(all, far0, h);
                    assert(far.contains(h));
                    assert(one.pts[h] == all[h]);
                    let t = choose|t: int| 0 <= t < two.tris.len() && two.tris[t] == pts[h].i;
                    assert((one.tris + two.tris)[one.tris.len() + t] == pts[h].i);
                }
            }
        },
    }
}

/// The ring that is split has all nodes.
proof fn lemma_first_split_whole<C: Scalar>(pts: Seq<Pt<C>>, r: Seq<int>, left: int, h: int)
    requires
        r.contains(h),
    ensures
        first_split(pts, r, left) matches Some((s, j)) ==> s.contains(h),
    decreases left,
{
    if left > 0 && first_diagonal(pts, r, 2) is None {
        lemma_turned_whole(r, h);
        lemma_first_split_whole(pts, turned(r), left - 1, h);
    }
}

/// Where a ring of `n` nodes gives `n - 2` triangles, every node of it is a corner of one.
pub proof fn lemma_all_used<C: Scalar>(pts: Seq<Pt<C>>, r: Seq<int>, g: Grid<C>, k: int)
    requires
        is_ring(r, pts.len() as int),
        r.len() >= 3,
        sliced(pts, r, g).tris.len() == 3 * (r.len() - 2),
        0 <= k < r.len(),
    ensures
        sliced(pts, r, g).tris.contains(pts[r[k]].i),
{
    lemma_sliced_used(pts, r, g);
    assert(r.contains(r[k]));
}

/// Every corner of a simple polygon with integer coordinates, without a vertex that closes it, is a
/// corner of a triangle.
pub proof fn lemma_corners_used(data: Seq<Exact>, dim: int, v: int)
    requires
        is_flat(data, Seq::empty(), dim),
        integral(data),
        simple(corner_ring(data, dim)),
        corner_count(data, dim) == data.len() as int / dim,
        0 <= v < data.len() as int / dim,
    ensures
        exists|t: int|
            0 <= t < triangulation(data, Seq::empty(), dim).len() && #[trigger] triangulation(
                data,
                Seq::empty(),
                dim,
            )[t] == v,
{
    let count = data.len() as int / dim;
    let l = outer_ring(data, Seq::empty(), dim);
    lemma_ring_read(data, dim);
    let plain = lemma_sliced_plainly(data, dim);
    lemma_simple_sliced(integer(), l.pts, l.ring, plain);
    lemma_outer_differs(data, dim);
    vstd::arithmetic::div_mod::lemma_div_nonincreasing(data.len() as int, dim);
    let w = wound(data, dim, 0, count, true);
    assert(l.pts =~= w);
    let h = if w[0].i == 0 {
        v
    } else {
        count - 1 - v
    };
    assert(l.pts[h] == w[h] && w[h].i == v);
    assert(l.ring.len() == count);
    let k = if h == count - 1 {
        0
    } else {
        h + 1
    };
    assert(l.ring[k] == h);
    lemma_all_used(l.pts, l.ring, plain, k);
    let t = choose|t: int|
        0 <= t < triangulation(data, Seq::empty(), dim).len() && triangulation(
            data,
            Seq::empty(),
            dim,
        )[t] == v as usize;
    assert(triangulation(data, Seq::empty(), dim)[t] == v);
}

} // verus!
