//! What is measured along edges is kept: where coordinates are computed with exactly, the triangles
//! of a ring that is sliced completely have the area of the ring, and run around the same points.
use vstd::prelude::*;
use crate::bounds::{in_table, lemma_sliced, lemma_turned_in};
use crate::geometry::{hashed, zero, Grid};
use crate::model::{
    area, backtracked, bridged, clippable, clipped, coincide, curable, cured, degenerate,
    dropped_back, far_part, first_split, halved, healed, lemma_cured_len, lemma_first_split,
    lemma_healed_len, lemma_swept_len, near_part, sliced, swept, triangle, turned, turned_to,
    uncrossed, z_ranked, Pt,
};
use crate::scalar::Scalar;

verus! {

/// The cross product of two vectors in the plane.
pub open spec fn cross(a: (int, int), b: (int, int)) -> int {
    a.0 * b.1 - b.0 * a.1
}

/// The area of a triangle, doubled, positive if its corners run counterclockwise.
pub open spec fn tri(a: (int, int), b: (int, int), c: (int, int)) -> int {
    cross(a, b) + cross(b, c) + cross(c, a)
}

/// Something that is measured along edges.
pub type Measure = spec_fn((int, int), (int, int)) -> int;

/// What is measured around a triangle.
pub open spec fn around(m: Measure, a: (int, int), b: (int, int), c: (int, int)) -> int {
    m(a, b) + m(b, c) + m(c, a)
}

/// What is measured changes its sign with the direction of an edge, and adds up along a line.
pub open spec fn measure(m: Measure) -> bool {
    &&& forall|u: (int, int), v: (int, int)| #[trigger] m(u, v) == -m(v, u)
    &&& forall|a: (int, int), b: (int, int), c: (int, int)|
        tri(a, b, c) == 0 ==> #[trigger] around(m, a, b, c) == 0
}

/// The measure of areas, doubled.
pub open spec fn by_area() -> Measure {
    |u: (int, int), v: (int, int)| cross(u, v)
}

/// Areas are measured along edges.
pub(crate) proof fn lemma_by_area()
    ensures
        measure(by_area()),
{
    let m = by_area();
    assert forall|u: (int, int), v: (int, int)| #[trigger] m(u, v) == -m(v, u) by {
        lemma_cross(u, v);
    }
}

/// The integer coordinates of a node.
pub open spec fn spot<C>(val: spec_fn(C) -> int, pts: Seq<Pt<C>>, h: int) -> (int, int) {
    (val(pts[h].x), val(pts[h].y))
}

/// Coordinates are computed with exactly, as the integers that `val` takes them for: where the
/// signed area of three nodes is found below or equal to zero, it is, and nodes that are found to
/// coincide do.
pub open spec fn exact<C: Scalar>(val: spec_fn(C) -> int, pts: Seq<Pt<C>>) -> bool {
    &&& forall|p: int, q: int, r: int|
        0 <= p < pts.len() && 0 <= q < pts.len() && 0 <= r < pts.len() ==> (
        (#[trigger] area(pts, p, q, r)).less_spec(zero::<C>()) ==> tri(
            spot(val, pts, p),
            spot(val, pts, q),
            spot(val, pts, r),
        ) > 0) && (area(pts, p, q, r).same_spec(zero::<C>()) ==> tri(
            spot(val, pts, p),
            spot(val, pts, q),
            spot(val, pts, r),
        ) == 0)
    &&& forall|p: int, q: int|
        0 <= p < pts.len() && 0 <= q < pts.len() && #[trigger] coincide(pts, p, q) ==> spot(
            val,
            pts,
            p,
        ) == spot(val, pts, q)
}

/// What is measured along a path of nodes.
pub open spec fn path_sum<C>(
    m: Measure,
    val: spec_fn(C) -> int,
    pts: Seq<Pt<C>>,
    s: Seq<int>,
) -> int
    decreases s.len(),
{
    if s.len() <= 1 {
        0
    } else {
        path_sum(m, val, pts, s.drop_last()) + m(
            spot(val, pts, s[s.len() - 2]),
            spot(val, pts, s.last()),
        )
    }
}

/// What is measured around a ring.
pub open spec fn ring_sum<C>(
    m: Measure,
    val: spec_fn(C) -> int,
    pts: Seq<Pt<C>>,
    r: Seq<int>,
) -> int {
    path_sum(m, val, pts, r) + m(spot(val, pts, r.last()), spot(val, pts, r[0]))
}

/// The area of a ring, doubled, positive if it runs counterclockwise.
pub open spec fn ring_area<C>(val: spec_fn(C) -> int, pts: Seq<Pt<C>>, r: Seq<int>) -> int {
    ring_sum(by_area(), val, pts, r)
}

/// A point has no cross product with itself.
pub(crate) proof fn lemma_cross(a: (int, int), b: (int, int))
    ensures
        cross(a, a) == 0,
        cross(a, b) == -cross(b, a),
{
    assert(a.0 * b.1 == b.1 * a.0 && b.0 * a.1 == a.1 * b.0) by (nonlinear_arith);
    assert(cross(a, a) == 0) by (nonlinear_arith);
}

/// Along an edge back and forth nothing is measured.
pub(crate) proof fn lemma_back(m: Measure, a: (int, int), b: (int, int))
    requires
        measure(m),
    ensures
        m(a, a) == 0,
        m(a, b) == -m(b, a),
{
    assert(m(a, a) == -m(a, a));
    assert(m(a, b) == -m(b, a));
}

/// Paths put together.
pub(crate) proof fn lemma_path_joined<C>(
    m: Measure,
    val: spec_fn(C) -> int,
    pts: Seq<Pt<C>>,
    s: Seq<int>,
    t: Seq<int>,
)
    requires
        s.len() > 0,
        t.len() > 0,
    ensures
        path_sum(m, val, pts, s + t) == path_sum(m, val, pts, s) + m(
            spot(val, pts, s.last()),
            spot(val, pts, t[0]),
        ) + path_sum(m, val, pts, t),
    decreases t.len(),
{
    let u = s + t;
    assert(u.last() == t.last());
    if t.len() == 1 {
        assert(u.drop_last() =~= s);
    } else {
        assert(u.drop_last() =~= s + t.drop_last());
        assert(u[u.len() - 2] == t[t.len() - 2]);
        lemma_path_joined(m, val, pts, s, t.drop_last());
    }
}

/// Turning a ring keeps what is measured around it.
pub(crate) proof fn lemma_turned_sum<C>(
    m: Measure,
    val: spec_fn(C) -> int,
    pts: Seq<Pt<C>>,
    r: Seq<int>,
)
    requires
        measure(m),
        r.len() > 0,
    ensures
        ring_sum(m, val, pts, turned(r)) == ring_sum(m, val, pts, r),
{
    let a = seq![r[0]];
    let t = r.subrange(1, r.len() as int);
    assert(turned(r) =~= t + a);
    assert(r =~= a + t);
    if t.len() > 0 {
        lemma_path_joined(m, val, pts, a, t);
        lemma_path_joined(m, val, pts, t, a);
        assert(t.last() == r.last());
    } else {
        assert(turned(r) =~= r);
    }
}

/// Seeing a ring from any of its nodes keeps what is measured around it.
pub(crate) proof fn lemma_turned_to_sum<C>(
    m: Measure,
    val: spec_fn(C) -> int,
    pts: Seq<Pt<C>>,
    r: Seq<int>,
    j: int,
)
    requires
        measure(m),
        r.len() > 0,
        0 <= j <= r.len(),
    ensures
        ring_sum(m, val, pts, turned_to(r, j)) == ring_sum(m, val, pts, r),
    decreases j,
{
    if j == 0 {
        assert(turned_to(r, 0) =~= r);
    } else {
        lemma_turned_to_sum(m, val, pts, r, j - 1);
        lemma_turned_sum(m, val, pts, turned_to(r, j - 1));
        assert(turned(turned_to(r, j - 1)) =~= turned_to(r, j));
    }
}

/// Without its first node a ring measures less by the triangle at that node.
pub(crate) proof fn lemma_dropped_sum<C>(
    m: Measure,
    val: spec_fn(C) -> int,
    pts: Seq<Pt<C>>,
    r: Seq<int>,
)
    requires
        measure(m),
        r.len() >= 2,
    ensures
        ring_sum(m, val, pts, r) == ring_sum(m, val, pts, r.drop_first()) + around(
            m,
            spot(val, pts, r.last()),
            spot(val, pts, r[0]),
            spot(val, pts, r[1]),
        ),
        ring_sum(m, val, pts, dropped_back(r)) == ring_sum(m, val, pts, r.drop_first()),
{
    let a = seq![r[0]];
    let t = r.drop_first();
    assert(r =~= a + t);
    lemma_path_joined(m, val, pts, a, t);
    assert(t[0] == r[1] && t.last() == r.last());
    lemma_back(m, spot(val, pts, r[1]), spot(val, pts, r.last()));
    lemma_turned_to_sum(m, val, pts, t, t.len() - 1);
    assert(turned_to(t, t.len() - 1) =~= dropped_back(r));
}

/// Dropping a degenerate node keeps what is measured around the ring.
proof fn lemma_degenerate_sum<C: Scalar>(
    m: Measure,
    val: spec_fn(C) -> int,
    pts: Seq<Pt<C>>,
    r: Seq<int>,
)
    requires
        measure(m),
        exact(val, pts),
        in_table(r, pts.len() as int),
        degenerate(pts, r),
    ensures
        ring_sum(m, val, pts, dropped_back(r)) == ring_sum(m, val, pts, r),
        in_table(dropped_back(r), pts.len() as int),
{
    let n = r.len() as int;
    lemma_dropped_sum(m, val, pts, r);
    let a = spot(val, pts, r[n - 1]);
    let b = spot(val, pts, r[0]);
    let c = spot(val, pts, r[1]);
    assert(0 <= r[n - 1] < pts.len() && 0 <= r[0] < pts.len() && 0 <= r[1] < pts.len());
    if coincide(pts, r[0], r[1]) {
        assert(b == c);
        lemma_back(m, b, b);
        lemma_back(m, a, b);
    } else {
        assert(area(pts, r[n - 1], r[0], r[1]).same_spec(zero::<C>()));
        assert(around(m, a, b, c) == 0);
    }
    let d = dropped_back(r);
    assert forall|k: int| 0 <= k < d.len() implies 0 <= #[trigger] d[k] < pts.len() by {
        if k == 0 {
            assert(d[k] == r[n - 1]);
        } else {
            assert(d[k] == r[k]);
        }
    }
}

/// Dropping degenerate nodes backwards keeps what is measured around the ring.
proof fn lemma_backtracked_sum<C: Scalar>(
    m: Measure,
    val: spec_fn(C) -> int,
    pts: Seq<Pt<C>>,
    r: Seq<int>,
)
    requires
        measure(m),
        exact(val, pts),
        in_table(r, pts.len() as int),
        r.len() > 0,
    ensures
        ring_sum(m, val, pts, backtracked(pts, r)) == ring_sum(m, val, pts, r),
        in_table(backtracked(pts, r), pts.len() as int),
        backtracked(pts, r).len() > 0,
    decreases r.len(),
{
    if degenerate(pts, r) {
        lemma_degenerate_sum(m, val, pts, r);
        lemma_backtracked_sum(m, val, pts, dropped_back(r));
    }
}

/// Healing keeps what is measured around a ring, such as its area.
pub proof fn lemma_healed_sum<C: Scalar>(
    m: Measure,
    val: spec_fn(C) -> int,
    pts: Seq<Pt<C>>,
    r: Seq<int>,
)
    requires
        measure(m),
        exact(val, pts),
        in_table(r, pts.len() as int),
        r.len() > 0,
    ensures
        ring_sum(m, val, pts, healed(pts, r)) == ring_sum(m, val, pts, r),
        in_table(healed(pts, r), pts.len() as int),
        healed(pts, r).len() > 0,
{
    let b = backtracked(pts, r);
    lemma_backtracked_sum(m, val, pts, r);
    lemma_turned_sum(m, val, pts, b);
    lemma_turned_in(b, pts.len() as int);
    lemma_backtracked_sum(m, val, pts, turned(b));
}

/// Sweeping keeps what is measured around a ring, such as its area.
pub proof fn lemma_swept_sum<C: Scalar>(
    m: Measure,
    val: spec_fn(C) -> int,
    pts: Seq<Pt<C>>,
    r: Seq<int>,
    checked: nat,
)
    requires
        measure(m),
        exact(val, pts),
        in_table(r, pts.len() as int),
        r.len() > 0,
    ensures
        ring_sum(m, val, pts, swept(pts, r, checked)) == ring_sum(m, val, pts, r),
        in_table(swept(pts, r, checked), pts.len() as int),
    decreases r.len(), r.len() - checked,
{
    lemma_turned_sum(m, val, pts, r);
    lemma_turned_in(r, pts.len() as int);
    if degenerate(pts, r) {
        lemma_degenerate_sum(m, val, pts, r);
        lemma_swept_sum(m, val, pts, dropped_back(r), 0);
    } else if checked + 1 >= r.len() {
    } else {
        lemma_swept_sum(m, val, pts, turned(r), checked + 1);
    }
}

/// Where nothing is cut off, curing only turns the ring.
proof fn lemma_uncut_sum<C: Scalar>(
    m: Measure,
    val: spec_fn(C) -> int,
    pts: Seq<Pt<C>>,
    r: Seq<int>,
    passed: nat,
)
    requires
        measure(m),
        in_table(r, pts.len() as int),
        r.len() > 0,
        uncrossed(pts, r, passed).tris.len() == 0,
    ensures
        ring_sum(m, val, pts, uncrossed(pts, r, passed).ring) == ring_sum(m, val, pts, r),
        in_table(uncrossed(pts, r, passed).ring, pts.len() as int),
    decreases r.len(), r.len() - passed,
{
    lemma_turned_sum(m, val, pts, r);
    lemma_turned_in(r, pts.len() as int);
    if curable(pts, r) {
    } else if passed + 1 >= r.len() {
    } else {
        lemma_uncut_sum(m, val, pts, turned(r), passed + 1);
    }
}

/// A ring of at most two nodes encloses nothing.
proof fn lemma_small_sum<C>(m: Measure, val: spec_fn(C) -> int, pts: Seq<Pt<C>>, r: Seq<int>)
    requires
        measure(m),
        0 < r.len() <= 2,
    ensures
        ring_sum(m, val, pts, r) == 0,
{
    lemma_back(m, spot(val, pts, r[0]), spot(val, pts, r.last()));
    if r.len() == 2 {
        assert(r.drop_last().len() == 1);
        assert(path_sum(m, val, pts, r.drop_last()) == 0);
    } else {
        assert(r[0] == r.last());
    }
}

/// Doubling nodes keeps coordinates exact.
proof fn lemma_bridged_exact<C: Scalar>(val: spec_fn(C) -> int, pts: Seq<Pt<C>>, a: int, b: int)
    requires
        exact(val, pts),
        0 <= a < pts.len(),
        0 <= b < pts.len(),
    ensures
        exact(val, bridged(pts, a, b)),
        forall|h: int| 0 <= h < pts.len() ==> #[trigger] bridged(pts, a, b)[h] == pts[h],
{
    let all = bridged(pts, a, b);
    let n = pts.len() as int;
    let src = |h: int|
        if h < n {
            h
        } else if h == n {
            a
        } else {
            b
        };
    assert forall|p: int, q: int, r: int|
        0 <= p < all.len() && 0 <= q < all.len() && 0 <= r < all.len() implies ((#[trigger] area(
        all,
        p,
        q,
        r,
    )).less_spec(zero::<C>()) ==> tri(spot(val, all, p), spot(val, all, q), spot(val, all, r)) > 0)
        && (area(all, p, q, r).same_spec(zero::<C>()) ==> tri(
        spot(val, all, p),
        spot(val, all, q),
        spot(val, all, r),
    ) == 0) by {
        assert(area(all, p, q, r) == area(pts, src(p), src(q), src(r)));
    }
    assert forall|p: int, q: int|
        0 <= p < all.len() && 0 <= q < all.len() && #[trigger] coincide(all, p, q) implies spot(
        val,
        all,
        p,
    ) == spot(val, all, q) by {
        assert(coincide(pts, src(p), src(q)));
    }
}

/// What is measured along a path depends on where its nodes are.
pub(crate) proof fn lemma_path_same<C>(
    m: Measure,
    val: spec_fn(C) -> int,
    pts: Seq<Pt<C>>,
    all: Seq<Pt<C>>,
    s: Seq<int>,
)
    requires
        in_table(s, pts.len() as int),
        forall|h: int| 0 <= h < pts.len() ==> #[trigger] all[h] == pts[h],
    ensures
        path_sum(m, val, all, s) == path_sum(m, val, pts, s),
    decreases s.len(),
{
    if s.len() > 1 {
        let n = s.len() as int;
        assert(0 <= s[n - 1] < pts.len() && 0 <= s[n - 2] < pts.len());
        assert(all[s[n - 1]] == pts[s[n - 1]] && all[s[n - 2]] == pts[s[n - 2]]);
        assert forall|k: int| 0 <= k < n - 1 implies 0 <= #[trigger] s.drop_last()[k]
            < pts.len() by {
            assert(s.drop_last()[k] == s[k]);
        }
        lemma_path_same(m, val, pts, all, s.drop_last());
    }
}

/// The parts of a ring that is split share what is measured around it.
proof fn lemma_split_sum<C: Scalar>(
    m: Measure,
    val: spec_fn(C) -> int,
    pts: Seq<Pt<C>>,
    r: Seq<int>,
    j: int,
)
    requires
        measure(m),
        in_table(r, pts.len() as int),
        2 <= j < r.len() - 1,
    ensures
        ({
            let all = bridged(pts, r[0], r[j]);
            ring_sum(m, val, all, near_part(r, j)) + ring_sum(m, val,
                all,
                far_part(r, j, pts.len() as int),
            ) == ring_sum(m, val, pts, r)
        }),
{
    let n = pts.len() as int;
    let len = r.len() as int;
    let all = bridged(pts, r[0], r[j]);
    let head = seq![r[0]];
    let front = r.subrange(1, j);
    let back = r.subrange(j, len);
    let ends = seq![n + 1, n];
    assert(0 <= r[0] < n && 0 <= r[j] < n);
    assert forall|h: int| 0 <= h < n implies #[trigger] all[h] == pts[h] by {}
    assert(all[n].x == pts[r[0]].x && all[n].y == pts[r[0]].y);
    assert(all[n + 1].x == pts[r[j]].x && all[n + 1].y == pts[r[j]].y);
    assert(near_part(r, j) =~= head + back);
    assert(far_part(r, j, n) =~= ends + front);
    assert(r =~= head + front + back);
    lemma_path_same(m, val, pts, all, r);
    lemma_path_joined(m, val, all, head + front, back);
    lemma_path_joined(m, val, all, head, front);
    lemma_path_joined(m, val, all, head, back);
    lemma_path_joined(m, val, all, ends, front);
    assert(path_sum(m, val, all, ends.drop_last()) == 0);
    assert(path_sum(m, val, all, ends) == m(spot(val, all, n + 1), spot(val, all, n)));
    assert((head + front).last() == front.last());
    assert(back.last() == r.last() && back[0] == r[j] && front[0] == r[1]);
    assert(0 <= r[len - 1] < n);
    lemma_back(m, spot(val, pts, r[0]), spot(val, pts, r[j]));
}

// ---------------------------------------------------------------------------------------------
// Triangles
// ---------------------------------------------------------------------------------------------
/// The absolute value.
pub open spec fn abs(n: int) -> int {
    if n < 0 {
        -n
    } else {
        n
    }
}

/// The area of triangles, doubled, where the vertices are at the given places.
pub open spec fn tris_area(at: spec_fn(int) -> (int, int), tris: Seq<usize>) -> int
    decreases tris.len(),
{
    if tris.len() < 3 {
        0
    } else {
        abs(tri(at(tris[0] as int), at(tris[1] as int), at(tris[2] as int))) + tris_area(
            at,
            tris.skip(3),
        )
    }
}

/// What is measured around triangles, where the vertices are at the given places.
pub open spec fn tris_sum(m: Measure, at: spec_fn(int) -> (int, int), tris: Seq<usize>) -> int
    decreases tris.len(),
{
    if tris.len() < 3 {
        0
    } else {
        around(m, at(tris[0] as int), at(tris[1] as int), at(tris[2] as int)) + tris_sum(
            m,
            at,
            tris.skip(3),
        )
    }
}

/// The corners of every triangle run counterclockwise, where the vertices are at the given places.
pub open spec fn all_left(at: spec_fn(int) -> (int, int), tris: Seq<usize>) -> bool
    decreases tris.len(),
{
    tris.len() < 3 || {
        &&& tri(at(tris[0] as int), at(tris[1] as int), at(tris[2] as int)) > 0
        &&& all_left(at, tris.skip(3))
    }
}

/// The nodes of the table are where the vertices are.
pub open spec fn placed<C>(
    val: spec_fn(C) -> int,
    at: spec_fn(int) -> (int, int),
    pts: Seq<Pt<C>>,
) -> bool {
    forall|h: int| 0 <= h < pts.len() ==> at((#[trigger] pts[h]).i as int) == spot(val, pts, h)
}

/// The area of triangles adds up.
pub(crate) proof fn lemma_tris_area(at: spec_fn(int) -> (int, int), s: Seq<usize>, t: Seq<usize>)
    requires
        s.len() % 3 == 0,
    ensures
        tris_area(at, s + t) == tris_area(at, s) + tris_area(at, t),
    decreases s.len(),
{
    if s.len() < 3 {
        assert(s + t =~= t);
    } else {
        assert((s + t).skip(3) =~= s.skip(3) + t);
        lemma_tris_area(at, s.skip(3), t);
    }
}

/// What is measured around triangles adds up.
proof fn lemma_tris_sum(
    m: Measure,
    at: spec_fn(int) -> (int, int),
    s: Seq<usize>,
    t: Seq<usize>,
)
    requires
        s.len() % 3 == 0,
    ensures
        tris_sum(m, at, s + t) == tris_sum(m, at, s) + tris_sum(m, at, t),
        all_left(at, s) && all_left(at, t) ==> all_left(at, s + t),
    decreases s.len(),
{
    if s.len() < 3 {
        assert(s + t =~= t);
    } else {
        assert((s + t).skip(3) =~= s.skip(3) + t);
        lemma_tris_sum(m, at, s.skip(3), t);
    }
}

/// Triangles that run counterclockwise have the area that is measured around them.
pub(crate) proof fn lemma_left_area(at: spec_fn(int) -> (int, int), tris: Seq<usize>)
    requires
        all_left(at, tris),
    ensures
        tris_area(at, tris) == tris_sum(by_area(), at, tris),
    decreases tris.len(),
{
    if tris.len() >= 3 {
        lemma_left_area(at, tris.skip(3));
    }
}

/// A ring that is sliced completely measures as much as its triangles, all of which run
/// counterclockwise.
pub proof fn lemma_sliced_sum<C: Scalar>(
    m: Measure,
    val: spec_fn(C) -> int,
    at: spec_fn(int) -> (int, int),
    pts: Seq<Pt<C>>,
    r: Seq<int>,
    g: Grid<C>,
)
    requires
        measure(m),
        exact(val, pts),
        placed(val, at, pts),
        in_table(r, pts.len() as int),
        r.len() > 0,
        sliced(pts, r, g).complete,
    ensures
        tris_sum(m, at, sliced(pts, r, g).tris) == ring_sum(m, val, pts, r),
        all_left(at, sliced(pts, r, g).tris),
        exact(val, sliced(pts, r, g).pts),
        placed(val, at, sliced(pts, r, g).pts),
    decreases r.len(), 3int, 0int,
{
    let ord = if hashed(g) {
        z_ranked(pts, r, g)
    } else {
        Seq::empty()
    };
    lemma_clipped_sum(m, val, at, pts, r, ord, 0, false, g);
}

/// What is left of a ring that is sliced completely measures as much as its triangles.
proof fn lemma_clipped_sum<C: Scalar>(
    m: Measure,
    val: spec_fn(C) -> int,
    at: spec_fn(int) -> (int, int),
    pts: Seq<Pt<C>>,
    r: Seq<int>,
    ord: Seq<int>,
    passed: nat,
    cured_once: bool,
    g: Grid<C>,
)
    requires
        measure(m),
        exact(val, pts),
        placed(val, at, pts),
        in_table(r, pts.len() as int),
        r.len() > 0,
        clipped(pts, r, ord, passed, cured_once, g).complete,
    ensures
        ({
            let s = clipped(pts, r, ord, passed, cured_once, g);
            &&& tris_sum(m, at, s.tris) == ring_sum(m, val, pts, r)
            &&& all_left(at, s.tris)
            &&& exact(val, s.pts)
            &&& placed(val, at, s.pts)
        }),
    decreases
            r.len(),
            (if cured_once {
                1int
            } else {
                2int
            }),
            r.len() - passed,
{
    let n = pts.len() as int;
    let len = r.len() as int;
    if len <= 2 {
        lemma_small_sum(m, val, pts, r);
    } else if clippable(pts, r, ord, g) {
        let d = r.drop_first();
        assert forall|k: int| 0 <= k < d.len() implies 0 <= #[trigger] d[k] < n by {
            assert(d[k] == r[k + 1]);
        }
        lemma_clipped_sum(m, val, at, pts, d, ord, 0, cured_once, g);
        lemma_dropped_sum(m, val, pts, r);
        assert(0 <= r[len - 1] < n && 0 <= r[0] < n && 0 <= r[1] < n);
        let t = triangle(pts, r[len - 1], r[0], r[1]);
        let rest = clipped(pts, d, ord, 0, cured_once, g);
        assert(at(pts[r[len - 1]].i as int) == spot(val, pts, r[len - 1]));
        assert(at(pts[r[0]].i as int) == spot(val, pts, r[0]));
        assert(at(pts[r[1]].i as int) == spot(val, pts, r[1]));
        assert(area(pts, r[len - 1], r[0], r[1]).less_spec(zero::<C>()));
        assert((t + rest.tris).skip(3) =~= rest.tris);
        assert((t + rest.tris)[0] == t[0] && (t + rest.tris)[1] == t[1] && (t + rest.tris)[2]
            == t[2]);
    } else if passed + 1 < len {
        lemma_turned_sum(m, val, pts, r);
        lemma_turned_in(r, n);
        lemma_clipped_sum(m, val, at, pts, turned(r), ord, passed + 1, cured_once, g);
    } else {
        let t = turned(r);
        let f = swept(pts, t, 0);
        lemma_turned_sum(m, val, pts, r);
        lemma_turned_in(r, n);
        lemma_swept_len(pts, t, 0);
        lemma_swept_sum(m, val, pts, t, 0);
        if f.len() < r.len() {
            lemma_clipped_sum(m, val, at, pts, f, ord, 0, cured_once, g);
        } else if !cured_once {
            let c = cured(pts, f);
            lemma_cured_len(pts, f);
            lemma_uncut_sum(m, val, pts, f, 0);
            lemma_clipped_sum(m, val, at, pts, c.ring, ord, 0, true, g);
            assert(c.tris =~= Seq::<usize>::empty());
            assert(c.tris + clipped(pts, c.ring, ord, 0, true, g).tris =~= clipped(
                pts,
                c.ring,
                ord,
                0,
                true,
                g,
            ).tris);
        } else {
            lemma_halved_sum(m, val, at, pts, f, g);
        }
    }
}

/// The parts of a ring that are sliced completely measure as much as their triangles.
proof fn lemma_halved_sum<C: Scalar>(
    m: Measure,
    val: spec_fn(C) -> int,
    at: spec_fn(int) -> (int, int),
    pts: Seq<Pt<C>>,
    r: Seq<int>,
    g: Grid<C>,
)
    requires
        measure(m),
        exact(val, pts),
        placed(val, at, pts),
        in_table(r, pts.len() as int),
        r.len() > 2,
        halved(pts, r, g).complete,
    ensures
        ({
            let s = halved(pts, r, g);
            &&& tris_sum(m, at, s.tris) == ring_sum(m, val, pts, r)
            &&& all_left(at, s.tris)
            &&& exact(val, s.pts)
            &&& placed(val, at, s.pts)
        }),
    decreases r.len(), 0int, 0int,
{
    let n = pts.len() as int;
    match first_split(pts, r, r.len() as int) {
        None => {},
        Some((s, j)) => {
            lemma_first_split(pts, r, r.len() as int);
            lemma_first_split_sum(m, val, pts, r, r.len() as int);
            assert(0 <= s[0] < n && 0 <= s[j] < n);
            let all = bridged(pts, s[0], s[j]);
            let near0 = near_part(s, j);
            let far0 = far_part(s, j, n);
            lemma_bridged_exact(val, pts, s[0], s[j]);
            lemma_bridged_placed(val, at, pts, s[0], s[j]);
            lemma_split_sum(m, val, pts, s, j);
            assert forall|k: int| 0 <= k < near0.len() implies 0 <= #[trigger] near0[k] < n + 2 by {
                if k == 0 {
                    assert(near0[k] == s[0]);
                } else {
                    assert(near0[k] == s[k + j - 1]);
                }
            }
            assert forall|k: int| 0 <= k < far0.len() implies 0 <= #[trigger] far0[k] < n + 2 by {
                if k >= 2 {
                    assert(far0[k] == s[k - 1]);
                }
            }
            lemma_healed_sum(m, val, all, near0);
            lemma_healed_sum(m, val, all, far0);
            lemma_healed_len(all, near0);
            lemma_healed_len(all, far0);
            let near = healed(all, near0);
            let far = healed(all, far0);
            let one = sliced(all, near, g);
            lemma_sliced_sum(m, val, at, all, near, g);
            lemma_sliced(all, near, g, usize::MAX + 1);
            assert forall|k: int| 0 <= k < far.len() implies 0 <= #[trigger] far[k]
                < one.pts.len() by {
                assert(0 <= far[k] < n + 2);
            }
            lemma_sliced_sum(m, val, at, one.pts, far, g);
            let two = sliced(one.pts, far, g);
            lemma_tris_sum(m, at, one.tris, two.tris);
            assert forall|h: int| 0 <= h < all.len() implies #[trigger] one.pts[h] == all[h] by {}
            lemma_path_same(m, val, all, one.pts, far);
            assert(0 <= far[0] < n + 2 && 0 <= far[far.len() - 1] < n + 2);
            assert(one.pts[far[0]] == all[far[0]]);
            assert(one.pts[far[far.len() - 1]] == all[far[far.len() - 1]]);
        },
    }
}

/// Doubling nodes keeps them where the vertices are.
proof fn lemma_bridged_placed<C>(
    val: spec_fn(C) -> int,
    at: spec_fn(int) -> (int, int),
    pts: Seq<Pt<C>>,
    a: int,
    b: int,
)
    requires
        placed(val, at, pts),
        0 <= a < pts.len(),
        0 <= b < pts.len(),
    ensures
        placed(val, at, bridged(pts, a, b)),
{
    let all = bridged(pts, a, b);
    let n = pts.len() as int;
    assert(at(pts[a].i as int) == spot(val, pts, a) && at(pts[b].i as int) == spot(val, pts, b));
    assert forall|h: int| 0 <= h < all.len() implies at((#[trigger] all[h]).i as int) == spot(
        val,
        all,
        h,
    ) by {
        if h < n {
            assert(at(pts[h].i as int) == spot(val, pts, h));
        }
    }
}

/// A split is of a turn of the ring, which measures the same.
proof fn lemma_first_split_sum<C: Scalar>(
    m: Measure,
    val: spec_fn(C) -> int,
    pts: Seq<Pt<C>>,
    r: Seq<int>,
    left: int,
)
    requires
        measure(m),
        in_table(r, pts.len() as int),
        r.len() > 0,
    ensures
        first_split(pts, r, left) matches Some((s, j)) ==> in_table(s, pts.len() as int)
            && ring_sum(m, val, pts, s) == ring_sum(m, val, pts, r),
    decreases left,
{
    if left > 0 {
        match crate::model::first_diagonal(pts, r, 2) {
            Some(j) => {},
            None => {
                lemma_turned_sum(m, val, pts, r);
                lemma_turned_in(r, pts.len() as int);
                lemma_first_split_sum(m, val, pts, turned(r), left - 1);
            },
        }
    }
}

} // verus!
