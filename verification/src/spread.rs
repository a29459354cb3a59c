//! No triangle is flat.
use vstd::prelude::*;
use crate::bounds::{lemma_bridge, lemma_sliced};
use crate::exact::Exact;
use crate::geometry::{hashed, zero, Grid};
use crate::hole_model::{
    bridge, connected, hole_end, in_order, listed, merged, merged_all, outline, queued, vertex_at,
    wound, Outline,
};
use crate::model::{
    area, bridged, clippable, clipped, curable, cured, far_part, first_split, halved, healed,
    lemma_cured_len, lemma_first_split, lemma_healed_len, lemma_swept_len, near_part, sliced, swept,
    triangle, turned, uncrossed, z_ranked, Pt,
};
use crate::polygon_areas::{drawn, lemma_bridged_drawn, vertex_area};
use crate::rings::{
    is_ring, lemma_dropped_ring, lemma_first_split_ring, lemma_healed_ring, lemma_in_order_apart,
    lemma_listed_ring, lemma_merged_all_ring, lemma_parts_rings, lemma_queued_rings,
    lemma_swept_ring, lemma_turned_ring, lemma_uncrossed_ring, lemma_without_holes_ring,
    rings_apart,
};
use crate::scalar::Scalar;
use crate::scaling::lemma_shortcut_ring;
use crate::triangulation::{ear_grid, is_flat, outer_count, outer_ring, single_ring, triangulation};

verus! {

/// The signed area of three vertices is strictly on one side of zero.
pub open spec fn spread<C: Scalar>(data: Seq<C>, dim: int, u: int, v: int, w: int) -> bool {
    let a = vertex_area(data, dim, u, v, w);
    a.less_spec(zero::<C>()) || zero::<C>().less_spec(a)
}

/// The triangle number `k` is not flat.
pub open spec fn spread_at<C: Scalar>(data: Seq<C>, dim: int, tris: Seq<usize>, k: int) -> bool {
    spread(data, dim, tris[3 * k] as int, tris[3 * k + 1] as int, tris[3 * k + 2] as int)
}

/// No triangle is flat.
pub open spec fn all_spread<C: Scalar>(data: Seq<C>, dim: int, tris: Seq<usize>) -> bool {
    &&& tris.len() % 3 == 0
    &&& forall|k: int| 0 <= k < tris.len() / 3 ==> #[trigger] spread_at(data, dim, tris, k)
}

/// Triangles in two parts.
proof fn lemma_parts<C: Scalar>(data: Seq<C>, dim: int, s: Seq<usize>, t: Seq<usize>)
    requires
        all_spread(data, dim, s),
        all_spread(data, dim, t),
    ensures
        all_spread(data, dim, s + t),
        all_spread(data, dim, Seq::empty()),
{
    let n = s.len() as int / 3;
    assert forall|k: int| 0 <= k < (s + t).len() / 3 implies #[trigger] spread_at(
        data,
        dim,
        s + t,
        k,
    ) by {
        if k < n {
            assert(spread_at(data, dim, s, k));
        } else {
            assert(spread_at(data, dim, t, k - n));
            assert((s + t)[3 * k] == t[3 * (k - n)]);
            assert((s + t)[3 * k + 1] == t[3 * (k - n) + 1]);
            assert((s + t)[3 * k + 2] == t[3 * (k - n) + 2]);
        }
    }
}

/// A triangle of nodes.
proof fn lemma_one<C: Scalar>(
    pts: Seq<Pt<C>>,
    data: Seq<C>,
    dim: int,
    a: int,
    b: int,
    c: int,
)
    requires
        drawn(pts, data, dim),
        0 <= a < pts.len(),
        0 <= b < pts.len(),
        0 <= c < pts.len(),
        area(pts, a, b, c).less_spec(zero::<C>()) || zero::<C>().less_spec(area(pts, a, b, c)),
    ensures
        all_spread(data, dim, triangle(pts, a, b, c)),
{
    let t = triangle(pts, a, b, c);
    assert(pts[a].x == data[pts[a].i * dim] && pts[b].x == data[pts[b].i * dim] && pts[c].x
        == data[pts[c].i * dim]);
    assert(spread_at(data, dim, t, 0));
    assert forall|k: int| 0 <= k < t.len() / 3 implies #[trigger] spread_at(data, dim, t, k) by {
        assert(k == 0);
    }
}

// ---------------------------------------------------------------------------------------------
// Slicing
// ---------------------------------------------------------------------------------------------
/// What is cut off of crossing edges is not flat.
proof fn lemma_uncrossed_spread<C: Scalar>(
    pts: Seq<Pt<C>>,
    r: Seq<int>,
    passed: nat,
    data: Seq<C>,
    dim: int,
)
    requires
        drawn(pts, data, dim),
        is_ring(r, pts.len() as int),
    ensures
        all_spread(data, dim, uncrossed(pts, r, passed).tris),
    decreases r.len(), r.len() - passed,
{
    let n = r.len() as int;
    if curable(pts, r) {
        lemma_shortcut_ring(r, pts.len() as int);
        let rest = r.subrange(3, n).push(r[2]);
        lemma_uncrossed_spread(pts, rest, 1, data, dim);
        assert(0 <= r[0] < pts.len() && 0 <= r[2] < pts.len() && 0 <= r[n - 1] < pts.len());
        lemma_one(pts, data, dim, r[n - 1], r[0], r[2]);
        lemma_parts(
            data,
            dim,
            triangle(pts, r[n - 1], r[0], r[2]),
            uncrossed(pts, rest, 1).tris,
        );
    } else if passed + 1 >= r.len() {
    } else {
        lemma_turned_ring(r, pts.len() as int);
        lemma_uncrossed_spread(pts, turned(r), passed + 1, data, dim);
    }
}

/// A ring is sliced into triangles that are not flat.
proof fn lemma_sliced_spread<C: Scalar>(
    pts: Seq<Pt<C>>,
    r: Seq<int>,
    g: Grid<C>,
    data: Seq<C>,
    dim: int,
)
    requires
        drawn(pts, data, dim),
        is_ring(r, pts.len() as int),
    ensures
        all_spread(data, dim, sliced(pts, r, g).tris),
        drawn(sliced(pts, r, g).pts, data, dim),
    decreases r.len(), 3int, 0int,
{
    if hashed(g) {
        lemma_clipped_spread(pts, r, z_ranked(pts, r, g), 0, false, g, data, dim);
    } else {
        lemma_clipped_spread(pts, r, Seq::empty(), 0, false, g, data, dim);
    }
}

/// What is left of a ring is sliced into triangles that are not flat.
proof fn lemma_clipped_spread<C: Scalar>(
    pts: Seq<Pt<C>>,
    r: Seq<int>,
    ord: Seq<int>,
    passed: nat,
    cured_once: bool,
    g: Grid<C>,
    data: Seq<C>,
    dim: int,
)
    requires
        drawn(pts, data, dim),
        is_ring(r, pts.len() as int),
    ensures
        all_spread(data, dim, clipped(pts, r, ord, passed, cured_once, g).tris),
        drawn(clipped(pts, r, ord, passed, cured_once, g).pts, data, dim),
    decreases
            r.len(),
            (if cured_once {
                1int
            } else {
                2int
            }),
            r.len() - passed,
{
    let n = pts.len() as int;
    if r.len() <= 2 {
    } else if clippable(pts, r, ord, g) {
        lemma_dropped_ring(r, n);
        lemma_clipped_spread(pts, r.drop_first(), ord, 0, cured_once, g, data, dim);
        let l = r.len() - 1;
        assert(0 <= r[0] < n && 0 <= r[1] < n && 0 <= r[l] < n);
        lemma_one(pts, data, dim, r[l], r[0], r[1]);
        lemma_parts(
            data,
            dim,
            triangle(pts, r[l], r[0], r[1]),
            clipped(pts, r.drop_first(), ord, 0, cured_once, g).tris,
        );
    } else if passed + 1 < r.len() {
        lemma_turned_ring(r, n);
        lemma_clipped_spread(pts, turned(r), ord, passed + 1, cured_once, g, data, dim);
    } else {
        let t = turned(r);
        let f = swept(pts, t, 0);
        lemma_turned_ring(r, n);
        lemma_swept_ring(pts, t, 0, n);
        lemma_swept_len(pts, t, 0);
        if f.len() < r.len() {
            lemma_clipped_spread(pts, f, ord, 0, cured_once, g, data, dim);
        } else if !cured_once {
            let c = cured(pts, f);
            lemma_uncrossed_spread(pts, f, 0, data, dim);
            lemma_uncrossed_ring(pts, f, 0, n);
            lemma_swept_ring(pts, uncrossed(pts, f, 0).ring, 0, n);
            lemma_cured_len(pts, f);
            lemma_clipped_spread(pts, c.ring, ord, 0, true, g, data, dim);
            lemma_parts(data, dim, c.tris, clipped(pts, c.ring, ord, 0, true, g).tris);
        } else {
            lemma_halved_spread(pts, f, g, data, dim);
        }
    }
}

/// The parts of a ring are sliced into triangles that are not flat.
proof fn lemma_halved_spread<C: Scalar>(
    pts: Seq<Pt<C>>,
    r: Seq<int>,
    g: Grid<C>,
    data: Seq<C>,
    dim: int,
)
    requires
        drawn(pts, data, dim),
        is_ring(r, pts.len() as int),
    ensures
        all_spread(data, dim, halved(pts, r, g).tris),
        drawn(halved(pts, r, g).pts, data, dim),
    decreases r.len(), 0int, 0int,
{
    let n = pts.len() as int;
    match first_split(pts, r, r.len() as int) {
        None => {},
        Some((s, j)) => {
            lemma_first_split(pts, r, r.len() as int);
            lemma_first_split_ring(pts, r, r.len() as int, n);
            assert(0 <= s[0] < n && 0 <= s[j] < n);
            let all = bridged(pts, s[0], s[j]);
            lemma_bridged_drawn(pts, data, dim, s[0], s[j]);
            let (near0, far0) = (near_part(s, j), far_part(s, j, n));
            lemma_parts_rings(s, j, n);
            lemma_healed_ring(all, near0, n + 2);
            lemma_healed_ring(all, far0, n + 2);
            lemma_healed_len(all, near0);
            lemma_healed_len(all, far0);
            let (near, far) = (healed(all, near0), healed(all, far0));
            lemma_sliced_spread(all, near, g, data, dim);
            let one = sliced(all, near, g);
            lemma_sliced(all, near, g, usize::MAX + 1);
            assert(is_ring(far, one.pts.len() as int)) by {
                assert forall|i: int| 0 <= i < far.len() implies 0 <= #[trigger] far[i]
                    < one.pts.len() by {
                    assert(0 <= far[i] < n + 2);
                }
            }
            lemma_sliced_spread(one.pts, far, g, data, dim);
            lemma_parts(data, dim, one.tris, sliced(one.pts, far, g).tris);
        },
    }
}

// ---------------------------------------------------------------------------------------------
// Reading polygons
// ---------------------------------------------------------------------------------------------
/// The vertices that are read are those of the data.
pub(crate) proof fn lemma_read_drawn<C: Scalar>(
    pts: Seq<Pt<C>>,
    data: Seq<C>,
    dim: int,
    from: int,
    to: int,
    clockwise: bool,
)
    requires
        drawn(pts, data, dim),
        dim >= 2,
        data.len() <= usize::MAX,
        0 <= from,
        to <= data.len() as int / dim,
    ensures
        drawn(listed(pts, data, dim, from, to, clockwise).pts, data, dim),
{
    let all = listed(pts, data, dim, from, to, clockwise).pts;
    let w = wound(data, dim, from, to, clockwise);
    vstd::arithmetic::div_mod::lemma_div_nonincreasing(data.len() as int, dim);
    assert forall|h: int| 0 <= h < all.len() implies (#[trigger] all[h]).i < data.len() as int / dim
        && all[h].x == data[all[h].i * dim] && all[h].y == data[all[h].i * dim + 1] by {
        if h < pts.len() {
            assert(all[h] == pts[h]);
        } else {
            assert(all[h] == w[h - pts.len()]);
            assert(all[h] == vertex_at(data, dim, all[h].i as int));
        }
    }
}

/// The vertices of holes that are read are those of the data.
pub(crate) proof fn lemma_queued_drawn<C: Scalar>(
    pts: Seq<Pt<C>>,
    data: Seq<C>,
    dim: int,
    holes: Seq<usize>,
    k: int,
)
    requires
        drawn(pts, data, dim),
        is_flat(data, holes, dim),
        data.len() <= usize::MAX,
        k <= holes.len(),
    ensures
        drawn(queued(pts, data, dim, holes, k).pts, data, dim),
    decreases k,
{
    if k > 0 {
        lemma_queued_drawn(pts, data, dim, holes, k - 1);
        let q = queued(pts, data, dim, holes, k - 1);
        let count = data.len() as int / dim;
        let (from, to) = (holes[k - 1] as int, hole_end(holes, count, k - 1));
        assert(to <= count);
        lemma_read_drawn(q.pts, data, dim, from, to, false);
        let l = listed(q.pts, data, dim, from, to, false);
        if l.ring.len() == 1 {
            let p = l.ring[0];
            let next = l.pts.update(p, Pt { steiner: true, ..l.pts[p] });
            assert(from < to);
            lemma_listed_ring(q.pts, data, dim, from, to, false);
            assert(0 <= l.ring[0] < l.pts.len());
            assert forall|h: int| 0 <= h < next.len() implies (#[trigger] next[h]).i
                < data.len() as int / dim && next[h].x == data[next[h].i * dim] && next[h].y
                == data[next[h].i * dim + 1] by {
                assert(l.pts[h].i < data.len() as int / dim);
            }
        }
    }
}

/// Merging holes keeps the table drawn from the data.
pub(crate) proof fn lemma_merging_drawn<C: Scalar>(
    o: Outline<C>,
    q: Seq<Seq<int>>,
    k: int,
    data: Seq<C>,
    dim: int,
)
    requires
        drawn(o.pts, data, dim),
        is_ring(o.ring, o.pts.len() as int),
        rings_apart(o.ring, q, o.pts.len() as int),
        0 <= k <= q.len(),
    ensures
        drawn(merged_all(o, q, k).pts, data, dim),
    decreases k,
{
    if k > 0 {
        lemma_merging_drawn(o, q, k - 1, data, dim);
        lemma_merged_all_ring(o, q, k - 1);
        let m = merged_all(o, q, k - 1);
        let hole = q[k - 1];
        assert(is_ring(hole, o.pts.len() as int));
        assert(0 <= hole[0] < o.pts.len());
        lemma_bridge(m, hole[0]);
        match bridge(m, hole[0]) {
            None => {},
            Some(b) => {
                let i = m.ring.index_of(b);
                assert(0 <= i < m.ring.len() && m.ring[i] == b);
                assert(0 <= m.ring[i] < m.pts.len());
                lemma_bridged_drawn(m.pts, data, dim, b, hole[0]);
                assert(merged(m, hole).pts == connected(m, hole, b).pts);
            },
        }
    }
}

/// The single ring of a polygon is made of its vertices.
pub(crate) proof fn lemma_ring_drawn<C: Scalar>(data: Seq<C>, holes: Seq<usize>, dim: int)
    requires
        is_flat(data, holes, dim),
        data.len() <= usize::MAX,
        outer_ring(data, holes, dim).ring.len() > 0,
    ensures
        drawn(outer_ring(data, holes, dim).pts, data, dim),
        drawn(single_ring(data, holes, dim).pts, data, dim),
        is_ring(
            single_ring(data, holes, dim).ring,
            single_ring(data, holes, dim).pts.len() as int,
        ),
{
    let count = data.len() as int / dim;
    let outer = outer_count(holes, count);
    let none = Seq::<Pt<C>>::empty();
    let l = outer_ring(data, holes, dim);
    assert(outer <= count);
    assert(outer > 0);
    lemma_read_drawn(none, data, dim, 0, outer, true);
    lemma_listed_ring(none, data, dim, 0, outer, true);
    if holes.len() > 0 {
        let k = holes.len() as int;
        lemma_queued_drawn(l.pts, data, dim, holes, k);
        lemma_queued_rings(l.pts, data, dim, holes, k, l.ring);
        let q = queued(l.pts, data, dim, holes, k);
        let n = q.pts.len() as int;
        lemma_in_order_apart(q.pts, l.ring, q.holes, n);
        let s = in_order(q.pts, q.holes);
        let o = outline(q.pts, l.ring, count);
        assert(is_ring(l.ring, n)) by {
            assert forall|i: int| 0 <= i < l.ring.len() implies 0 <= #[trigger] l.ring[i] < n by {}
        }
        assert(o.ring == l.ring && o.pts == q.pts);
        lemma_merging_drawn(o, s, s.len() as int, data, dim);
        lemma_without_holes_ring(l, data, dim, holes);
    }
}

/// No triangle of a triangulation is flat, whatever the polygon and the arithmetic of its
/// coordinates: the signed area of each is strictly on one side of zero.
pub proof fn lemma_no_flat_triangle<C: Scalar>(data: Seq<C>, holes: Seq<usize>, dim: int)
    requires
        data.len() == 0 || dim == 0 || is_flat(data, holes, dim),
        data.len() <= usize::MAX,
    ensures
        all_spread(data, dim, triangulation(data, holes, dim)),
{
    if data.len() > 0 && dim != 0 && outer_ring(data, holes, dim).ring.len() > 2 {
        lemma_ring_drawn(data, holes, dim);
        let w = single_ring(data, holes, dim);
        let outer = outer_count(holes, data.len() as int / dim);
        lemma_sliced_spread(w.pts, w.ring, ear_grid(data, dim, outer), data, dim);
    }
}

/// With exact coordinates, the three vertices of a triangle are different ones.
pub proof fn lemma_three_vertices(data: Seq<Exact>, holes: Seq<usize>, dim: int, k: int)
    requires
        data.len() == 0 || dim == 0 || is_flat(data, holes, dim),
        data.len() <= usize::MAX,
        0 <= k < triangulation(data, holes, dim).len() / 3,
    ensures
        ({
            let t = triangulation(data, holes, dim);
            &&& t[3 * k] != t[3 * k + 1]
            &&& t[3 * k + 1] != t[3 * k + 2]
            &&& t[3 * k + 2] != t[3 * k]
        }),
{
    let t = triangulation(data, holes, dim);
    let (u, v, w) = (t[3 * k] as int, t[3 * k + 1] as int, t[3 * k + 2] as int);
    lemma_no_flat_triangle(data, holes, dim);
    assert(spread_at(data, dim, t, k));
    let (ux, uy) = (data[u * dim], data[u * dim + 1]);
    let (vx, vy) = (data[v * dim], data[v * dim + 1]);
    let (wx, wy) = (data[w * dim], data[w * dim + 1]);
    if u == w {
        Exact::lemma_no_turn(ux, uy, vx, vy);
    }
    if u == v {
        lemma_null(uy, ux, wx, wy);
    }
    if v == w {
        lemma_null_back(ux, uy, vx, vy);
    }
}

/// The difference of a number and itself is zero, or not a number.
proof fn lemma_null_difference(x: Exact)
    ensures
        x.minus_spec(x).num == 0,
{
}

/// A product with zero.
proof fn lemma_null_product(a: Exact, b: Exact)
    requires
        a.num == 0 || b.num == 0,
    ensures
        a.times_spec(b).num == 0,
{
    assert(a.num * b.num == 0) by (nonlinear_arith)
        requires
            a.num == 0 || b.num == 0,
    ;
}

/// The difference of two values that are zero or not a number is neither above nor below zero.
proof fn lemma_null_sum(a: Exact, b: Exact)
    requires
        a.num == 0,
        b.num == 0,
    ensures
        !a.minus_spec(b).less_spec(zero::<Exact>()),
        !zero::<Exact>().less_spec(a.minus_spec(b)),
{
    let d = a.minus_spec(b);
    let z = zero::<Exact>();
    assert(a.num * b.den == 0 && b.num * a.den == 0) by (nonlinear_arith)
        requires
            a.num == 0,
            b.num == 0,
    ;
    assert(d.num == 0);
    assert(d.num * z.den == 0 && z.num * d.den == 0) by (nonlinear_arith)
        requires
            d.num == 0,
            z.num == 0,
    ;
}

/// A triangle whose first two corners are one point.
proof fn lemma_null(uy: Exact, ux: Exact, wx: Exact, wy: Exact)
    ensures
        ({
            let a = uy.minus_spec(uy).times_spec(wx.minus_spec(ux)).minus_spec(
                ux.minus_spec(ux).times_spec(wy.minus_spec(uy)),
            );
            !a.less_spec(zero::<Exact>()) && !zero::<Exact>().less_spec(a)
        }),
{
    lemma_null_difference(uy);
    lemma_null_difference(ux);
    lemma_null_product(uy.minus_spec(uy), wx.minus_spec(ux));
    lemma_null_product(ux.minus_spec(ux), wy.minus_spec(uy));
    lemma_null_sum(
        uy.minus_spec(uy).times_spec(wx.minus_spec(ux)),
        ux.minus_spec(ux).times_spec(wy.minus_spec(uy)),
    );
}

/// A triangle whose last two corners are one point.
proof fn lemma_null_back(ux: Exact, uy: Exact, vx: Exact, vy: Exact)
    ensures
        ({
            let a = vy.minus_spec(uy).times_spec(vx.minus_spec(vx)).minus_spec(
                vx.minus_spec(ux).times_spec(vy.minus_spec(vy)),
            );
            !a.less_spec(zero::<Exact>()) && !zero::<Exact>().less_spec(a)
        }),
{
    lemma_null_difference(vx);
    lemma_null_difference(vy);
    lemma_null_product(vy.minus_spec(uy), vx.minus_spec(vx));
    lemma_null_product(vx.minus_spec(ux), vy.minus_spec(vy));
    lemma_null_sum(
        vy.minus_spec(uy).times_spec(vx.minus_spec(vx)),
        vx.minus_spec(ux).times_spec(vy.minus_spec(vy)),
    );
}

} // verus!
