//! Slicing does not depend on the scale: rings of magnified points.
use vstd::prelude::*;
use crate::areas::{spot, tri};
use crate::bounds::{in_table, lemma_sliced};
use crate::diagonals::rises;
use crate::exact::{whole, Exact};
use crate::exact_areas::{integer, lemma_corner_area, lemma_whole, LIMIT};
use crate::exact_diagonals::{lemma_beyond_found, lemma_corner, lemma_crossing_found};
use crate::exact_simple::{lemma_boxed, lemma_inside_found, lemma_picked};
use crate::fresh_index::{moderate_node, moderate_table};
use crate::geometry::{hashed, z_order_spec, zero, Grid};
use crate::meeting::{lemma_apart_means, lemma_crossing_means, lemma_meeting, moderate};
use crate::model::{
    after, area, backtracked, before, bridged, clippable, clipped, coincide, curable, cured,
    degenerate, dropped_back, ear_max_z, ear_min_z, edge_meets, far_part, first_diagonal,
    first_split, halved, healed, intersects_polygon_spec, intersects_spec, is_ear_hashed_spec,
    is_ear_spec, lemma_cured_len, lemma_first_split, lemma_healed_len, lemma_swept_len,
    locally_inside_spec, met, met_above, met_below, middle_inside_spec, near_part, obstructs,
    odd_crossings, ray_crosses, sliced, splittable, swept, touches_reflex, turned, uncrossed,
    valid_diagonal, z_at, z_ranked, Pt,
};
use crate::rings::{
    is_ring, lemma_backtracked_ring, lemma_dropped_ring, lemma_first_split_ring, lemma_healed_ring,
    lemma_parts_rings, lemma_swept_ring, lemma_turned_ring, lemma_uncrossed_ring,
};
use crate::scalar::Scalar;
use crate::segments::{apart, crossing, on};
use crate::simple_polygons::spots;
use crate::winding::inside;
use crate::zooming::{
    lemma_zoom_crossing, lemma_zoom_on, lemma_zoom_order, lemma_zoom_tri, lemma_zoomed_at, zoom,
};
use crate::zsort::{lemma_stable_order_exists, stable_order, z_keys};

verus! {

// ---------------------------------------------------------------------------------------------
// Tables of magnified points
// ---------------------------------------------------------------------------------------------
/// The nodes of the second table are those of the first, magnified `k` times, all with integer
/// coordinates of moderate size.
pub open spec fn twins(pts: Seq<Pt<Exact>>, big: Seq<Pt<Exact>>, k: int) -> bool {
    &&& k > 0
    &&& pts.len() == big.len()
    &&& moderate_table(pts)
    &&& moderate_table(big)
    &&& forall|h: int| 0 <= h < pts.len() ==> #[trigger] twin(pts, big, k, h)
}

/// One node is another, magnified `k` times.
pub open spec fn twin(pts: Seq<Pt<Exact>>, big: Seq<Pt<Exact>>, k: int, h: int) -> bool {
    &&& big[h].i == pts[h].i
    &&& big[h].steiner == pts[h].steiner
    &&& big[h].x.num == k * pts[h].x.num
    &&& big[h].y.num == k * pts[h].y.num
}

/// Where a node and its twin are.
pub(crate) proof fn lemma_twin(pts: Seq<Pt<Exact>>, big: Seq<Pt<Exact>>, k: int, h: int)
    requires
        twins(pts, big, k),
        0 <= h < pts.len(),
    ensures
        ({
            let (u, v) = (spot(integer(), pts, h), spot(integer(), big, h));
            &&& v == zoom(u, k)
            &&& moderate(u)
            &&& moderate(v)
            &&& pts[h].x == whole(u.0)
            &&& pts[h].y == whole(u.1)
            &&& big[h].x == whole(v.0)
            &&& big[h].y == whole(v.1)
            &&& big[h].i == pts[h].i
            &&& big[h].steiner == pts[h].steiner
        }),
{
    assert(twin(pts, big, k, h));
    assert(moderate_node(pts[h]) && moderate_node(big[h]));
}

/// Integers and the integers magnified compare alike.
pub(crate) proof fn lemma_compare(a: int, b: int, k: int)
    requires
        k > 0,
        -LIMIT <= a <= LIMIT,
        -LIMIT <= b <= LIMIT,
        -LIMIT <= k * a <= LIMIT,
        -LIMIT <= k * b <= LIMIT,
    ensures
        whole(k * a).less_spec(whole(k * b)) == whole(a).less_spec(whole(b)),
        whole(k * a).same_spec(whole(k * b)) == whole(a).same_spec(whole(b)),
        whole(k * a).at_most_spec(whole(k * b)) == whole(a).at_most_spec(whole(b)),
        whole(a).less_spec(whole(b)) <==> a < b,
        whole(a).same_spec(whole(b)) <==> a == b,
{
    lemma_whole(a, b);
    lemma_whole(k * a, k * b);
    lemma_zoom_order(k, a, b);
}

/// Nodes coincide as their twins do.
pub(crate) proof fn lemma_twin_coincide(
    pts: Seq<Pt<Exact>>,
    big: Seq<Pt<Exact>>,
    k: int,
    a: int,
    b: int,
)
    requires
        twins(pts, big, k),
        0 <= a < pts.len(),
        0 <= b < pts.len(),
    ensures
        coincide(big, a, b) == coincide(pts, a, b),
{
    lemma_twin(pts, big, k, a);
    lemma_twin(pts, big, k, b);
    let (u, v) = (spot(integer(), pts, a), spot(integer(), pts, b));
    lemma_compare(u.0, v.0, k);
    lemma_compare(u.1, v.1, k);
}

/// Three nodes turn as their twins do.
pub(crate) proof fn lemma_twin_area(
    pts: Seq<Pt<Exact>>,
    big: Seq<Pt<Exact>>,
    k: int,
    a: int,
    b: int,
    c: int,
)
    requires
        twins(pts, big, k),
        0 <= a < pts.len(),
        0 <= b < pts.len(),
        0 <= c < pts.len(),
    ensures
        ({
            let (x, y, z) = (area(pts, a, b, c), area(big, a, b, c), zero::<Exact>());
            &&& y.less_spec(z) == x.less_spec(z)
            &&& z.less_spec(y) == z.less_spec(x)
            &&& y.same_spec(z) == x.same_spec(z)
            &&& z.at_most_spec(y) == z.at_most_spec(x)
        }),
{
    lemma_twin(pts, big, k, a);
    lemma_twin(pts, big, k, b);
    lemma_twin(pts, big, k, c);
    let val = integer();
    let (u, v, w) = (spot(val, pts, a), spot(val, pts, b), spot(val, pts, c));
    let (x, y, z) = (zoom(u, k), zoom(v, k), zoom(w, k));
    lemma_corner_area(u.0, u.1, v.0, v.1, w.0, w.1);
    lemma_corner_area(x.0, x.1, y.0, y.1, z.0, z.1);
    lemma_zoom_tri(k, u, v, w);
    let (s, t) = (tri(u, v, w), tri(x, y, z));
    lemma_whole(-s, 0);
    lemma_whole(0, -s);
    lemma_whole(-t, 0);
    lemma_whole(0, -t);
}

/// Segments between nodes meet as those between their twins do.
pub(crate) proof fn lemma_twin_meet(
    pts: Seq<Pt<Exact>>,
    big: Seq<Pt<Exact>>,
    k: int,
    a: int,
    b: int,
    c: int,
    d: int,
    edge: bool,
)
    requires
        twins(pts, big, k),
        0 <= a < pts.len(),
        0 <= b < pts.len(),
        0 <= c < pts.len(),
        0 <= d < pts.len(),
    ensures
        intersects_spec(big, a, b, c, d, edge) == intersects_spec(pts, a, b, c, d, edge),
{
    lemma_twin(pts, big, k, a);
    lemma_twin(pts, big, k, b);
    lemma_twin(pts, big, k, c);
    lemma_twin(pts, big, k, d);
    let val = integer();
    let (u, v, q, w) = (spot(val, pts, a), spot(val, pts, b), spot(val, pts, c), spot(val, pts, d));
    let (x, y, s, t) = (zoom(u, k), zoom(v, k), zoom(q, k), zoom(w, k));
    lemma_meeting(u, v, q, w);
    lemma_meeting(x, y, s, t);
    lemma_apart_means(u, v, q, w);
    lemma_apart_means(x, y, s, t);
    lemma_crossing_means(u, v, q, w);
    lemma_crossing_means(x, y, s, t);
    lemma_zoom_crossing(k, u, v, q, w);
    lemma_zoom_on(k, u, v, q);
    lemma_zoom_on(k, u, v, w);
    lemma_zoom_on(k, q, w, u);
    lemma_zoom_on(k, q, w, v);
    assert(apart(x, y, s, t) == apart(u, v, q, w));
    assert(crossing(x, y, s, t) == crossing(u, v, q, w));
}

/// Doubling nodes keeps tables magnified.
pub(crate) proof fn lemma_twin_bridged(
    pts: Seq<Pt<Exact>>,
    big: Seq<Pt<Exact>>,
    k: int,
    a: int,
    b: int,
)
    requires
        twins(pts, big, k),
        0 <= a < pts.len(),
        0 <= b < pts.len(),
    ensures
        twins(bridged(pts, a, b), bridged(big, a, b), k),
{
    let (p, q) = (bridged(pts, a, b), bridged(big, a, b));
    let n = pts.len() as int;
    assert forall|h: int| 0 <= h < p.len() implies #[trigger] twin(p, q, k, h) && moderate_node(
        p[h],
    ) && moderate_node(q[h]) by {
        let m = if h == n {
            a
        } else if h == n + 1 {
            b
        } else {
            h
        };
        assert(twin(pts, big, k, m));
        assert(moderate_node(pts[m]) && moderate_node(big[m]));
    }
    assert forall|h: int| 0 <= h < p.len() implies moderate_node(#[trigger] p[h]) by {
        assert(twin(p, q, k, h));
    }
    assert forall|h: int| 0 <= h < q.len() implies moderate_node(#[trigger] q[h]) by {
        assert(twin(p, q, k, h));
    }
}

// ---------------------------------------------------------------------------------------------
// Dropping nodes
// ---------------------------------------------------------------------------------------------
/// A node is degenerate if its twin is.
pub(crate) proof fn lemma_twin_degenerate(
    pts: Seq<Pt<Exact>>,
    big: Seq<Pt<Exact>>,
    k: int,
    r: Seq<int>,
)
    requires
        twins(pts, big, k),
        is_ring(r, pts.len() as int),
    ensures
        degenerate(big, r) == degenerate(pts, r),
{
    if r.len() > 1 {
        let n = r.len() as int;
        assert(0 <= r[0] < pts.len() && 0 <= r[1] < pts.len() && 0 <= r[n - 1] < pts.len());
        lemma_twin(pts, big, k, r[0]);
        lemma_twin_coincide(pts, big, k, r[0], r[1]);
        lemma_twin_area(pts, big, k, r[n - 1], r[0], r[1]);
    }
}

/// Dropping degenerate nodes backwards drops the same.
pub(crate) proof fn lemma_twin_backtracked(
    pts: Seq<Pt<Exact>>,
    big: Seq<Pt<Exact>>,
    k: int,
    r: Seq<int>,
)
    requires
        twins(pts, big, k),
        is_ring(r, pts.len() as int),
    ensures
        backtracked(big, r) == backtracked(pts, r),
    decreases r.len(),
{
    lemma_twin_degenerate(pts, big, k, r);
    if degenerate(pts, r) {
        lemma_dropped_ring(r, pts.len() as int);
        lemma_twin_backtracked(pts, big, k, dropped_back(r));
    }
}

/// Healing drops the same.
pub(crate) proof fn lemma_twin_healed(
    pts: Seq<Pt<Exact>>,
    big: Seq<Pt<Exact>>,
    k: int,
    r: Seq<int>,
)
    requires
        twins(pts, big, k),
        is_ring(r, pts.len() as int),
    ensures
        healed(big, r) == healed(pts, r),
{
    let n = pts.len() as int;
    lemma_twin_backtracked(pts, big, k, r);
    lemma_backtracked_ring(pts, r, n);
    lemma_turned_ring(backtracked(pts, r), n);
    lemma_twin_backtracked(pts, big, k, turned(backtracked(pts, r)));
}

/// Sweeping drops the same.
pub(crate) proof fn lemma_twin_swept(
    pts: Seq<Pt<Exact>>,
    big: Seq<Pt<Exact>>,
    k: int,
    r: Seq<int>,
    checked: nat,
)
    requires
        twins(pts, big, k),
        is_ring(r, pts.len() as int),
    ensures
        swept(big, r, checked) == swept(pts, r, checked),
    decreases r.len(), r.len() - checked,
{
    let n = pts.len() as int;
    lemma_twin_degenerate(pts, big, k, r);
    if degenerate(pts, r) {
        lemma_dropped_ring(r, n);
        lemma_twin_swept(pts, big, k, dropped_back(r), 0);
    } else if checked + 1 >= r.len() {
    } else {
        lemma_turned_ring(r, n);
        lemma_twin_swept(pts, big, k, turned(r), checked + 1);
    }
}

// ---------------------------------------------------------------------------------------------
// Ears
// ---------------------------------------------------------------------------------------------
/// Whether a number is between the least and the greatest of three does not depend on the scale.
proof fn lemma_boxed_alike(a: int, b: int, c: int, p: int, k: int)
    requires
        k > 0,
        -LIMIT <= a <= LIMIT,
        -LIMIT <= b <= LIMIT,
        -LIMIT <= c <= LIMIT,
        -LIMIT <= p <= LIMIT,
        -LIMIT <= k * a <= LIMIT,
        -LIMIT <= k * b <= LIMIT,
        -LIMIT <= k * c <= LIMIT,
        -LIMIT <= k * p <= LIMIT,
    ensures
        (whole(a).lower_spec(whole(b)).lower_spec(whole(c)).at_most_spec(whole(p)) && whole(
            p,
        ).at_most_spec(whole(a).upper_spec(whole(b)).upper_spec(whole(c)))) == (whole(
            k * a,
        ).lower_spec(whole(k * b)).lower_spec(whole(k * c)).at_most_spec(whole(k * p)) && whole(
            k * p,
        ).at_most_spec(whole(k * a).upper_spec(whole(k * b)).upper_spec(whole(k * c)))),
{
    lemma_boxed(a, b, c, p);
    lemma_boxed(k * a, k * b, k * c, k * p);
    lemma_zoom_order(k, p, a);
    lemma_zoom_order(k, p, b);
    lemma_zoom_order(k, p, c);
    lemma_zoom_order(k, a, p);
    lemma_zoom_order(k, b, p);
    lemma_zoom_order(k, c, p);
}

/// A node obstructs if its twin does.
proof fn lemma_twin_obstructs(
    pts: Seq<Pt<Exact>>,
    big: Seq<Pt<Exact>>,
    k: int,
    r: Seq<int>,
    m: int,
)
    requires
        twins(pts, big, k),
        is_ring(r, pts.len() as int),
        r.len() >= 3,
        0 <= m < r.len(),
    ensures
        obstructs(big, r, m) == obstructs(pts, r, m),
{
    let n = r.len() as int;
    let (e, f) = (before(m, n), after(m, n));
    assert(0 <= r[0] < pts.len() && 0 <= r[1] < pts.len() && 0 <= r[n - 1] < pts.len() && 0 <= r[m]
        < pts.len() && 0 <= r[e] < pts.len() && 0 <= r[f] < pts.len());
    lemma_twin(pts, big, k, r[n - 1]);
    lemma_twin(pts, big, k, r[0]);
    lemma_twin(pts, big, k, r[1]);
    lemma_twin(pts, big, k, r[m]);
    lemma_twin_area(pts, big, k, r[e], r[m], r[f]);
    let val = integer();
    let (a, b, c, p) = (
        spot(val, pts, r[n - 1]),
        spot(val, pts, r[0]),
        spot(val, pts, r[1]),
        spot(val, pts, r[m]),
    );
    lemma_boxed_alike(a.0, b.0, c.0, p.0, k);
    lemma_boxed_alike(a.1, b.1, c.1, p.1, k);
    lemma_compare(a.0, p.0, k);
    lemma_compare(a.1, p.1, k);
    lemma_inside_found(a, b, c, p);
    lemma_inside_found(zoom(a, k), zoom(b, k), zoom(c, k), zoom(p, k));
    lemma_zoom_tri(k, a, b, p);
    lemma_zoom_tri(k, b, c, p);
    lemma_zoom_tri(k, c, a, p);
    assert(inside(zoom(a, k), zoom(b, k), zoom(c, k), zoom(p, k)) == inside(a, b, c, p));
}

/// The second grid is the first, magnified `k` times.
pub open spec fn twin_grids(g: Grid<Exact>, h: Grid<Exact>, k: int) -> bool {
    ||| !hashed(g) && !hashed(h)
    ||| exists|size: int| #[trigger] grids_by(g, h, k, size)
}

/// The grids are over boxes with the longer side `size`, the second magnified `k` times.
pub open spec fn grids_by(g: Grid<Exact>, h: Grid<Exact>, k: int, size: int) -> bool {
    let (x, y) = (g.min_x.num as int, g.min_y.num as int);
    &&& k > 0
    &&& moderate((x, y))
    &&& moderate((k * x, k * y))
    &&& g.min_x == whole(x)
    &&& g.min_y == whole(y)
    &&& h.min_x == whole(k * x)
    &&& h.min_y == whole(k * y)
    &&& 0 < size
    &&& k * size <= 2 * LIMIT
    &&& size <= 2 * LIMIT
    &&& g.inv_size == whole(32767).over_spec(whole(size))
    &&& h.inv_size == whole(32767).over_spec(whole(k * size))
}

/// A fraction with a common factor.
proof fn lemma_common_factor(p: int, q: int, k: int)
    requires
        q > 0,
        k > 0,
        p >= 0,
    ensures
        (k * p) / (k * q) == p / q,
        k * q > 0,
{
    let (d, m) = (p / q, p % q);
    vstd::arithmetic::div_mod::lemma_fundamental_div_mod(p, q);
    assert(k * p == d * (k * q) + k * m) by (nonlinear_arith)
        requires
            p == q * d + m,
    ;
    assert(0 <= k * m < k * q) by (nonlinear_arith)
        requires
            0 <= m < q,
            k > 0,
    ;
    vstd::arithmetic::div_mod::lemma_fundamental_div_mod_converse(k * p, k * q, d, k * m);
}

/// The cell of a coordinate does not depend on the scale.
proof fn lemma_cell_alike(x: int, min: int, size: int, k: int)
    requires
        k > 0,
        -LIMIT <= x <= LIMIT,
        -LIMIT <= min <= LIMIT,
        -LIMIT <= k * x <= LIMIT,
        -LIMIT <= k * min <= LIMIT,
        0 < size <= 2 * LIMIT,
        k * size <= 2 * LIMIT,
    ensures
        whole(k * x).minus_spec(whole(k * min)).times_spec(
            whole(32767).over_spec(whole(k * size)),
        ).truncated_spec() == whole(x).minus_spec(whole(min)).times_spec(
            whole(32767).over_spec(whole(size)),
        ).truncated_spec(),
{
    let d = x - min;
    assert(k * x - k * min == k * d) by (nonlinear_arith)
        requires
            d == x - min,
    ;
    lemma_common_factor(0, size, k);
    lemma_cell_value(x, min, size);
    lemma_cell_value(k * x, k * min, k * size);
    assert((k * d) * 32767 == k * (d * 32767)) by (nonlinear_arith);
    assert((-(k * d)) * 32767 == k * ((-d) * 32767)) by (nonlinear_arith);
    lemma_zoom_order(k, d, 0);
    if d >= 0 {
        lemma_common_factor(d * 32767, size, k);
    } else {
        lemma_common_factor((-d) * 32767, size, k);
    }
}

/// The cell of a coordinate.
proof fn lemma_cell_value(x: int, min: int, size: int)
    requires
        -LIMIT <= x <= LIMIT,
        -LIMIT <= min <= LIMIT,
        0 < size <= 2 * LIMIT,
    ensures
        ({
            let d = x - min;
            let q = if d < 0 {
                -(((-d) * 32767) / size)
            } else {
                (d * 32767) / size
            };
            whole(x).minus_spec(whole(min)).times_spec(
                whole(32767).over_spec(whole(size)),
            ).truncated_spec() == (if q < i32::MIN {
                i32::MIN
            } else if q > i32::MAX {
                i32::MAX
            } else {
                q as i32
            })
        }),
{
    let d = x - min;
    lemma_whole(x, min);
    let inv = whole(32767).over_spec(whole(size));
    assert(whole(32767).num * whole(size).den == 32767 && whole(32767).den * whole(size).num
        == size) by (nonlinear_arith)
        requires
            whole(32767).num == 32767,
            whole(32767).den == 1,
            whole(size).num == size,
            whole(size).den == 1,
    ;
    assert(inv.num == 32767 && inv.den == size);
    let t = whole(d).times_spec(inv);
    assert(whole(d).num * inv.num == d * 32767 && whole(d).den * inv.den == size) by (
    nonlinear_arith)
        requires
            whole(d).num == d,
            whole(d).den == 1,
            inv.num == 32767,
            inv.den == size,
    ;
    assert(t.num == d * 32767 && t.den == size);
    assert(-t.num == (-d) * 32767);
}

/// The place of a point on the curve does not depend on the scale.
proof fn lemma_z_alike(g: Grid<Exact>, h: Grid<Exact>, k: int, x: int, y: int)
    requires
        twin_grids(g, h, k),
        hashed(g) || hashed(h),
        moderate((x, y)),
        moderate((k * x, k * y)),
    ensures
        z_order_spec(whole(k * x), whole(k * y), h) == z_order_spec(whole(x), whole(y), g),
{
    let size = choose|size: int| #[trigger] grids_by(g, h, k, size);
    lemma_cell_alike(x, g.min_x.num as int, size, k);
    lemma_cell_alike(y, g.min_y.num as int, size, k);
}

/// Magnified grids are used as the grids are.
pub(crate) proof fn lemma_hashed_alike(g: Grid<Exact>, h: Grid<Exact>, k: int)
    requires
        twin_grids(g, h, k),
    ensures
        hashed(h) == hashed(g),
{
    if exists|size: int| #[trigger] grids_by(g, h, k, size) {
        let size = choose|size: int| #[trigger] grids_by(g, h, k, size);
        lemma_common_factor(0, size, k);
        lemma_inverse_used(size);
        lemma_inverse_used(k * size);
    }
}

/// A grid with cells of a length is used.
proof fn lemma_inverse_used(size: int)
    requires
        0 < size <= 2 * LIMIT,
    ensures
        !whole(32767).over_spec(whole(size)).same_spec(zero::<Exact>()),
{
    let inv = whole(32767).over_spec(whole(size));
    assert(whole(32767).num * whole(size).den == 32767 && whole(32767).den * whole(size).num
        == size) by (nonlinear_arith)
        requires
            whole(32767).num == 32767,
            whole(32767).den == 1,
            whole(size).num == size,
            whole(size).den == 1,
    ;
    assert(inv.num == 32767 && inv.den == size);
    let z = zero::<Exact>();
    assert(inv.num * z.den == 32767 && z.num * inv.den == 0) by (nonlinear_arith)
        requires
            z.num == 0,
            z.den == 1,
            inv.num == 32767,
    ;
}

/// The place of a node on the curve is that of its twin.
proof fn lemma_twin_z(
    pts: Seq<Pt<Exact>>,
    big: Seq<Pt<Exact>>,
    k: int,
    g: Grid<Exact>,
    h: Grid<Exact>,
    m: int,
)
    requires
        twins(pts, big, k),
        twin_grids(g, h, k),
        hashed(g),
        0 <= m < pts.len(),
    ensures
        z_at(big, h, m) == z_at(pts, g, m),
{
    lemma_twin(pts, big, k, m);
    let u = spot(integer(), pts, m);
    lemma_z_alike(g, h, k, u.0, u.1);
}

/// The least and the greatest of three integers, and of the integers magnified.
proof fn lemma_ends_alike(a: int, b: int, c: int, k: int) -> (e: (int, int))
    requires
        k > 0,
        -LIMIT <= a <= LIMIT,
        -LIMIT <= b <= LIMIT,
        -LIMIT <= c <= LIMIT,
        -LIMIT <= k * a <= LIMIT,
        -LIMIT <= k * b <= LIMIT,
        -LIMIT <= k * c <= LIMIT,
    ensures
        whole(a).lower_spec(whole(b)).lower_spec(whole(c)) == whole(e.0),
        whole(a).upper_spec(whole(b)).upper_spec(whole(c)) == whole(e.1),
        whole(k * a).lower_spec(whole(k * b)).lower_spec(whole(k * c)) == whole(k * e.0),
        whole(k * a).upper_spec(whole(k * b)).upper_spec(whole(k * c)) == whole(k * e.1),
        e.0 == a || e.0 == b || e.0 == c,
        e.1 == a || e.1 == b || e.1 == c,
{
    let (l, u) = (
        if b < a {
            b
        } else {
            a
        },
        if a < b {
            b
        } else {
            a
        },
    );
    lemma_picked(a, b);
    lemma_picked(l, c);
    lemma_picked(u, c);
    lemma_zoom_order(k, a, b);
    lemma_zoom_order(k, b, a);
    lemma_zoom_order(k, c, l);
    lemma_zoom_order(k, u, c);
    lemma_picked(k * a, k * b);
    lemma_picked(k * l, k * c);
    lemma_picked(k * u, k * c);
    (
        if c < l {
            c
        } else {
            l
        },
        if u < c {
            c
        } else {
            u
        },
    )
}

/// The range of the curve that is searched around a node is that around its twin.
proof fn lemma_twin_range(
    pts: Seq<Pt<Exact>>,
    big: Seq<Pt<Exact>>,
    k: int,
    r: Seq<int>,
    g: Grid<Exact>,
    h: Grid<Exact>,
)
    requires
        twins(pts, big, k),
        twin_grids(g, h, k),
        hashed(g),
        is_ring(r, pts.len() as int),
        r.len() >= 3,
    ensures
        ear_min_z(big, r, h) == ear_min_z(pts, r, g),
        ear_max_z(big, r, h) == ear_max_z(pts, r, g),
{
    let n = r.len() as int;
    assert(0 <= r[0] < pts.len() && 0 <= r[1] < pts.len() && 0 <= r[n - 1] < pts.len());
    lemma_twin(pts, big, k, r[n - 1]);
    lemma_twin(pts, big, k, r[0]);
    lemma_twin(pts, big, k, r[1]);
    let val = integer();
    let (a, b, c) = (spot(val, pts, r[n - 1]), spot(val, pts, r[0]), spot(val, pts, r[1]));
    let (x0, x1) = lemma_ends_alike(a.0, b.0, c.0, k);
    let (y0, y1) = lemma_ends_alike(a.1, b.1, c.1, k);
    lemma_z_alike(g, h, k, x0, y0);
    lemma_z_alike(g, h, k, x1, y1);
}

/// The nodes that are met around a node are those around its twin.
proof fn lemma_twin_met(
    pts: Seq<Pt<Exact>>,
    big: Seq<Pt<Exact>>,
    k: int,
    r: Seq<int>,
    ord: Seq<int>,
    g: Grid<Exact>,
    h: Grid<Exact>,
    m: int,
)
    requires
        twins(pts, big, k),
        twin_grids(g, h, k),
        hashed(g),
        is_ring(r, pts.len() as int),
        in_table(ord, pts.len() as int),
        r.len() >= 3,
    ensures
        met(big, r, ord, h, m) == met(pts, r, ord, g, m),
{
    lemma_twin_range(pts, big, k, r, g, h);
    let (low, high) = (ear_min_z(pts, r, g), ear_max_z(pts, r, g));
    assert forall|j: int| 0 <= j < ord.len() implies z_at(big, h, #[trigger] ord[j]) == z_at(
        pts,
        g,
        ord[j],
    ) by {
        lemma_twin_z(pts, big, k, g, h, ord[j]);
    }
    assert forall|e: int, f: int|
        #![trigger ord[e], ord[f]]
        0 <= e < ord.len() && 0 <= f < ord.len() implies met_below(big, r, ord, h, e, f, low)
        == met_below(pts, r, ord, g, e, f, low) && met_above(big, r, ord, h, e, f, high)
        == met_above(pts, r, ord, g, e, f, high) by {
        if met_below(pts, r, ord, g, e, f, low) {
            assert(met_below(big, r, ord, h, e, f, low));
        }
        if met_below(big, r, ord, h, e, f, low) {
            assert(met_below(pts, r, ord, g, e, f, low));
        }
        if met_above(pts, r, ord, g, e, f, high) {
            assert(met_above(big, r, ord, h, e, f, high));
        }
        if met_above(big, r, ord, h, e, f, high) {
            assert(met_above(pts, r, ord, g, e, f, high));
        }
    }
    if met(pts, r, ord, g, m) {
        let (e, f) = choose|e: int, f: int|
            #![trigger ord[e], ord[f]]
            0 <= e < ord.len() && 0 <= f < ord.len() && ord[e] == r[0] && ord[f] == r[m] && (
            met_below(pts, r, ord, g, e, f, low) || met_above(pts, r, ord, g, e, f, high));
        assert(met_below(big, r, ord, h, e, f, low) || met_above(big, r, ord, h, e, f, high));
    }
    if met(big, r, ord, h, m) {
        let (e, f) = choose|e: int, f: int|
            #![trigger ord[e], ord[f]]
            0 <= e < ord.len() && 0 <= f < ord.len() && ord[e] == r[0] && ord[f] == r[m] && (
            met_below(big, r, ord, h, e, f, low) || met_above(big, r, ord, h, e, f, high));
        assert(met_below(pts, r, ord, g, e, f, low) || met_above(pts, r, ord, g, e, f, high));
    }
}

/// A node is clipped if its twin is.
proof fn lemma_twin_clippable(
    pts: Seq<Pt<Exact>>,
    big: Seq<Pt<Exact>>,
    k: int,
    r: Seq<int>,
    ord: Seq<int>,
    g: Grid<Exact>,
    h: Grid<Exact>,
)
    requires
        twins(pts, big, k),
        twin_grids(g, h, k),
        is_ring(r, pts.len() as int),
        in_table(ord, pts.len() as int),
        r.len() >= 3,
    ensures
        clippable(big, r, ord, h) == clippable(pts, r, ord, g),
{
    let n = r.len() as int;
    lemma_hashed_alike(g, h, k);
    assert(0 <= r[0] < pts.len() && 0 <= r[1] < pts.len() && 0 <= r[n - 1] < pts.len());
    lemma_twin_area(pts, big, k, r[n - 1], r[0], r[1]);
    assert forall|m: int| 0 <= m < n implies #[trigger] obstructs(big, r, m) == obstructs(
        pts,
        r,
        m,
    ) by {
        lemma_twin_obstructs(pts, big, k, r, m);
    }
    if hashed(g) {
        assert forall|m: int| 0 <= m < n implies #[trigger] met(big, r, ord, h, m) == met(
            pts,
            r,
            ord,
            g,
            m,
        ) by {
            lemma_twin_met(pts, big, k, r, ord, g, h, m);
        }
        assert(is_ear_hashed_spec(big, r, ord, h) == is_ear_hashed_spec(pts, r, ord, g)) by {
            if is_ear_hashed_spec(pts, r, ord, g) {
                assert forall|m: int|
                    2 <= m < r.len() && #[trigger] met(big, r, ord, h, m) implies !obstructs(
                    big,
                    r,
                    m,
                ) by {
                    assert(met(pts, r, ord, g, m));
                    assert(!obstructs(pts, r, m));
                }
            }
            if is_ear_hashed_spec(big, r, ord, h) {
                assert forall|m: int|
                    2 <= m < r.len() && #[trigger] met(pts, r, ord, g, m) implies !obstructs(
                    pts,
                    r,
                    m,
                ) by {
                    assert(met(big, r, ord, h, m));
                    assert(!obstructs(big, r, m));
                }
            }
        }
    } else {
        assert(is_ear_spec(big, r) == is_ear_spec(pts, r)) by {
            if is_ear_spec(pts, r) {
                assert forall|m: int| 2 <= m < r.len() - 1 implies !obstructs(big, r, m) by {
                    assert(!obstructs(pts, r, m));
                }
            }
            if is_ear_spec(big, r) {
                assert forall|m: int| 2 <= m < r.len() - 1 implies !obstructs(pts, r, m) by {
                    assert(!obstructs(big, r, m));
                }
            }
        }
    }
}

/// Nodes are in the order of their twins on the curve.
proof fn lemma_twin_ranked(
    pts: Seq<Pt<Exact>>,
    big: Seq<Pt<Exact>>,
    k: int,
    r: Seq<int>,
    g: Grid<Exact>,
    h: Grid<Exact>,
)
    requires
        twins(pts, big, k),
        twin_grids(g, h, k),
        hashed(g),
        is_ring(r, pts.len() as int),
    ensures
        z_ranked(big, r, h) == z_ranked(pts, r, g),
{
    let a = Seq::new(r.len(), |m: int| (z_at(pts, g, r[m]), r[m]));
    let b = Seq::new(r.len(), |m: int| (z_at(big, h, r[m]), r[m]));
    assert(a =~= b) by {
        assert forall|m: int| 0 <= m < r.len() implies a[m] == #[trigger] b[m] by {
            assert(0 <= r[m] < pts.len());
            lemma_twin_z(pts, big, k, g, h, r[m]);
        }
    }
}

// ---------------------------------------------------------------------------------------------
// Self-intersections and diagonals
// ---------------------------------------------------------------------------------------------
/// A node lies in the angle of another if its twin does.
pub(crate) proof fn lemma_twin_angle(
    pts: Seq<Pt<Exact>>,
    big: Seq<Pt<Exact>>,
    k: int,
    r: Seq<int>,
    m: int,
    q: int,
)
    requires
        twins(pts, big, k),
        is_ring(r, pts.len() as int),
        0 <= m < r.len(),
        0 <= q < pts.len(),
    ensures
        locally_inside_spec(big, r, m, q) == locally_inside_spec(pts, r, m, q),
{
    let n = r.len() as int;
    let (e, f) = (before(m, n), after(m, n));
    assert(0 <= r[e] < pts.len() && 0 <= r[m] < pts.len() && 0 <= r[f] < pts.len());
    lemma_twin_area(pts, big, k, r[e], r[m], r[f]);
    lemma_twin_area(pts, big, k, r[m], q, r[f]);
    lemma_twin_area(pts, big, k, r[m], r[e], q);
    lemma_twin_area(pts, big, k, r[m], q, r[e]);
    lemma_twin_area(pts, big, k, r[m], r[f], q);
}

/// Edges before and after an edge cross if their twins do.
proof fn lemma_twin_curable(pts: Seq<Pt<Exact>>, big: Seq<Pt<Exact>>, k: int, r: Seq<int>)
    requires
        twins(pts, big, k),
        is_ring(r, pts.len() as int),
    ensures
        curable(big, r) == curable(pts, r),
{
    let n = r.len() as int;
    if n >= 4 {
        assert(0 <= r[0] < pts.len() && 0 <= r[1] < pts.len() && 0 <= r[2] < pts.len() && 0 <= r[n
            - 1] < pts.len());
        lemma_twin_meet(pts, big, k, r[n - 1], r[0], r[1], r[2], false);
        lemma_twin_angle(pts, big, k, r, n - 1, r[2]);
        lemma_twin_angle(pts, big, k, r, 2, r[n - 1]);
    }
}

/// The ring without two nodes, seen from the one after them, is a ring.
pub(crate) proof fn lemma_shortcut_ring(r: Seq<int>, n: int)
    requires
        is_ring(r, n),
        r.len() >= 4,
    ensures
        is_ring(r.subrange(3, r.len() as int).push(r[2]), n),
{
    let len = r.len() as int;
    let t = r.subrange(3, len).push(r[2]);
    assert forall|i: int| 0 <= i < t.len() implies #[trigger] t[i] == r[if i < len - 3 {
        i + 3
    } else {
        2
    }] by {}
    assert forall|i: int, j: int| 0 <= i < t.len() && 0 <= j < t.len() && i != j implies t[i]
        != t[j] by {}
    assert forall|i: int| 0 <= i < t.len() implies 0 <= #[trigger] t[i] < n by {
        assert(0 <= r[if i < len - 3 {
            i + 3
        } else {
            2
        }] < n);
    }
}

/// The same self-intersections are cut off.
proof fn lemma_twin_uncrossed(
    pts: Seq<Pt<Exact>>,
    big: Seq<Pt<Exact>>,
    k: int,
    r: Seq<int>,
    passed: nat,
)
    requires
        twins(pts, big, k),
        is_ring(r, pts.len() as int),
    ensures
        uncrossed(big, r, passed) == uncrossed(pts, r, passed),
    decreases r.len(), r.len() - passed,
{
    let n = r.len() as int;
    lemma_twin_curable(pts, big, k, r);
    if curable(pts, r) {
        lemma_shortcut_ring(r, pts.len() as int);
        lemma_twin_uncrossed(pts, big, k, r.subrange(3, n).push(r[2]), 1);
        assert(0 <= r[0] < pts.len() && 0 <= r[2] < pts.len() && 0 <= r[n - 1] < pts.len());
        lemma_twin(pts, big, k, r[0]);
        lemma_twin(pts, big, k, r[2]);
        lemma_twin(pts, big, k, r[n - 1]);
    } else if passed + 1 >= r.len() {
    } else {
        lemma_turned_ring(r, pts.len() as int);
        lemma_twin_uncrossed(pts, big, k, turned(r), passed + 1);
    }
}

/// The same self-intersections are cut off, and the same nodes dropped after that.
proof fn lemma_twin_cured(pts: Seq<Pt<Exact>>, big: Seq<Pt<Exact>>, k: int, r: Seq<int>)
    requires
        twins(pts, big, k),
        is_ring(r, pts.len() as int),
    ensures
        cured(big, r) == cured(pts, r),
        is_ring(cured(pts, r).ring, pts.len() as int),
{
    let n = pts.len() as int;
    lemma_twin_uncrossed(pts, big, k, r, 0);
    lemma_uncrossed_ring(pts, r, 0, n);
    let u = uncrossed(pts, r, 0);
    lemma_twin_swept(pts, big, k, u.ring, 0);
    lemma_swept_ring(pts, u.ring, 0, n);
}

/// Both ends beyond others, whatever the scale.
proof fn lemma_beyond_alike(a: int, b: int, c: int, d: int, k: int)
    requires
        k > 0,
        -LIMIT <= a <= LIMIT,
        -LIMIT <= b <= LIMIT,
        -LIMIT <= c <= LIMIT,
        -LIMIT <= d <= LIMIT,
        -LIMIT <= k * a <= LIMIT,
        -LIMIT <= k * b <= LIMIT,
        -LIMIT <= k * c <= LIMIT,
        -LIMIT <= k * d <= LIMIT,
    ensures
        ({
            let (low, high) = (whole(a).lower_spec(whole(b)), whole(a).upper_spec(whole(b)));
            let (l, h) = (
                whole(k * a).lower_spec(whole(k * b)),
                whole(k * a).upper_spec(whole(k * b)),
            );
            &&& (high.less_spec(whole(c)) && high.less_spec(whole(d))) == (h.less_spec(
                whole(k * c),
            ) && h.less_spec(whole(k * d)))
            &&& (whole(c).less_spec(low) && whole(d).less_spec(low)) == (whole(k * c).less_spec(l)
                && whole(k * d).less_spec(l))
        }),
{
    lemma_beyond_found(a, b, c, d);
    lemma_beyond_found(k * a, k * b, k * c, k * d);
    lemma_zoom_order(k, a, c);
    lemma_zoom_order(k, a, d);
    lemma_zoom_order(k, b, c);
    lemma_zoom_order(k, b, d);
    lemma_zoom_order(k, c, a);
    lemma_zoom_order(k, c, b);
    lemma_zoom_order(k, d, a);
    lemma_zoom_order(k, d, b);
}

/// An edge meets a diagonal if its twin does.
proof fn lemma_twin_edge_meets(
    pts: Seq<Pt<Exact>>,
    big: Seq<Pt<Exact>>,
    k: int,
    r: Seq<int>,
    j: int,
    m: int,
)
    requires
        twins(pts, big, k),
        is_ring(r, pts.len() as int),
        0 <= j < r.len(),
        0 <= m < r.len(),
    ensures
        edge_meets(big, r, j, m) == edge_meets(pts, r, j, m),
{
    let n = r.len() as int;
    let f = after(m, n);
    assert(0 <= r[0] < pts.len() && 0 <= r[j] < pts.len() && 0 <= r[m] < pts.len() && 0 <= r[f]
        < pts.len());
    lemma_twin(pts, big, k, r[0]);
    lemma_twin(pts, big, k, r[j]);
    lemma_twin(pts, big, k, r[m]);
    lemma_twin(pts, big, k, r[f]);
    let val = integer();
    let (a, b, p, q) = (
        spot(val, pts, r[0]),
        spot(val, pts, r[j]),
        spot(val, pts, r[m]),
        spot(val, pts, r[f]),
    );
    lemma_beyond_alike(a.0, b.0, p.0, q.0, k);
    lemma_beyond_alike(a.1, b.1, p.1, q.1, k);
    lemma_twin_meet(pts, big, k, r[m], r[f], r[0], r[j], true);
}

/// A diagonal meets the ring if its twin does.
proof fn lemma_twin_intersects(
    pts: Seq<Pt<Exact>>,
    big: Seq<Pt<Exact>>,
    k: int,
    r: Seq<int>,
    j: int,
)
    requires
        twins(pts, big, k),
        is_ring(r, pts.len() as int),
        0 <= j < r.len(),
    ensures
        intersects_polygon_spec(big, r, j) == intersects_polygon_spec(pts, r, j),
{
    assert forall|m: int| 0 <= m < r.len() implies edge_meets(big, r, j, m) == #[trigger]
        edge_meets(pts, r, j, m) by {
        lemma_twin_edge_meets(pts, big, k, r, j, m);
    }
    if intersects_polygon_spec(big, r, j) {
        let m = choose|m: int| 0 <= m < r.len() && edge_meets(big, r, j, m);
        assert(edge_meets(pts, r, j, m));
    }
    if intersects_polygon_spec(pts, r, j) {
        let m = choose|m: int| 0 <= m < r.len() && edge_meets(pts, r, j, m);
        assert(edge_meets(big, r, j, m));
    }
}

/// An edge rises past a point whatever the scale.
proof fn lemma_zoom_rises(k: int, u: (int, int), v: (int, int), q: (int, int))
    requires
        k > 0,
    ensures
        rises(zoom(u, k), zoom(v, k), zoom(q, k)) == rises(u, v, q),
{
    lemma_zoom_tri(k, u, v, q);
    lemma_zoom_order(k, u.1, q.1);
    lemma_zoom_order(k, v.1, q.1);
    lemma_zoom_order(k, q.1, u.1);
    lemma_zoom_order(k, q.1, v.1);
}

/// Magnifying twice, either way.
proof fn lemma_zoom_swapped(p: (int, int), k: int, l: int)
    ensures
        zoom(zoom(p, k), l) == zoom(zoom(p, l), k),
{
    assert(l * (k * p.0) == k * (l * p.0) && l * (k * p.1) == k * (l * p.1)) by (nonlinear_arith);
}

/// An edge crosses the ray from the middle of a diagonal if its twin does.
proof fn lemma_twin_crosses(
    pts: Seq<Pt<Exact>>,
    big: Seq<Pt<Exact>>,
    k: int,
    r: Seq<int>,
    q: (int, int),
    m: int,
)
    requires
        twins(pts, big, k),
        is_ring(r, pts.len() as int),
        0 <= m < r.len(),
        -2 * LIMIT <= q.0 <= 2 * LIMIT,
        -2 * LIMIT <= q.1 <= 2 * LIMIT,
        -2 * LIMIT <= k * q.0 <= 2 * LIMIT,
        -2 * LIMIT <= k * q.1 <= 2 * LIMIT,
    ensures
        ray_crosses(
            big,
            r,
            whole(k * q.0).over_spec(whole(2)),
            whole(k * q.1).over_spec(whole(2)),
            m,
        ) == ray_crosses(pts, r, whole(q.0).over_spec(whole(2)), whole(q.1).over_spec(whole(2)), m),
{
    let f = after(m, r.len() as int);
    let (a, b) = (spots(integer(), pts, r), spots(integer(), big, r));
    lemma_crossing_found(pts, r, q, m);
    lemma_crossing_found(big, r, zoom(q, k), m);
    lemma_zoomed_at(a, 2, m);
    lemma_zoomed_at(b, 2, m);
    assert(0 <= r[m] < pts.len() && 0 <= r[f] < pts.len());
    lemma_twin(pts, big, k, r[m]);
    lemma_twin(pts, big, k, r[f]);
    lemma_corner(pts, r, m);
    lemma_corner(big, r, m);
    lemma_corner(pts, r, f);
    lemma_corner(big, r, f);
    lemma_zoom_swapped(a[m], k, 2);
    lemma_zoom_swapped(a[f], k, 2);
    lemma_zoom_rises(k, zoom(a[m], 2), zoom(a[f], 2), q);
}

/// As many edges cross the ray as twins do.
proof fn lemma_twin_crossings(
    pts: Seq<Pt<Exact>>,
    big: Seq<Pt<Exact>>,
    k: int,
    r: Seq<int>,
    q: (int, int),
    m: int,
)
    requires
        twins(pts, big, k),
        is_ring(r, pts.len() as int),
        0 <= m <= r.len(),
        -2 * LIMIT <= q.0 <= 2 * LIMIT,
        -2 * LIMIT <= q.1 <= 2 * LIMIT,
        -2 * LIMIT <= k * q.0 <= 2 * LIMIT,
        -2 * LIMIT <= k * q.1 <= 2 * LIMIT,
    ensures
        odd_crossings(
            big,
            r,
            whole(k * q.0).over_spec(whole(2)),
            whole(k * q.1).over_spec(whole(2)),
            m,
        ) == odd_crossings(
            pts,
            r,
            whole(q.0).over_spec(whole(2)),
            whole(q.1).over_spec(whole(2)),
            m,
        ),
    decreases m,
{
    if m > 0 {
        lemma_twin_crossings(pts, big, k, r, q, m - 1);
        lemma_twin_crosses(pts, big, k, r, q, m - 1);
    }
}

/// The middle of a diagonal is inside if that of its twin is.
proof fn lemma_twin_middle(
    pts: Seq<Pt<Exact>>,
    big: Seq<Pt<Exact>>,
    k: int,
    r: Seq<int>,
    j: int,
)
    requires
        twins(pts, big, k),
        is_ring(r, pts.len() as int),
        0 <= j < r.len(),
    ensures
        middle_inside_spec(big, r, j) == middle_inside_spec(pts, r, j),
{
    assert(0 <= r[0] < pts.len() && 0 <= r[j] < pts.len());
    lemma_twin(pts, big, k, r[0]);
    lemma_twin(pts, big, k, r[j]);
    let (a, b) = (spot(integer(), pts, r[0]), spot(integer(), pts, r[j]));
    let q = (a.0 + b.0, a.1 + b.1);
    assert(k * q.0 == k * a.0 + k * b.0 && k * q.1 == k * a.1 + k * b.1) by (nonlinear_arith)
        requires
            q.0 == a.0 + b.0,
            q.1 == a.1 + b.1,
    ;
    lemma_whole(a.0, b.0);
    lemma_whole(a.1, b.1);
    lemma_whole(k * a.0, k * b.0);
    lemma_whole(k * a.1, k * b.1);
    lemma_twin_crossings(pts, big, k, r, q, r.len() as int);
}

/// A diagonal is valid if its twin is.
proof fn lemma_twin_splittable(
    pts: Seq<Pt<Exact>>,
    big: Seq<Pt<Exact>>,
    k: int,
    r: Seq<int>,
    j: int,
)
    requires
        twins(pts, big, k),
        is_ring(r, pts.len() as int),
        0 <= j < r.len(),
    ensures
        splittable(big, r, j) == splittable(pts, r, j),
{
    let n = r.len() as int;
    let (e, f) = (before(0, n), after(0, n));
    let (c, d) = (before(j, n), after(j, n));
    assert(0 <= r[0] < pts.len() && 0 <= r[j] < pts.len() && 0 <= r[e] < pts.len() && 0 <= r[f]
        < pts.len() && 0 <= r[c] < pts.len() && 0 <= r[d] < pts.len());
    lemma_twin(pts, big, k, r[0]);
    lemma_twin(pts, big, k, r[j]);
    lemma_twin(pts, big, k, r[f]);
    lemma_twin_coincide(pts, big, k, r[0], r[j]);
    lemma_twin_area(pts, big, k, r[e], r[0], r[f]);
    lemma_twin_area(pts, big, k, r[c], r[j], r[d]);
    lemma_twin_area(pts, big, k, r[e], r[0], r[c]);
    lemma_twin_area(pts, big, k, r[0], r[c], r[j]);
    lemma_twin_angle(pts, big, k, r, 0, r[j]);
    lemma_twin_angle(pts, big, k, r, j, r[0]);
    lemma_twin_intersects(pts, big, k, r, j);
    lemma_twin_middle(pts, big, k, r, j);
    assert(touches_reflex(big, r, j) == touches_reflex(pts, r, j));
    assert(valid_diagonal(big, r, j) == valid_diagonal(pts, r, j));
}

/// The first diagonal is the same.
proof fn lemma_twin_diagonal(
    pts: Seq<Pt<Exact>>,
    big: Seq<Pt<Exact>>,
    k: int,
    r: Seq<int>,
    j: int,
)
    requires
        twins(pts, big, k),
        is_ring(r, pts.len() as int),
        0 <= j,
    ensures
        first_diagonal(big, r, j) == first_diagonal(pts, r, j),
    decreases r.len() - j,
{
    if j < r.len() - 1 {
        lemma_twin_splittable(pts, big, k, r, j);
        lemma_twin_diagonal(pts, big, k, r, j + 1);
    }
}

/// The first split is the same.
proof fn lemma_twin_split(
    pts: Seq<Pt<Exact>>,
    big: Seq<Pt<Exact>>,
    k: int,
    r: Seq<int>,
    left: int,
)
    requires
        twins(pts, big, k),
        is_ring(r, pts.len() as int),
    ensures
        first_split(big, r, left) == first_split(pts, r, left),
    decreases left,
{
    if left > 0 {
        lemma_twin_diagonal(pts, big, k, r, 2);
        lemma_turned_ring(r, pts.len() as int);
        lemma_twin_split(pts, big, k, turned(r), left - 1);
    }
}

// ---------------------------------------------------------------------------------------------
// Slicing
// ---------------------------------------------------------------------------------------------
/// A ring of magnified points is sliced into the same triangles.
pub proof fn lemma_twin_sliced(
    pts: Seq<Pt<Exact>>,
    big: Seq<Pt<Exact>>,
    k: int,
    r: Seq<int>,
    g: Grid<Exact>,
    h: Grid<Exact>,
)
    requires
        twins(pts, big, k),
        twin_grids(g, h, k),
        is_ring(r, pts.len() as int),
    ensures
        sliced(big, r, h).tris == sliced(pts, r, g).tris,
        twins(sliced(pts, r, g).pts, sliced(big, r, h).pts, k),
    decreases r.len(), 3int, 0int,
{
    lemma_hashed_alike(g, h, k);
    if hashed(g) {
        lemma_twin_ranked(pts, big, k, r, g, h);
        let ord = z_ranked(pts, r, g);
        lemma_ranked_table(pts, r, g);
        lemma_twin_clipped(pts, big, k, r, ord, 0, false, g, h);
    } else {
        lemma_twin_clipped(pts, big, k, r, Seq::empty(), 0, false, g, h);
    }
}

/// The nodes of a ring, in z-order, are nodes of the table.
pub(crate) proof fn lemma_ranked_table<C: Scalar>(pts: Seq<Pt<C>>, r: Seq<int>, g: Grid<C>)
    requires
        is_ring(r, pts.len() as int),
    ensures
        in_table(z_ranked(pts, r, g), pts.len() as int),
{
    let keys = z_keys(Seq::new(r.len(), |m: int| (z_at(pts, g, r[m]), r[m])));
    let perm = stable_order(keys);
    lemma_stable_order_exists(keys);
    let ord = z_ranked(pts, r, g);
    assert forall|j: int| 0 <= j < ord.len() implies 0 <= #[trigger] ord[j] < pts.len() by {
        assert(0 <= perm[j] < r.len());
        assert(0 <= r[perm[j]] < pts.len());
    }
}

/// What is left of a ring of magnified points is sliced into the same triangles.
#[verifier::spinoff_prover]
proof fn lemma_twin_clipped(
    pts: Seq<Pt<Exact>>,
    big: Seq<Pt<Exact>>,
    k: int,
    r: Seq<int>,
    ord: Seq<int>,
    passed: nat,
    cured_once: bool,
    g: Grid<Exact>,
    h: Grid<Exact>,
)
    requires
        twins(pts, big, k),
        twin_grids(g, h, k),
        is_ring(r, pts.len() as int),
        in_table(ord, pts.len() as int),
    ensures
        clipped(big, r, ord, passed, cured_once, h).tris == clipped(
            pts,
            r,
            ord,
            passed,
            cured_once,
            g,
        ).tris,
        twins(
            clipped(pts, r, ord, passed, cured_once, g).pts,
            clipped(big, r, ord, passed, cured_once, h).pts,
            k,
        ),
    decreases
            r.len(),
            (if cured_once {
                1int
            } else {
                2int
            }),
            r.len() - passed,
{
    let n = pts.len() as int;
    if r.len() <= 2 {
    } else {
        lemma_twin_clippable(pts, big, k, r, ord, g, h);
        if clippable(pts, r, ord, g) {
            lemma_dropped_ring(r, n);
            lemma_twin_clipped(pts, big, k, r.drop_first(), ord, 0, cured_once, g, h);
            let l = r.len() - 1;
            assert(0 <= r[0] < n && 0 <= r[1] < n && 0 <= r[l] < n);
            lemma_twin(pts, big, k, r[0]);
            lemma_twin(pts, big, k, r[1]);
            lemma_twin(pts, big, k, r[l]);
        } else if passed + 1 < r.len() {
            lemma_turned_ring(r, n);
            lemma_twin_clipped(pts, big, k, turned(r), ord, passed + 1, cured_once, g, h);
        } else {
            let t = turned(r);
            let f = swept(pts, t, 0);
            lemma_turned_ring(r, n);
            lemma_twin_swept(pts, big, k, t, 0);
            lemma_swept_ring(pts, t, 0, n);
            lemma_swept_len(pts, t, 0);
            if f.len() < r.len() {
                lemma_twin_clipped(pts, big, k, f, ord, 0, cured_once, g, h);
            } else if !cured_once {
                lemma_twin_cured(pts, big, k, f);
                lemma_cured_len(pts, f);
                lemma_twin_clipped(pts, big, k, cured(pts, f).ring, ord, 0, true, g, h);
            } else {
                lemma_twin_halved(pts, big, k, f, g, h);
            }
        }
    }
}

/// The parts of a ring of magnified points are sliced into the same triangles.
#[verifier::spinoff_prover]
proof fn lemma_twin_halved(
    pts: Seq<Pt<Exact>>,
    big: Seq<Pt<Exact>>,
    k: int,
    r: Seq<int>,
    g: Grid<Exact>,
    h: Grid<Exact>,
)
    requires
        twins(pts, big, k),
        twin_grids(g, h, k),
        is_ring(r, pts.len() as int),
    ensures
        halved(big, r, h).tris == halved(pts, r, g).tris,
        twins(halved(pts, r, g).pts, halved(big, r, h).pts, k),
    decreases r.len(), 0int, 0int,
{
    let n = pts.len() as int;
    lemma_twin_split(pts, big, k, r, r.len() as int);
    match first_split(pts, r, r.len() as int) {
        None => {},
        Some((s, j)) => {
            lemma_first_split(pts, r, r.len() as int);
            lemma_first_split_ring(pts, r, r.len() as int, n);
            assert(0 <= s[0] < n && 0 <= s[j] < n);
            let (all, wide) = (bridged(pts, s[0], s[j]), bridged(big, s[0], s[j]));
            lemma_twin_bridged(pts, big, k, s[0], s[j]);
            let (near0, far0) = (near_part(s, j), far_part(s, j, n));
            lemma_parts_rings(s, j, n);
            lemma_twin_healed(all, wide, k, near0);
            lemma_twin_healed(all, wide, k, far0);
            lemma_healed_ring(all, near0, n + 2);
            lemma_healed_ring(all, far0, n + 2);
            lemma_healed_len(all, near0);
            lemma_healed_len(all, far0);
            let (near, far) = (healed(all, near0), healed(all, far0));
            lemma_twin_sliced(all, wide, k, near, g, h);
            let (one, uno) = (sliced(all, near, g), sliced(wide, near, h));
            lemma_sliced(all, near, g, usize::MAX + 1);
            assert(is_ring(far, one.pts.len() as int)) by {
                assert forall|i: int| 0 <= i < far.len() implies 0 <= #[trigger] far[i]
                    < one.pts.len() by {
                    assert(0 <= far[i] < n + 2);
                }
            }
            lemma_twin_sliced(one.pts, uno.pts, k, far, g, h);
        },
    }
}

} // verus!
