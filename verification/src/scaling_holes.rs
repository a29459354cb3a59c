//! Triangulations do not depend on the scale.
use vstd::prelude::*;
use crate::areas::{abs, by_area, spot};
use crate::bounds::{
    in_table, lemma_bridge, lemma_in_order_ok, lemma_leftmost, lemma_ray_blocks_in,
    lemma_ray_over_in,
};
use crate::covering::{
    covered, edge_covered, lemma_boxes_cover, lemma_connected_covered, lemma_healed_covered,
    lemma_turned_to_covered, valued,
};
use crate::exact::{fraction, whole, Exact};
use crate::exact_areas::{
    integer, integral, lemma_bounded, lemma_loop, lemma_vertex_coordinates, lemma_whole, LIMIT,
};
use crate::exact_measures::lemma_walk_shifted;
use crate::exact_polygons::{lemma_extent, lemma_plain_ranked, plain_rank, plain_values, vertex_xy};
use crate::exact_simple::{finer, lemma_extent_covers, lemma_finer_sign, lemma_picked};
use crate::fresh_index::{
    lemma_fraction_order, lemma_fraction_times, lemma_hit, lemma_order, lemma_over_sound,
    lemma_product_found, lemma_whole_order, moderate_node, moderate_table, sound, value,
};
use crate::geometry::{point_in_triangle_spec, signed_area_spec, zero};
use crate::hole_model::{
    bridge, chunk_start, closed_ring, comes_after, connected, healed_outline, hole_end, in_order,
    in_reach, indexed, joined, lean_blocks, lean_node, lean_over, lean_skips, leftmost, listed,
    merged, merged_all, outline, put_in, queued, ray_blocks, ray_cast, ray_edge, ray_hit, ray_over,
    ray_skips, ray_start, run_box, run_next, sector_contains, seen_from, slit_healed, slit_run,
    slope, vertex_at, with_edge, wound, Lean, Outline, Ray, BLOCK_INDEX_MIN_NODES,
};
use crate::meeting::moderate;
use crate::model::{
    after, backtracked, backtracked_boxes, before, bridged, degenerate, dropped_back, grown_box,
    succ, turned, BBox, Pt,
};
use crate::polygon_areas::{corners, loop_area, sign_found};
use crate::rings::{
    apart_from, is_ring, lemma_backtracked_nodes, lemma_backtracked_ring, lemma_dropped_ring,
    lemma_healed_nodes, lemma_healed_ring, lemma_in_order_apart, lemma_joined_ring,
    lemma_listed_ring, lemma_merged_all_ring, lemma_queued_rings, lemma_swept_ring,
    lemma_turned_ring, lemma_turned_to_ring, rings_apart,
};
use crate::scalar::Scalar;
use crate::scaling::{
    grids_by, lemma_compare, lemma_twin, lemma_twin_angle, lemma_twin_area, lemma_twin_backtracked,
    lemma_twin_bridged, lemma_twin_coincide, lemma_twin_degenerate, lemma_twin_healed,
    lemma_twin_sliced, lemma_twin_swept, twin, twin_grids, twins,
};
use crate::triangulation::{
    ear_grid, extent, grid_over, is_flat, outer_count, outer_ring, single_ring, triangulation,
    HASH_MIN_VERTICES,
};
use crate::zooming::{lemma_zoom_order, zoom};

verus! {

// ---------------------------------------------------------------------------------------------
// Values at two scales
// ---------------------------------------------------------------------------------------------
/// The second value is the first with its numerator multiplied by `a` and its denominator by `b`,
/// or both are infinite.
spec fn scaled(u: Exact, w: Exact, a: int, b: int) -> bool {
    &&& value(u)
    &&& value(w)
    &&& (u.den == 0 && w == u) || (u.den > 0 && w.num == a * u.num && w.den == b * u.den)
}

/// Products of scaled numbers.
proof fn lemma_scaled_products(a: int, b: int, c: int, d: int, x: int, y: int, s: int, t: int)
    requires
        a > 0,
        d > 0,
        a * d == c * b,
    ensures
        (a * x) * (d * y) < (c * s) * (b * t) <==> x * y < s * t,
{
    let m = a * d;
    assert((a * x) * (d * y) == m * (x * y)) by (nonlinear_arith)
        requires
            m == a * d,
    ;
    assert((c * s) * (b * t) == m * (s * t)) by (nonlinear_arith)
        requires
            m == c * b,
    ;
    assert(m > 0) by (nonlinear_arith)
        requires
            m == a * d,
            a > 0,
            d > 0,
    ;
    lemma_zoom_order(m, x * y, s * t);
}

/// Values compare as the scaled values do.
proof fn lemma_scaled_order(
    u: Exact,
    w: Exact,
    a: int,
    b: int,
    v: Exact,
    x: Exact,
    c: int,
    d: int,
)
    requires
        scaled(u, w, a, b),
        scaled(v, x, c, d),
        a > 0,
        b > 0,
        c > 0,
        d > 0,
        a * d == c * b,
    ensures
        w.less_spec(x) == u.less_spec(v),
        x.less_spec(w) == v.less_spec(u),
        w.at_most_spec(x) == u.at_most_spec(v),
        x.at_most_spec(w) == v.at_most_spec(u),
        w.same_spec(x) == u.same_spec(v),
{
    lemma_order(u, v);
    lemma_order(v, u);
    lemma_order(w, x);
    lemma_order(x, w);
    assert(u.den > 0 ==> b * u.den > 0) by (nonlinear_arith)
        requires
            b > 0,
    ;
    assert(v.den > 0 ==> d * v.den > 0) by (nonlinear_arith)
        requires
            d > 0,
    ;
    if u.den > 0 && v.den > 0 {
        lemma_scaled_products(
            a,
            b,
            c,
            d,
            u.num as int,
            v.den as int,
            v.num as int,
            u.den as int,
        );
        lemma_scaled_products(
            c,
            d,
            a,
            b,
            v.num as int,
            u.den as int,
            u.num as int,
            v.den as int,
        );
    }
}

/// The lesser and the greater of values, and of the scaled values.
proof fn lemma_scaled_picks(u: Exact, w: Exact, v: Exact, x: Exact, k: int)
    requires
        k > 0,
        scaled(u, w, k, 1),
        scaled(v, x, k, 1),
    ensures
        scaled(u.lower_spec(v), w.lower_spec(x), k, 1),
        scaled(u.upper_spec(v), w.upper_spec(x), k, 1),
        plain_values().contains(u) && plain_values().contains(v) ==> plain_values().contains(
            u.lower_spec(v),
        ) && plain_values().contains(u.upper_spec(v)),
{
    lemma_scaled_order(u, w, k, 1, v, x, k, 1);
}

/// The coordinates of a node and its twin.
proof fn lemma_twin_scaled(pts: Seq<Pt<Exact>>, big: Seq<Pt<Exact>>, k: int, h: int)
    requires
        twins(pts, big, k),
        0 <= h < pts.len(),
    ensures
        scaled(pts[h].x, big[h].x, k, 1),
        scaled(pts[h].y, big[h].y, k, 1),
{
    lemma_twin(pts, big, k, h);
}

// ---------------------------------------------------------------------------------------------
// Reading rings
// ---------------------------------------------------------------------------------------------
/// The coordinates of the second polygon are those of the first, multiplied by `k`.
pub open spec fn magnified(data: Seq<Exact>, other: Seq<Exact>, k: int) -> bool {
    &&& k > 0
    &&& data.len() == other.len()
    &&& integral(data)
    &&& integral(other)
    &&& forall|i: int| 0 <= i < data.len() ==> (#[trigger] other[i]).num == k * data[i].num
}

/// The sign of the area of a ring does not depend on the scale.
proof fn lemma_sign_alike(data: Seq<Exact>, other: Seq<Exact>, k: int, dim: int, from: int, to: int)
    requires
        magnified(data, other, k),
        dim >= 2,
        0 <= from,
        0 <= to <= data.len() as int / dim,
    ensures
        zero::<Exact>().less_spec(signed_area_spec(other, from * dim, to * dim, dim))
            == zero::<Exact>().less_spec(signed_area_spec(data, from * dim, to * dim, dim)),
{
    if from < to {
        let (at, bt, ct) = (
            corners(integer(), data, dim),
            corners(integer(), other, dim),
            corners(finer(k), data, dim),
        );
        lemma_loop(data, dim, from, to);
        lemma_loop(other, dim, from, to);
        lemma_whole(0, loop_area(at, from, to));
        lemma_whole(0, loop_area(bt, from, to));
        assert(sign_found(integer(), data, dim, from, to));
        lemma_finer_sign(data, dim, k, from, to);
        assert forall|v: int| from <= v < to implies #[trigger] bt(v) == ct(v + 0) by {
            lemma_vertex_coordinates(data, dim, v);
            assert(other[v * dim].num == k * data[v * dim].num);
            assert(other[v * dim + 1].num == k * data[v * dim + 1].num);
        }
        lemma_walk_shifted(by_area(), ct, bt, from, to, 0);
        assert(bt(to - 1) == ct(to - 1 + 0) && bt(from) == ct(from + 0));
    } else {
        assert(from * dim >= to * dim) by (nonlinear_arith)
            requires
                from >= to,
                dim >= 2,
        ;
    }
}

/// Rings of magnified polygons are read alike.
proof fn lemma_twin_listed(
    pts: Seq<Pt<Exact>>,
    big: Seq<Pt<Exact>>,
    k: int,
    data: Seq<Exact>,
    other: Seq<Exact>,
    dim: int,
    from: int,
    to: int,
    clockwise: bool,
)
    requires
        twins(pts, big, k),
        magnified(data, other, k),
        dim >= 2,
        0 <= from,
        0 <= to <= data.len() as int / dim,
    ensures
        ({
            let a = listed(pts, data, dim, from, to, clockwise);
            let b = listed(big, other, dim, from, to, clockwise);
            &&& twins(a.pts, b.pts, k)
            &&& a.ring == b.ring
        }),
{
    lemma_sign_alike(data, other, k, dim, from, to);
    let (u, w) = (wound(data, dim, from, to, clockwise), wound(other, dim, from, to, clockwise));
    let (a, b) = (pts + u, big + w);
    let n = pts.len() as int;
    let forward = clockwise == zero::<Exact>().less_spec(
        signed_area_spec(data, from * dim, to * dim, dim),
    );
    assert forall|h: int| 0 <= h < a.len() implies #[trigger] twin(a, b, k, h) && moderate_node(
        a[h],
    ) && moderate_node(b[h]) by {
        if h < n {
            assert(twin(pts, big, k, h));
            assert(moderate_node(pts[h]) && moderate_node(big[h]));
        } else {
            let v = if forward {
                from + (h - n)
            } else {
                to - 1 - (h - n)
            };
            assert(a[h] == vertex_at(data, dim, v) && b[h] == vertex_at(other, dim, v));
            lemma_vertex_coordinates(data, dim, v);
            lemma_vertex_coordinates(other, dim, v);
            assert(other[v * dim].num == k * data[v * dim].num);
            assert(other[v * dim + 1].num == k * data[v * dim + 1].num);
        }
    }
    assert forall|h: int| 0 <= h < a.len() implies moderate_node(#[trigger] a[h]) by {
        assert(twin(a, b, k, h));
    }
    assert forall|h: int| 0 <= h < b.len() implies moderate_node(#[trigger] b[h]) by {
        assert(twin(a, b, k, h));
    }
    if a.len() - n >= 2 {
        lemma_twin_coincide(a, b, k, a.len() - 1, n);
    }
    assert(closed_ring(a, n) == closed_ring(b, n));
}

/// The leftmost node is the same.
proof fn lemma_twin_leftmost(
    pts: Seq<Pt<Exact>>,
    big: Seq<Pt<Exact>>,
    k: int,
    r: Seq<int>,
    m: int,
)
    requires
        twins(pts, big, k),
        in_table(r, pts.len() as int),
        m <= r.len(),
        r.len() > 0,
    ensures
        leftmost(big, r, m) == leftmost(pts, r, m),
    decreases m,
{
    if m > 1 {
        lemma_twin_leftmost(pts, big, k, r, m - 1);
        lemma_leftmost(pts, r, m - 1);
        let (p, q) = (r[m - 1], r[leftmost(pts, r, m - 1)]);
        assert(0 <= p < pts.len() && 0 <= q < pts.len());
        lemma_twin(pts, big, k, p);
        lemma_twin(pts, big, k, q);
        let (u, v) = (spot(integer(), pts, p), spot(integer(), pts, q));
        lemma_compare(u.0, v.0, k);
        lemma_compare(u.1, v.1, k);
    }
}

/// Holes of magnified polygons are read alike.
proof fn lemma_twin_queued(
    pts: Seq<Pt<Exact>>,
    big: Seq<Pt<Exact>>,
    k: int,
    data: Seq<Exact>,
    other: Seq<Exact>,
    dim: int,
    holes: Seq<usize>,
    m: int,
)
    requires
        twins(pts, big, k),
        magnified(data, other, k),
        is_flat(data, holes, dim),
        m <= holes.len(),
    ensures
        ({
            let a = queued(pts, data, dim, holes, m);
            let b = queued(big, other, dim, holes, m);
            &&& twins(a.pts, b.pts, k)
            &&& a.holes == b.holes
        }),
    decreases m,
{
    if m > 0 {
        let count = data.len() as int / dim;
        lemma_twin_queued(pts, big, k, data, other, dim, holes, m - 1);
        let a = queued(pts, data, dim, holes, m - 1);
        let b = queued(big, other, dim, holes, m - 1);
        let (from, to) = (holes[m - 1] as int, hole_end(holes, count, m - 1));
        vstd::arithmetic::div_mod::lemma_div_pos_is_pos(data.len() as int, dim);
        assert(0 <= to <= count);
        lemma_twin_listed(a.pts, b.pts, k, data, other, dim, from, to, false);
        let l = listed(a.pts, data, dim, from, to, false);
        let c = listed(b.pts, other, dim, from, to, false);
        if l.ring.len() > 0 {
            assert(from < to);
            lemma_listed_ring(a.pts, data, dim, from, to, false);
            assert(0 <= l.ring[0] < l.pts.len());
            if l.ring.len() == 1 {
                let p = l.ring[0];
                let (x, y) = (
                    l.pts.update(p, Pt { steiner: true, ..l.pts[p] }),
                    c.pts.update(p, Pt { steiner: true, ..c.pts[p] }),
                );
                assert forall|h: int| 0 <= h < x.len() implies #[trigger] twin(x, y, k, h)
                    && moderate_node(x[h]) && moderate_node(y[h]) by {
                    assert(twin(l.pts, c.pts, k, h));
                    assert(moderate_node(l.pts[h]) && moderate_node(c.pts[h]));
                }
                assert forall|h: int| 0 <= h < x.len() implies moderate_node(#[trigger] x[h]) by {
                    assert(twin(x, y, k, h));
                }
                assert forall|h: int| 0 <= h < y.len() implies moderate_node(#[trigger] y[h]) by {
                    assert(twin(x, y, k, h));
                }
            } else {
                lemma_twin_leftmost(l.pts, c.pts, k, l.ring, l.ring.len() as int);
            }
        }
    }
}

/// The slope of an edge.
pub(crate) proof fn lemma_slope(pts: Seq<Pt<Exact>>, p: int, n: int)
    requires
        moderate_node(pts[p]),
        moderate_node(pts[n]),
    ensures
        ({
            let (dx, dy) = (
                pts[n].x.num as int - pts[p].x.num,
                pts[n].y.num as int - pts[p].y.num,
            );
            pts[n].y.minus_spec(pts[p].y).over_spec(pts[n].x.minus_spec(pts[p].x)) == fraction(
                dy,
                dx,
            )
        }),
{
    let (x, y) = (pts[p].x.num as int, pts[p].y.num as int);
    let (s, t) = (pts[n].x.num as int, pts[n].y.num as int);
    assert(pts[p].x == whole(x) && pts[p].y == whole(y) && pts[n].x == whole(s) && pts[n].y
        == whole(t));
    lemma_whole(s, x);
    lemma_whole(t, y);
    let (a, b) = (whole(t - y), whole(s - x));
    assert(a.num * b.den == t - y && a.den * b.num == s - x) by (nonlinear_arith)
        requires
            a.num == t - y,
            a.den == 1,
            b.num == s - x,
            b.den == 1,
    ;
}

/// Fractions with a common factor compare as the fractions do.
proof fn lemma_fractions_alike(n1: int, d1: int, n2: int, d2: int, k: int)
    requires
        k > 0,
        -2 * LIMIT <= n1 <= 2 * LIMIT,
        -2 * LIMIT <= d1 <= 2 * LIMIT,
        -2 * LIMIT <= n2 <= 2 * LIMIT,
        -2 * LIMIT <= d2 <= 2 * LIMIT,
        -2 * LIMIT <= k * n1 <= 2 * LIMIT,
        -2 * LIMIT <= k * d1 <= 2 * LIMIT,
        -2 * LIMIT <= k * n2 <= 2 * LIMIT,
        -2 * LIMIT <= k * d2 <= 2 * LIMIT,
    ensures
        fraction(k * n1, k * d1).less_spec(fraction(k * n2, k * d2)) == fraction(n1, d1).less_spec(
            fraction(n2, d2),
        ),
{
    let (u, v, w, x) = (
        fraction(n1, d1),
        fraction(n2, d2),
        fraction(k * n1, k * d1),
        fraction(k * n2, k * d2),
    );
    lemma_zoom_order(k, d1, 0);
    lemma_zoom_order(k, d2, 0);
    lemma_zoom_order(k, n1, 0);
    lemma_zoom_order(k, n2, 0);
    lemma_zoom_order(k, 0, n1);
    lemma_zoom_order(k, 0, n2);
    assert(k * (-n1) == -(k * n1) && k * (-d1) == -(k * d1) && k * (-n2) == -(k * n2) && k * (-d2)
        == -(k * d2)) by (nonlinear_arith);
    assert(w.num == k * u.num && w.den == k * u.den && x.num == k * v.num && x.den == k * v.den);
    lemma_scaled_products(
        k,
        k,
        k,
        k,
        u.num as int,
        v.den as int,
        v.num as int,
        u.den as int,
    );
    let m = 2 * LIMIT;
    lemma_bounded(u.num as int, v.den as int, m, m);
    lemma_bounded(v.num as int, u.den as int, m, m);
    lemma_bounded(w.num as int, x.den as int, m, m);
    lemma_bounded(x.num as int, w.den as int, m, m);
    assert(m * m <= 0x8000_0000_0000_0000) by (nonlinear_arith)
        requires
            m == 0x8000_0000,
    ;
}

/// Holes come after each other as their twins do.
proof fn lemma_twin_after(
    pts: Seq<Pt<Exact>>,
    big: Seq<Pt<Exact>>,
    k: int,
    a: Seq<int>,
    b: Seq<int>,
)
    requires
        twins(pts, big, k),
        in_table(a, pts.len() as int),
        in_table(b, pts.len() as int),
        a.len() > 0,
        b.len() > 0,
    ensures
        comes_after(big, a, b) == comes_after(pts, a, b),
{
    let (e, f) = (after(0, a.len() as int), after(0, b.len() as int));
    assert(0 <= a[0] < pts.len() && 0 <= b[0] < pts.len() && 0 <= a[e] < pts.len() && 0 <= b[f]
        < pts.len());
    lemma_twin(pts, big, k, a[0]);
    lemma_twin(pts, big, k, b[0]);
    lemma_twin(pts, big, k, a[e]);
    lemma_twin(pts, big, k, b[f]);
    let val = integer();
    let (p, q, s, t) = (
        spot(val, pts, a[0]),
        spot(val, pts, b[0]),
        spot(val, pts, a[e]),
        spot(val, pts, b[f]),
    );
    lemma_compare(p.0, q.0, k);
    lemma_compare(p.1, q.1, k);
    lemma_compare(q.0, p.0, k);
    lemma_compare(q.1, p.1, k);
    lemma_slope(pts, a[0], a[e]);
    lemma_slope(pts, b[0], b[f]);
    lemma_slope(big, a[0], a[e]);
    lemma_slope(big, b[0], b[f]);
    let (n1, d1, n2, d2) = (t.1 - q.1, t.0 - q.0, s.1 - p.1, s.0 - p.0);
    assert(k * n1 == k * t.1 - k * q.1 && k * d1 == k * t.0 - k * q.0 && k * n2 == k * s.1 - k * p.1
        && k * d2 == k * s.0 - k * p.0) by (nonlinear_arith)
        requires
            n1 == t.1 - q.1,
            d1 == t.0 - q.0,
            n2 == s.1 - p.1,
            d2 == s.0 - p.0,
    ;
    lemma_fractions_alike(n1, d1, n2, d2, k);
}

/// The rings are of nodes of the table.
spec fn in_tables(q: Seq<Seq<int>>, n: int) -> bool {
    forall|j: int| 0 <= j < q.len() ==> in_table(#[trigger] q[j], n) && q[j].len() > 0
}

/// A hole is put in the same place.
proof fn lemma_twin_put_in(
    pts: Seq<Pt<Exact>>,
    big: Seq<Pt<Exact>>,
    k: int,
    q: Seq<Seq<int>>,
    hole: Seq<int>,
)
    requires
        twins(pts, big, k),
        in_tables(q, pts.len() as int),
        in_table(hole, pts.len() as int),
        hole.len() > 0,
    ensures
        put_in(big, q, hole) == put_in(pts, q, hole),
    decreases q.len(),
{
    if q.len() > 0 {
        assert(in_table(q[q.len() - 1], pts.len() as int) && q[q.len() - 1].len() > 0);
        lemma_twin_after(pts, big, k, q.last(), hole);
        let d = q.drop_last();
        assert(in_tables(d, pts.len() as int)) by {
            assert forall|j: int| 0 <= j < d.len() implies in_table(
                #[trigger] d[j],
                pts.len() as int,
            ) && d[j].len() > 0 by {
                assert(d[j] == q[j]);
            }
        }
        lemma_twin_put_in(pts, big, k, d, hole);
    }
}

/// Holes are put in the same order.
proof fn lemma_twin_in_order(
    pts: Seq<Pt<Exact>>,
    big: Seq<Pt<Exact>>,
    k: int,
    q: Seq<Seq<int>>,
)
    requires
        twins(pts, big, k),
        in_tables(q, pts.len() as int),
    ensures
        in_order(big, q) == in_order(pts, q),
    decreases q.len(),
{
    if q.len() > 0 {
        let d = q.drop_last();
        assert(in_tables(d, pts.len() as int)) by {
            assert forall|j: int| 0 <= j < d.len() implies in_table(
                #[trigger] d[j],
                pts.len() as int,
            ) && d[j].len() > 0 by {
                assert(d[j] == q[j]);
            }
        }
        lemma_twin_in_order(pts, big, k, d);
        lemma_in_order_ok(pts, d, pts.len() as int);
        assert(in_table(q[q.len() - 1], pts.len() as int) && q[q.len() - 1].len() > 0);
        lemma_twin_put_in(pts, big, k, in_order(pts, d), q.last());
    }
}

// ---------------------------------------------------------------------------------------------
// The index
// ---------------------------------------------------------------------------------------------
/// The second box is the first, magnified `k` times.
spec fn twin_box(b: BBox<Exact>, c: BBox<Exact>, k: int) -> bool {
    &&& scaled(b.min_x, c.min_x, k, 1)
    &&& scaled(b.min_y, c.min_y, k, 1)
    &&& scaled(b.max_x, c.max_x, k, 1)
    &&& scaled(b.max_y, c.max_y, k, 1)
}

/// The second boxes are the first, magnified `k` times.
spec fn twin_boxes(b: Seq<BBox<Exact>>, c: Seq<BBox<Exact>>, k: int) -> bool {
    &&& b.len() == c.len()
    &&& forall|j: int| 0 <= j < b.len() ==> #[trigger] twin_box(b[j], c[j], k)
}

/// A box with an edge in it, and its twin.
proof fn lemma_twin_edge(
    b: BBox<Exact>,
    c: BBox<Exact>,
    pts: Seq<Pt<Exact>>,
    big: Seq<Pt<Exact>>,
    k: int,
    p: int,
    n: int,
)
    requires
        twin_box(b, c, k),
        twins(pts, big, k),
        0 <= p < pts.len(),
        0 <= n < pts.len(),
    ensures
        twin_box(with_edge(b, pts[p], pts[n]), with_edge(c, big[p], big[n]), k),
{
    lemma_twin_scaled(pts, big, k, p);
    lemma_twin_scaled(pts, big, k, n);
    lemma_scaled_picks(b.min_x, c.min_x, pts[p].x, big[p].x, k);
    lemma_scaled_picks(b.min_y, c.min_y, pts[p].y, big[p].y, k);
    lemma_scaled_picks(b.max_x, c.max_x, pts[p].x, big[p].x, k);
    lemma_scaled_picks(b.max_y, c.max_y, pts[p].y, big[p].y, k);
    lemma_scaled_picks(
        b.min_x.lower_spec(pts[p].x),
        c.min_x.lower_spec(big[p].x),
        pts[n].x,
        big[n].x,
        k,
    );
    lemma_scaled_picks(
        b.min_y.lower_spec(pts[p].y),
        c.min_y.lower_spec(big[p].y),
        pts[n].y,
        big[n].y,
        k,
    );
    lemma_scaled_picks(
        b.max_x.upper_spec(pts[p].x),
        c.max_x.upper_spec(big[p].x),
        pts[n].x,
        big[n].x,
        k,
    );
    lemma_scaled_picks(
        b.max_y.upper_spec(pts[p].y),
        c.max_y.upper_spec(big[p].y),
        pts[n].y,
        big[n].y,
        k,
    );
}

/// A grown box, and its twin.
proof fn lemma_twin_grown(
    b: BBox<Exact>,
    c: BBox<Exact>,
    pts: Seq<Pt<Exact>>,
    big: Seq<Pt<Exact>>,
    k: int,
    p: int,
)
    requires
        twin_box(b, c, k),
        twins(pts, big, k),
        0 <= p < pts.len(),
    ensures
        twin_box(grown_box(b, pts[p].x, pts[p].y), grown_box(c, big[p].x, big[p].y), k),
{
    lemma_twin_scaled(pts, big, k, p);
    lemma_scaled_order(pts[p].x, big[p].x, k, 1, b.min_x, c.min_x, k, 1);
    lemma_scaled_order(pts[p].x, big[p].x, k, 1, b.max_x, c.max_x, k, 1);
    lemma_scaled_order(pts[p].y, big[p].y, k, 1, b.min_y, c.min_y, k, 1);
    lemma_scaled_order(pts[p].y, big[p].y, k, 1, b.max_y, c.max_y, k, 1);
}

/// The box around a run, and its twin.
proof fn lemma_twin_run_box(
    pts: Seq<Pt<Exact>>,
    big: Seq<Pt<Exact>>,
    k: int,
    run: Seq<int>,
    tail: int,
    from: int,
    to: int,
)
    requires
        twins(pts, big, k),
        in_table(run, pts.len() as int),
        0 <= tail < pts.len(),
        0 <= from,
        to <= run.len(),
    ensures
        twin_box(run_box(pts, run, tail, from, to), run_box(big, run, tail, from, to), k),
    decreases to - from,
{
    if to > from {
        lemma_twin_run_box(pts, big, k, run, tail, from, to - 1);
        let n = run_next(run, tail, to - 1);
        assert(0 <= run[to - 1] < pts.len());
        assert(0 <= n < pts.len()) by {
            if to < run.len() {
                assert(0 <= run[to] < pts.len());
            }
        }
        lemma_twin_edge(
            run_box(pts, run, tail, from, to - 1),
            run_box(big, run, tail, from, to - 1),
            pts,
            big,
            k,
            run[to - 1],
            n,
        );
    }
}

/// The second outline is the first, magnified `k` times.
spec fn twin_outlines(o: Outline<Exact>, w: Outline<Exact>, k: int) -> bool {
    &&& twins(o.pts, w.pts, k)
    &&& o.ring == w.ring
    &&& o.lists == w.lists
    &&& o.owner == w.owner
    &&& twin_boxes(o.boxes, w.boxes, k)
}

/// The outline is one, and its index, if there is one, covers its edges.
spec fn sound_outline(o: Outline<Exact>) -> bool {
    &&& is_ring(o.ring, o.pts.len() as int)
    &&& o.boxes.len() == 0 || covered(plain_rank(), plain_values(), o)
}

/// The blocks of a run are added alike.
proof fn lemma_twin_indexed(
    o: Outline<Exact>,
    w: Outline<Exact>,
    k: int,
    run: Seq<int>,
    tail: int,
)
    requires
        twin_outlines(o, w, k),
        in_table(run, o.pts.len() as int),
        0 <= tail < o.pts.len(),
    ensures
        twin_outlines(indexed(o, run, tail), indexed(w, run, tail), k),
{
    let (a, b) = (indexed(o, run, tail), indexed(w, run, tail));
    let n = o.boxes.len() as int;
    assert forall|j: int| 0 <= j < a.boxes.len() implies #[trigger] twin_box(
        a.boxes[j],
        b.boxes[j],
        k,
    ) by {
        if j < n {
            assert(twin_box(o.boxes[j], w.boxes[j], k));
        } else {
            let (from, to) = (chunk_start(run, j - n), chunk_start(run, j - n + 1));
            lemma_twin_run_box(o.pts, w.pts, k, run, tail, from, to);
        }
    }
    assert(a.lists =~= b.lists);
    assert(a.owner =~= b.owner);
}

/// Boxes grow alike where degenerate nodes are dropped.
proof fn lemma_twin_dropped_boxes(
    pts: Seq<Pt<Exact>>,
    big: Seq<Pt<Exact>>,
    k: int,
    r: Seq<int>,
    owner: Seq<int>,
    b: Seq<BBox<Exact>>,
    c: Seq<BBox<Exact>>,
)
    requires
        twins(pts, big, k),
        is_ring(r, pts.len() as int),
        twin_boxes(b, c, k),
        forall|h: int| #[trigger] r.contains(h) ==> 0 <= owner[h] < b.len(),
    ensures
        twin_boxes(
            backtracked_boxes(pts, r, owner, b),
            backtracked_boxes(big, r, owner, c),
            k,
        ),
        backtracked_boxes(pts, r, owner, b).len() == b.len(),
    decreases r.len(),
{
    lemma_twin_degenerate(pts, big, k, r);
    if degenerate(pts, r) {
        let m = r.len() - 1;
        assert(r.contains(r[m]));
        let j = owner[r.last()];
        assert(0 <= j < b.len());
        assert(0 <= r[1] < pts.len());
        assert(twin_box(b[j], c[j], k));
        lemma_twin_grown(b[j], c[j], pts, big, k, r[1]);
        lemma_dropped_ring(r, pts.len() as int);
        let (x, y) = (pts[r[1]], big[r[1]]);
        let (d, e) = (
            b.update(j, grown_box(b[j], x.x, x.y)),
            c.update(j, grown_box(c[j], y.x, y.y)),
        );
        assert(twin_boxes(d, e, k)) by {
            assert forall|i: int| 0 <= i < d.len() implies #[trigger] twin_box(d[i], e[i], k) by {
                if i != j {
                    assert(twin_box(b[i], c[i], k));
                }
            }
        }
        lemma_twin_dropped_boxes(pts, big, k, dropped_back(r), owner, d, e);
    }
}

/// Outlines heal alike.
proof fn lemma_twin_healed_outline(o: Outline<Exact>, w: Outline<Exact>, k: int)
    requires
        twin_outlines(o, w, k),
        sound_outline(o),
    ensures
        twin_outlines(healed_outline(o), healed_outline(w), k),
        sound_outline(healed_outline(o)),
        forall|h: int| #[trigger] healed_outline(o).ring.contains(h) ==> o.ring.contains(h),
{
    let n = o.pts.len() as int;
    lemma_twin_healed(o.pts, w.pts, k, o.ring);
    lemma_healed_ring(o.pts, o.ring, n);
    lemma_healed_nodes(o.pts, o.ring, n);
    if o.boxes.len() > 0 {
        lemma_plain_ranked();
        lemma_healed_covered(plain_rank(), plain_values(), o);
        assert forall|h: int| #[trigger] o.ring.contains(h) implies 0 <= o.owner[h]
            < o.boxes.len() by {
            let i = choose|i: int| 0 <= i < o.ring.len() && o.ring[i] == h;
            assert(edge_covered(plain_rank(), o, i));
        }
        lemma_twin_backtracked(o.pts, w.pts, k, o.ring);
        lemma_backtracked_ring(o.pts, o.ring, n);
        let t = backtracked(o.pts, o.ring);
        lemma_backtracked_nodes(o.pts, o.ring, n);
        lemma_turned_ring(t, n);
        lemma_twin_dropped_boxes(o.pts, w.pts, k, o.ring, o.owner, o.boxes, w.boxes);
        lemma_twin_dropped_boxes(
            o.pts,
            w.pts,
            k,
            turned(t),
            o.owner,
            backtracked_boxes(o.pts, o.ring, o.owner, o.boxes),
            backtracked_boxes(w.pts, w.ring, w.owner, w.boxes),
        );
    }
}

// ---------------------------------------------------------------------------------------------
// The ray
// ---------------------------------------------------------------------------------------------
/// The second ray has met what the first has, magnified `k` times.
spec fn twin_rays(s: Ray<Exact>, t: Ray<Exact>, k: int) -> bool {
    &&& s.m == t.m
    &&& s.done == t.done
    &&& scaled(s.qx, t.qx, k * k, k)
}

/// Where the ray meets an edge, and its twin.
proof fn lemma_twin_hit(
    pts: Seq<Pt<Exact>>,
    big: Seq<Pt<Exact>>,
    k: int,
    hole: int,
    p: int,
    n: int,
)
    requires
        twins(pts, big, k),
        0 <= hole < pts.len(),
        0 <= p < pts.len(),
        0 <= n < pts.len(),
        pts[n].y.num <= pts[hole].y.num <= pts[p].y.num,
        pts[n].y.num < pts[p].y.num,
    ensures
        scaled(
            ray_hit(pts, pts[hole].y, p, n),
            ray_hit(big, big[hole].y, p, n),
            k * k,
            k,
        ),
{
    lemma_twin(pts, big, k, hole);
    lemma_twin(pts, big, k, p);
    lemma_twin(pts, big, k, n);
    let val = integer();
    let (a, b, h) = (spot(val, pts, p), spot(val, pts, n), spot(val, pts, hole).1);
    lemma_zoom_order(k, b.1, h);
    lemma_zoom_order(k, h, a.1);
    lemma_zoom_order(k, b.1, a.1);
    assert(moderate_node(pts[p]) && moderate_node(pts[n]) && moderate_node(pts[hole]));
    assert(moderate_node(big[p]) && moderate_node(big[n]) && moderate_node(big[hole]));
    lemma_hit(pts, pts[hole].y, p, n);
    lemma_hit(big, big[hole].y, p, n);
    let (x, y) = (ray_hit(pts, pts[hole].y, p, n), ray_hit(big, big[hole].y, p, n));
    let (d, t, f) = (a.1 - b.1, a.1 - h, b.0 - a.0);
    assert(k * a.1 - k * b.1 == k * d && k * a.1 - k * h == k * t && k * b.0 - k * a.0 == k * f) by (
    nonlinear_arith)
        requires
            d == a.1 - b.1,
            t == a.1 - h,
            f == b.0 - a.0,
    ;
    assert(x.den == d && x.num == a.0 * d + t * f);
    assert(y.den == k * d && y.num == (k * a.0) * (k * d) + (k * t) * (k * f));
    let (l, m, z) = (a.0 * d, t * f, k * k);
    assert((k * a.0) * (k * d) == z * l) by (nonlinear_arith)
        requires
            z == k * k,
            l == a.0 * d,
    ;
    assert((k * t) * (k * f) == z * m) by (nonlinear_arith)
        requires
            z == k * k,
            m == t * f,
    ;
    assert(z * (l + m) == z * l + z * m) by (nonlinear_arith);
}

/// The square of a factor.
proof fn lemma_square(k: int)
    requires
        k > 0,
    ensures
        k * k > 0,
{
    assert(k * k > 0) by (nonlinear_arith)
        requires
            k > 0,
    ;
}

/// The ray meets an edge as it meets its twin.
#[verifier::spinoff_prover]
proof fn lemma_twin_ray_edge(
    pts: Seq<Pt<Exact>>,
    big: Seq<Pt<Exact>>,
    k: int,
    hole: int,
    s: Ray<Exact>,
    t: Ray<Exact>,
    p: int,
    n: int,
)
    requires
        twins(pts, big, k),
        0 <= hole < pts.len(),
        0 <= p < pts.len(),
        0 <= n < pts.len(),
        twin_rays(s, t, k),
    ensures
        twin_rays(
            ray_edge(pts, pts[hole].x, pts[hole].y, s, p, n),
            ray_edge(big, big[hole].x, big[hole].y, t, p, n),
            k,
        ),
{
    lemma_twin(pts, big, k, hole);
    lemma_twin(pts, big, k, p);
    lemma_twin(pts, big, k, n);
    lemma_square(k);
    let val = integer();
    let (a, b, h) = (spot(val, pts, p), spot(val, pts, n), spot(val, pts, hole));
    lemma_compare(h.0, b.0, k);
    lemma_compare(h.1, b.1, k);
    lemma_compare(h.1, a.1, k);
    lemma_compare(b.1, h.1, k);
    lemma_compare(b.1, a.1, k);
    lemma_compare(a.0, b.0, k);
    lemma_whole_order(h.1, a.1);
    lemma_whole_order(b.1, h.1);
    if h.1 <= a.1 && b.1 <= h.1 && b.1 != a.1 {
        lemma_twin_hit(pts, big, k, hole, p, n);
        lemma_twin_scaled(pts, big, k, hole);
        let (x, y) = (ray_hit(pts, pts[hole].y, p, n), ray_hit(big, big[hole].y, p, n));
        lemma_scaled_order(x, y, k * k, k, pts[hole].x, big[hole].x, k, 1);
        lemma_scaled_order(x, y, k * k, k, s.qx, t.qx, k * k, k);
    }
}

/// The ray meets edges as it meets their twins.
proof fn lemma_twin_ray_over(
    pts: Seq<Pt<Exact>>,
    big: Seq<Pt<Exact>>,
    k: int,
    r: Seq<int>,
    hole: int,
    nodes: Seq<int>,
    s: Ray<Exact>,
    t: Ray<Exact>,
)
    requires
        twins(pts, big, k),
        is_ring(r, pts.len() as int),
        0 <= hole < pts.len(),
        twin_rays(s, t, k),
    ensures
        twin_rays(
            ray_over(pts, r, pts[hole].x, pts[hole].y, nodes, s),
            ray_over(big, r, big[hole].x, big[hole].y, nodes, t),
            k,
        ),
    decreases nodes.len(),
{
    if nodes.len() > 0 {
        let first = nodes.drop_last();
        lemma_twin_ray_over(pts, big, k, r, hole, first, s, t);
        let u = ray_over(pts, r, pts[hole].x, pts[hole].y, first, s);
        let v = ray_over(big, r, big[hole].x, big[hole].y, first, t);
        let p = nodes.last();
        if !u.done && r.contains(p) {
            let i = r.index_of(p);
            assert(r[i] == p && 0 <= i < r.len());
            let j = after(i, r.len() as int);
            assert(0 <= r[i] < pts.len() && 0 <= r[j] < pts.len());
            lemma_twin_ray_edge(pts, big, k, hole, u, v, p, r[j]);
        }
    }
}

/// The ray passes over a box as it passes over its twin.
proof fn lemma_twin_ray_skips(
    b: BBox<Exact>,
    c: BBox<Exact>,
    pts: Seq<Pt<Exact>>,
    big: Seq<Pt<Exact>>,
    k: int,
    hole: int,
    q: Exact,
    r: Exact,
)
    requires
        twin_box(b, c, k),
        twins(pts, big, k),
        0 <= hole < pts.len(),
        scaled(q, r, k * k, k),
    ensures
        ray_skips(c, big[hole].x, big[hole].y, r) == ray_skips(b, pts[hole].x, pts[hole].y, q),
{
    lemma_twin_scaled(pts, big, k, hole);
    lemma_square(k);
    lemma_scaled_order(pts[hole].y, big[hole].y, k, 1, b.min_y, c.min_y, k, 1);
    lemma_scaled_order(pts[hole].y, big[hole].y, k, 1, b.max_y, c.max_y, k, 1);
    lemma_scaled_order(pts[hole].x, big[hole].x, k, 1, b.min_x, c.min_x, k, 1);
    lemma_scaled_order(b.max_x, c.max_x, k, 1, q, r, k * k, k);
}

/// The ray before it has met anything.
proof fn lemma_twin_start(k: int)
    requires
        k > 0,
    ensures
        twin_rays(ray_start::<Exact>(), ray_start::<Exact>(), k),
{
}

/// The ray meets the edges in the blocks as it meets their twins.
proof fn lemma_twin_ray_blocks(
    o: Outline<Exact>,
    w: Outline<Exact>,
    k: int,
    hole: int,
    m: int,
)
    requires
        twin_outlines(o, w, k),
        is_ring(o.ring, o.pts.len() as int),
        0 <= hole < o.pts.len(),
        m <= o.boxes.len(),
    ensures
        twin_rays(
            ray_blocks(o, o.pts[hole].x, o.pts[hole].y, m),
            ray_blocks(w, w.pts[hole].x, w.pts[hole].y, m),
            k,
        ),
    decreases m,
{
    lemma_twin_start(k);
    if m > 0 {
        lemma_twin_ray_blocks(o, w, k, hole, m - 1);
        let s = ray_blocks(o, o.pts[hole].x, o.pts[hole].y, m - 1);
        let t = ray_blocks(w, w.pts[hole].x, w.pts[hole].y, m - 1);
        assert(twin_box(o.boxes[m - 1], w.boxes[m - 1], k));
        lemma_twin_ray_skips(
            o.boxes[m - 1],
            w.boxes[m - 1],
            o.pts,
            w.pts,
            k,
            hole,
            s.qx,
            t.qx,
        );
        lemma_twin_ray_over(o.pts, w.pts, k, o.ring, hole, o.lists[m - 1], s, t);
    }
}

// ---------------------------------------------------------------------------------------------
// The nodes in reach
// ---------------------------------------------------------------------------------------------
/// Whether a point lies in the triangle of the start of a ray, its end, and a corner: the products
/// that tell, where the end of the ray is the fraction `q`.
pub(crate) open spec fn reached(h: (int, int), m: (int, int), a: (int, int), q: Exact) -> bool {
    let (t, s, f, g) = (h.1 - a.1, m.1 - a.1, h.0 - a.0, m.0 - a.0);
    let d = q.den as int;
    let e = q.num - a.0 * d;
    if h.1 < m.1 {
        (f * t) * d <= e * t && g * t <= f * s && e * s <= (g * t) * d
    } else {
        e * t <= (f * t) * d && (g * t) * d <= e * s && f * s <= g * t
    }
}

/// Whether a point lies in that triangle is found exactly.
#[verifier::spinoff_prover]
pub(crate) proof fn lemma_reach_found(h: (int, int), m: (int, int), a: (int, int), q: Exact)
    requires
        moderate(h),
        moderate(m),
        moderate(a),
        value(q),
        q.den > 0,
    ensures
        point_in_triangle_spec(
            if whole(h.1).less_spec(whole(m.1)) {
                whole(h.0)
            } else {
                q
            },
            whole(h.1),
            whole(m.0),
            whole(m.1),
            if whole(h.1).less_spec(whole(m.1)) {
                q
            } else {
                whole(h.0)
            },
            whole(h.1),
            whole(a.0),
            whole(a.1),
        ) <==> reached(h, m, a, q),
{
    let (t, s, f, g) = (h.1 - a.1, m.1 - a.1, h.0 - a.0, m.0 - a.0);
    lemma_whole(h.1, m.1);
    lemma_product_found(h.0, a.0, h.1, a.1);
    lemma_product_found(h.0, a.0, m.1, a.1);
    lemma_product_found(m.0, a.0, h.1, a.1);
    lemma_fraction_times(q, a.0, t);
    lemma_fraction_times(q, a.0, s);
    let et = q.minus_spec(whole(a.0)).times_spec(whole(t));
    let es = q.minus_spec(whole(a.0)).times_spec(whole(s));
    lemma_fraction_order(et, f * t);
    lemma_fraction_order(es, g * t);
    lemma_whole_order(g * t, f * s);
    lemma_whole_order(f * s, g * t);
}

/// A product of three magnified numbers.
proof fn lemma_thrice(k: int, x: int, y: int, z: int)
    ensures
        ((k * x) * (k * y)) * (k * z) == (k * (k * k)) * ((x * y) * z),
{
    assert(((k * x) * (k * y)) * (k * z) == (k * (k * k)) * ((x * y) * z)) by (nonlinear_arith);
}

/// A product of a number magnified twice and a magnified number.
proof fn lemma_twice_once(k: int, e: int, t: int)
    ensures
        ((k * k) * e) * (k * t) == (k * (k * k)) * (e * t),
{
    assert(((k * k) * e) * (k * t) == (k * (k * k)) * (e * t)) by (nonlinear_arith);
}

/// The products do not depend on the scale.
proof fn lemma_reached_alike(
    h: (int, int),
    m: (int, int),
    a: (int, int),
    q: Exact,
    r: Exact,
    k: int,
)
    requires
        k > 0,
        r.num == (k * k) * q.num,
        r.den == k * q.den,
    ensures
        reached(zoom(h, k), zoom(m, k), zoom(a, k), r) == reached(h, m, a, q),
{
    let (t, s, f, g) = (h.1 - a.1, m.1 - a.1, h.0 - a.0, m.0 - a.0);
    let d = q.den as int;
    let e = q.num - a.0 * d;
    let (x, y, z) = (zoom(h, k), zoom(m, k), zoom(a, k));
    assert(x.1 - z.1 == k * t && y.1 - z.1 == k * s && x.0 - z.0 == k * f && y.0 - z.0 == k * g)
        by (nonlinear_arith)
        requires
            x == (k * h.0, k * h.1),
            y == (k * m.0, k * m.1),
            z == (k * a.0, k * a.1),
            t == h.1 - a.1,
            s == m.1 - a.1,
            f == h.0 - a.0,
            g == m.0 - a.0,
    ;
    let w = a.0 * d;
    assert(r.num - z.0 * r.den == (k * k) * e) by (nonlinear_arith)
        requires
            r.num == (k * k) * q.num,
            r.den == k * d,
            z.0 == k * a.0,
            e == q.num - a.0 * d,
    ;
    lemma_thrice(k, f, t, d);
    lemma_thrice(k, g, t, d);
    lemma_twice_once(k, e, t);
    lemma_twice_once(k, e, s);
    let c = k * (k * k);
    lemma_square(k);
    assert(c > 0) by (nonlinear_arith)
        requires
            c == k * (k * k),
            k > 0,
            k * k > 0,
    ;
    lemma_zoom_order(c, e * t, (f * t) * d);
    lemma_zoom_order(c, (f * t) * d, e * t);
    lemma_zoom_order(c, (g * t) * d, e * s);
    lemma_zoom_order(c, e * s, (g * t) * d);
    assert((k * g) * (k * t) == (k * k) * (g * t) && (k * f) * (k * s) == (k * k) * (f * s)) by (
    nonlinear_arith);
    lemma_zoom_order(k * k, g * t, f * s);
    lemma_zoom_order(k * k, f * s, g * t);
    assert(x.1 < y.1 <==> h.1 < m.1) by {
        lemma_zoom_order(k, h.1, m.1);
    }
}

/// A node is in reach if its twin is.
proof fn lemma_twin_reach(
    pts: Seq<Pt<Exact>>,
    big: Seq<Pt<Exact>>,
    k: int,
    hole: int,
    q: Exact,
    r: Exact,
    m0: int,
    p: int,
)
    requires
        twins(pts, big, k),
        0 <= hole < pts.len(),
        0 <= m0 < pts.len(),
        0 <= p < pts.len(),
        scaled(q, r, k * k, k),
        q.den > 0,
    ensures
        in_reach(big, hole, r, m0, p) == in_reach(pts, hole, q, m0, p),
        in_reach(pts, hole, q, m0, p) ==> pts[p].x.num < pts[hole].x.num,
{
    lemma_twin(pts, big, k, hole);
    lemma_twin(pts, big, k, m0);
    lemma_twin(pts, big, k, p);
    let val = integer();
    let (h, m, a) = (spot(val, pts, hole), spot(val, pts, m0), spot(val, pts, p));
    lemma_compare(a.0, h.0, k);
    lemma_compare(m.0, a.0, k);
    lemma_compare(h.0, a.0, k);
    lemma_whole_order(a.0, h.0);
    lemma_reach_found(h, m, a, q);
    assert(r.den > 0) by (nonlinear_arith)
        requires
            r.den == k * q.den,
            k > 0,
            q.den > 0,
    ;
    lemma_reach_found(zoom(h, k), zoom(m, k), zoom(a, k), r);
    lemma_reached_alike(h, m, a, q, r, k);
}

/// The second candidate is the first, and the tangents of their angles compare alike.
spec fn twin_leans(s: Lean<Exact>, t: Lean<Exact>, k: int, n: int) -> bool {
    &&& s.m == t.m
    &&& 0 <= s.m < n
    &&& scaled(s.tan, t.tan, k, k)
}

/// The tangent of the angle of a node that is in reach.
pub(crate) proof fn lemma_tan(h: (int, int), a: (int, int))
    requires
        moderate(h),
        moderate(a),
        a.0 < h.0,
    ensures
        ({
            let c = whole(h.1).minus_spec(whole(a.1)).magnitude_spec().over_spec(
                whole(h.0).minus_spec(whole(a.0)),
            );
            &&& c.num == abs(h.1 - a.1)
            &&& c.den == h.0 - a.0
            &&& value(c)
        }),
{
    let (t, f) = (h.1 - a.1, h.0 - a.0);
    lemma_whole(h.1, a.1);
    lemma_whole(h.0, a.0);
    lemma_whole(t, 0);
    let (x, y) = (whole(abs(t)), whole(f));
    assert(x.num * y.den == abs(t) && x.den * y.num == f) by (nonlinear_arith)
        requires
            x.num == abs(t),
            x.den == 1,
            y.num == f,
            y.den == 1,
    ;
}

/// Nodes are compared as their twins are.
#[verifier::spinoff_prover]
proof fn lemma_twin_lean_node(
    pts: Seq<Pt<Exact>>,
    big: Seq<Pt<Exact>>,
    k: int,
    r: Seq<int>,
    hole: int,
    q: Exact,
    c: Exact,
    m0: int,
    s: Lean<Exact>,
    t: Lean<Exact>,
    i: int,
)
    requires
        twins(pts, big, k),
        is_ring(r, pts.len() as int),
        0 <= hole < pts.len(),
        0 <= m0 < pts.len(),
        0 <= i < r.len(),
        scaled(q, c, k * k, k),
        q.den > 0,
        twin_leans(s, t, k, pts.len() as int),
        r.contains(s.m) || s.m == m0,
        r.contains(m0),
    ensures
        twin_leans(
            lean_node(pts, r, hole, q, m0, s, r[i]),
            lean_node(big, r, hole, c, m0, t, r[i]),
            k,
            pts.len() as int,
        ),
        r.contains(lean_node(pts, r, hole, q, m0, s, r[i]).m),
{
    let n = r.len() as int;
    let p = r[i];
    let j = after(i, n);
    assert(0 <= p < pts.len() && 0 <= r[j] < pts.len());
    assert(r.contains(p));
    assert(r.index_of(p) == i);
    lemma_twin_reach(pts, big, k, hole, q, c, m0, p);
    if in_reach(pts, hole, q, m0, p) {
        lemma_twin(pts, big, k, hole);
        lemma_twin(pts, big, k, p);
        lemma_twin(pts, big, k, r[j]);
        lemma_twin(pts, big, k, s.m);
        let val = integer();
        let (h, a, b, d) = (
            spot(val, pts, hole),
            spot(val, pts, p),
            spot(val, pts, r[j]),
            spot(val, pts, s.m),
        );
        lemma_tan(h, a);
        lemma_zoom_order(k, a.0, h.0);
        lemma_tan(zoom(h, k), zoom(a, k));
        let (x, y) = (
            pts[hole].y.minus_spec(pts[p].y).magnitude_spec().over_spec(
                pts[hole].x.minus_spec(pts[p].x),
            ),
            big[hole].y.minus_spec(big[p].y).magnitude_spec().over_spec(
                big[hole].x.minus_spec(big[p].x),
            ),
        );
        assert(k * h.1 - k * a.1 == k * (h.1 - a.1) && k * h.0 - k * a.0 == k * (h.0 - a.0)) by (
        nonlinear_arith);
        lemma_zoom_order(k, h.1 - a.1, 0);
        assert(k * (-(h.1 - a.1)) == -(k * (h.1 - a.1))) by (nonlinear_arith);
        assert(y.num == k * x.num && y.den == k * x.den);
        lemma_scaled_order(x, y, k, k, s.tan, t.tan, k, k);
        lemma_twin_angle(pts, big, k, r, i, hole);
        lemma_compare(a.1, h.1, k);
        lemma_compare(b.1, h.1, k);
        lemma_compare(h.0, b.0, k);
        lemma_compare(d.0, a.0, k);
        lemma_compare(a.0, d.0, k);
        lemma_twin_sector(pts, big, k, r, s.m, p);
    }
}

/// One sector contains another if its twin does.
proof fn lemma_twin_sector(
    pts: Seq<Pt<Exact>>,
    big: Seq<Pt<Exact>>,
    k: int,
    r: Seq<int>,
    m: int,
    p: int,
)
    requires
        twins(pts, big, k),
        is_ring(r, pts.len() as int),
        r.contains(m),
        r.contains(p),
    ensures
        sector_contains(big, r, m, p) == sector_contains(pts, r, m, p),
{
    let n = r.len() as int;
    let (i, j) = (r.index_of(m), r.index_of(p));
    assert(0 <= i < n && r[i] == m && 0 <= j < n && r[j] == p);
    let (a, b, c, d) = (before(i, n), after(i, n), before(j, n), after(j, n));
    assert(0 <= r[i] < pts.len() && 0 <= r[a] < pts.len() && 0 <= r[b] < pts.len() && 0 <= r[c]
        < pts.len() && 0 <= r[d] < pts.len());
    lemma_twin_area(pts, big, k, r[a], m, r[c]);
    lemma_twin_area(pts, big, k, r[d], m, r[b]);
}

/// Nodes are compared as their twins are, one after the other.
proof fn lemma_twin_lean_over(
    pts: Seq<Pt<Exact>>,
    big: Seq<Pt<Exact>>,
    k: int,
    r: Seq<int>,
    hole: int,
    q: Exact,
    c: Exact,
    m0: int,
    nodes: Seq<int>,
    s: Lean<Exact>,
    t: Lean<Exact>,
)
    requires
        twins(pts, big, k),
        is_ring(r, pts.len() as int),
        0 <= hole < pts.len(),
        0 <= m0 < pts.len(),
        scaled(q, c, k * k, k),
        q.den > 0,
        twin_leans(s, t, k, pts.len() as int),
        r.contains(s.m),
        r.contains(m0),
    ensures
        twin_leans(
            lean_over(pts, r, hole, q, m0, nodes, s),
            lean_over(big, r, hole, c, m0, nodes, t),
            k,
            pts.len() as int,
        ),
        r.contains(lean_over(pts, r, hole, q, m0, nodes, s).m),
    decreases nodes.len(),
{
    if nodes.len() > 0 {
        let first = nodes.drop_last();
        lemma_twin_lean_over(pts, big, k, r, hole, q, c, m0, first, s, t);
        let p = nodes.last();
        if r.contains(p) {
            let i = r.index_of(p);
            assert(r[i] == p && 0 <= i < r.len());
            lemma_twin_lean_node(
                pts,
                big,
                k,
                r,
                hole,
                q,
                c,
                m0,
                lean_over(pts, r, hole, q, m0, first, s),
                lean_over(big, r, hole, c, m0, first, t),
                i,
            );
        }
    }
}

/// The nodes of a box are passed over as those of its twin are.
proof fn lemma_twin_lean_skips(
    b: BBox<Exact>,
    c: BBox<Exact>,
    pts: Seq<Pt<Exact>>,
    big: Seq<Pt<Exact>>,
    k: int,
    hole: int,
    m0: int,
)
    requires
        twin_box(b, c, k),
        twins(pts, big, k),
        0 <= hole < pts.len(),
        0 <= m0 < pts.len(),
    ensures
        lean_skips(c, big[hole], big[m0]) == lean_skips(b, pts[hole], pts[m0]),
{
    lemma_twin_scaled(pts, big, k, hole);
    lemma_twin_scaled(pts, big, k, m0);
    let (h, m, x, y) = (pts[hole], pts[m0], big[hole], big[m0]);
    lemma_scaled_order(b.max_x, c.max_x, k, 1, m.x, y.x, k, 1);
    lemma_scaled_order(h.x, x.x, k, 1, b.min_x, c.min_x, k, 1);
    lemma_scaled_picks(h.y, x.y, m.y, y.y, k);
    lemma_scaled_order(
        b.max_y,
        c.max_y,
        k,
        1,
        h.y.lower_spec(m.y),
        x.y.lower_spec(y.y),
        k,
        1,
    );
    lemma_scaled_order(
        h.y.upper_spec(m.y),
        x.y.upper_spec(y.y),
        k,
        1,
        b.min_y,
        c.min_y,
        k,
        1,
    );
}

/// The nodes in the blocks are compared as their twins are.
proof fn lemma_twin_lean_blocks(
    o: Outline<Exact>,
    w: Outline<Exact>,
    k: int,
    hole: int,
    q: Exact,
    c: Exact,
    m0: int,
    m: int,
)
    requires
        twin_outlines(o, w, k),
        is_ring(o.ring, o.pts.len() as int),
        0 <= hole < o.pts.len(),
        0 <= m0 < o.pts.len(),
        o.ring.contains(m0),
        scaled(q, c, k * k, k),
        q.den > 0,
        m <= o.boxes.len(),
    ensures
        twin_leans(
            lean_blocks(o, hole, q, m0, m),
            lean_blocks(w, hole, c, m0, m),
            k,
            o.pts.len() as int,
        ),
        o.ring.contains(lean_blocks(o, hole, q, m0, m).m),
    decreases m,
{
    if m > 0 {
        lemma_twin_lean_blocks(o, w, k, hole, q, c, m0, m - 1);
        assert(twin_box(o.boxes[m - 1], w.boxes[m - 1], k));
        lemma_twin_lean_skips(o.boxes[m - 1], w.boxes[m - 1], o.pts, w.pts, k, hole, m0);
        lemma_twin_lean_over(
            o.pts,
            w.pts,
            k,
            o.ring,
            hole,
            q,
            c,
            m0,
            o.lists[m - 1],
            lean_blocks(o, hole, q, m0, m - 1),
            lean_blocks(w, hole, c, m0, m - 1),
        );
    }
}

/// A ray that goes on after it has met something has met it somewhere.
proof fn lemma_ray_finite(o: Outline<Exact>, hole: int, m: int)
    requires
        moderate_table(o.pts),
        is_ring(o.ring, o.pts.len() as int),
        0 <= hole < o.pts.len(),
        m <= o.boxes.len(),
    ensures
        sound(ray_blocks(o, o.pts[hole].x, o.pts[hole].y, m), o.pts[hole].x),
        sound(
            ray_over(o.pts, o.ring, o.pts[hole].x, o.pts[hole].y, o.ring, ray_start()),
            o.pts[hole].x,
        ),
    decreases m,
{
    let (hx, hy) = (o.pts[hole].x, o.pts[hole].y);
    assert(moderate_node(o.pts[hole]));
    let start = ray_start::<Exact>();
    lemma_order(start.qx, hx);
    lemma_over_sound(o.pts, o.ring, hx, hy, o.ring, start);
    if m > 0 {
        lemma_ray_finite(o, hole, m - 1);
        let s = ray_blocks(o, hx, hy, m - 1);
        lemma_over_sound(o.pts, o.ring, hx, hy, o.lists[m - 1], s);
    }
}

/// A hole is connected to the same node.
#[verifier::spinoff_prover]
proof fn lemma_twin_bridge(o: Outline<Exact>, w: Outline<Exact>, k: int, hole: int)
    requires
        twin_outlines(o, w, k),
        is_ring(o.ring, o.pts.len() as int),
        0 <= hole < o.pts.len(),
    ensures
        bridge(w, hole) == bridge(o, hole),
{
    let h = o.pts[hole];
    let n = o.boxes.len() as int;
    assert(0 <= o.ring[0] < o.pts.len());
    lemma_twin_coincide(o.pts, w.pts, k, hole, o.ring[0]);
    lemma_twin_start(k);
    lemma_twin_ray_over(o.pts, w.pts, k, o.ring, hole, o.ring, ray_start(), ray_start());
    lemma_twin_ray_blocks(o, w, k, hole, n);
    lemma_ray_finite(o, hole, n);
    let (s, t) = (ray_cast(o, h.x, h.y), ray_cast(w, w.pts[hole].x, w.pts[hole].y));
    assert(twin_rays(s, t, k) && sound(s, h.x));
    if !s.done && s.m is Some {
        let m0 = s.m->0;
        lemma_ray_in(o, hole);
        assert(o.ring.contains(m0));
        let i = o.ring.index_of(m0);
        assert(0 <= i < o.ring.len() && o.ring[i] == m0);
        assert(0 <= o.ring[i] < o.pts.len());
        let start = Lean { m: m0, tan: Exact::infinity_spec() };
        lemma_twin_lean_over(
            o.pts,
            w.pts,
            k,
            o.ring,
            hole,
            s.qx,
            t.qx,
            m0,
            o.ring,
            start,
            start,
        );
        lemma_twin_lean_blocks(o, w, k, hole, s.qx, t.qx, m0, n);
    }
}

/// What the ray has met is a node of the ring.
proof fn lemma_ray_in(o: Outline<Exact>, hole: int)
    requires
        o.ring.len() > 0,
    ensures
        ray_cast(o, o.pts[hole].x, o.pts[hole].y).m matches Some(m) ==> o.ring.contains(m),
{
    let h = o.pts[hole];
    lemma_ray_over_in(o.pts, o.ring, h.x, h.y, o.ring, ray_start());
    lemma_ray_blocks_in(o, h.x, h.y, o.boxes.len() as int);
}

// ---------------------------------------------------------------------------------------------
// Merging holes
// ---------------------------------------------------------------------------------------------
/// A hole is joined alike.
#[verifier::spinoff_prover]
proof fn lemma_twin_connected(
    o: Outline<Exact>,
    w: Outline<Exact>,
    k: int,
    hole: Seq<int>,
    b: int,
)
    requires
        twin_outlines(o, w, k),
        sound_outline(o),
        is_ring(hole, o.pts.len() as int),
        apart_from(o.ring, hole),
        o.ring.contains(b),
    ensures
        twin_outlines(connected(o, hole, b), connected(w, hole, b), k),
        sound_outline(connected(o, hole, b)),
{
    let n = o.pts.len() as int;
    let i = o.ring.index_of(b);
    assert(0 <= i < o.ring.len() && o.ring[i] == b);
    assert(0 <= o.ring[i] < n && 0 <= hole[0] < n);
    let r = seen_from(o.ring, b);
    lemma_turned_to_ring(o.ring, i, n);
    assert forall|h: int| #[trigger] hole.contains(h) implies !r.contains(h) by {
        assert(!o.ring.contains(h));
    }
    lemma_joined_ring(r, hole, n);
    lemma_twin_bridged(o.pts, w.pts, k, b, hole[0]);
    let all = Outline {
        pts: bridged(o.pts, b, hole[0]),
        ring: joined(r, hole, n),
        owner: o.owner.push(0).push(0),
        ..o
    };
    let wide = Outline {
        pts: bridged(w.pts, b, hole[0]),
        ring: joined(r, hole, n),
        owner: w.owner.push(0).push(0),
        ..w
    };
    assert(twin_outlines(all, wide, k));
    if o.boxes.len() > 0 {
        lemma_plain_ranked();
        lemma_connected_covered(plain_rank(), plain_values(), o, hole, b);
        let run = slit_run(b, hole, n);
        let j = after(0, r.len() as int);
        assert(0 <= r[j] < n);
        assert(in_table(run, n + 2)) by {
            assert forall|m: int| 0 <= m < run.len() implies 0 <= #[trigger] run[m] < n + 2 by {
                if 1 <= m <= hole.len() {
                    assert(run[m] == hole[m - 1]);
                    assert(0 <= hole[m - 1] < n);
                }
            }
        }
        lemma_twin_indexed(all, wide, k, run, succ(r, 0));
    }
}

/// A hole is merged alike.
#[verifier::spinoff_prover]
proof fn lemma_twin_merged(o: Outline<Exact>, w: Outline<Exact>, k: int, hole: Seq<int>)
    requires
        twin_outlines(o, w, k),
        sound_outline(o),
        is_ring(hole, o.pts.len() as int),
        apart_from(o.ring, hole),
    ensures
        twin_outlines(merged(o, hole), merged(w, hole), k),
        sound_outline(merged(o, hole)),
{
    assert(0 <= hole[0] < o.pts.len());
    lemma_twin_bridge(o, w, k, hole[0]);
    lemma_bridge(o, hole[0]);
    match bridge(o, hole[0]) {
        None => {},
        Some(b) => {
            let (c, d) = (connected(o, hole, b), connected(w, hole, b));
            lemma_twin_connected(o, w, k, hole, b);
            lemma_twin_slit(c, d, k, b);
        },
    }
}

/// The edges of a slit heal alike.
proof fn lemma_twin_slit(c: Outline<Exact>, d: Outline<Exact>, k: int, b: int)
    requires
        twin_outlines(c, d, k),
        sound_outline(c),
    ensures
        twin_outlines(slit_healed(c, b), slit_healed(d, b), k),
        sound_outline(slit_healed(c, b)),
{
    lemma_twin_healed_outline(c, d, k);
    lemma_twin_backtracked(c.pts, d.pts, k, c.ring);
    let (one, uno) = (healed_outline(c), healed_outline(d));
    if one.ring.contains(b) {
        let at = one.ring.index_of(b);
        assert(0 <= at < one.ring.len() && one.ring[at] == b);
        lemma_turned_to_ring(one.ring, at, one.pts.len() as int);
        let two = Outline { ring: seen_from(one.ring, b), ..one };
        let due = Outline { ring: seen_from(uno.ring, b), ..uno };
        if one.boxes.len() > 0 {
            lemma_turned_to_covered(plain_rank(), plain_values(), one, at);
        }
        lemma_twin_healed_outline(two, due, k);
    } else if backtracked(c.pts, c.ring).contains(b) {
        lemma_twin_healed_outline(one, uno, k);
    }
}

/// Holes are merged alike.
proof fn lemma_twin_merged_all(
    o: Outline<Exact>,
    w: Outline<Exact>,
    k: int,
    q: Seq<Seq<int>>,
    m: int,
)
    requires
        twin_outlines(o, w, k),
        sound_outline(o),
        rings_apart(o.ring, q, o.pts.len() as int),
        0 <= m <= q.len(),
    ensures
        twin_outlines(merged_all(o, q, m), merged_all(w, q, m), k),
        sound_outline(merged_all(o, q, m)),
    decreases m,
{
    if m > 0 {
        lemma_twin_merged_all(o, w, k, q, m - 1);
        lemma_merged_all_ring(o, q, m - 1);
        let a = merged_all(o, q, m - 1);
        assert(is_ring(q[m - 1], o.pts.len() as int));
        assert(is_ring(q[m - 1], a.pts.len() as int)) by {
            assert forall|i: int| 0 <= i < q[m - 1].len() implies 0 <= #[trigger] q[m - 1][i]
                < a.pts.len() by {}
        }
        assert(apart_from(a.ring, q[m - 1]));
        lemma_twin_merged(a, merged_all(w, q, m - 1), k, q[m - 1]);
    }
}

/// The outline before any hole is merged.
proof fn lemma_twin_outline(
    pts: Seq<Pt<Exact>>,
    big: Seq<Pt<Exact>>,
    k: int,
    ring: Seq<int>,
    count: int,
)
    requires
        twins(pts, big, k),
        is_ring(ring, pts.len() as int),
    ensures
        twin_outlines(outline(pts, ring, count), outline(big, ring, count), k),
        sound_outline(outline(pts, ring, count)),
{
    let a = Outline::<Exact> {
        pts,
        ring,
        boxes: seq![],
        lists: seq![],
        owner: Seq::new(pts.len(), |h: int| 0),
    };
    let b = Outline::<Exact> {
        pts: big,
        ring,
        boxes: seq![],
        lists: seq![],
        owner: Seq::new(big.len(), |h: int| 0),
    };
    assert(a.owner =~= b.owner);
    assert(twin_outlines(a, b, k));
    if count >= BLOCK_INDEX_MIN_NODES {
        assert(0 <= ring[0] < pts.len());
        lemma_twin_indexed(a, b, k, ring, ring[0]);
        lemma_plain_ranked();
        assert(valued(pts, plain_values())) by {
            assert forall|h: int| 0 <= h < pts.len() implies plain_values().contains(
                (#[trigger] pts[h]).x,
            ) && plain_values().contains(pts[h].y) by {
                assert(moderate_node(pts[h]));
            }
        }
        let none = Seq::<Seq<int>>::empty();
        lemma_boxes_cover(plain_rank(), plain_values(), pts, ring, count, none, 0);
    }
}

// ---------------------------------------------------------------------------------------------
// The triangulation
// ---------------------------------------------------------------------------------------------
/// The box around vertices, and around the vertices magnified.
proof fn lemma_twin_extent(data: Seq<Exact>, other: Seq<Exact>, k: int, dim: int, m: int)
    requires
        magnified(data, other, k),
        dim >= 2,
        1 <= m <= data.len() as int / dim,
    ensures
        twin_box(extent(data, dim, m), extent(other, dim, m), k),
    decreases m,
{
    assert(0 * dim == 0) by (nonlinear_arith);
    let v = m - 1;
    lemma_vertex_coordinates(data, dim, v);
    lemma_vertex_coordinates(other, dim, v);
    assert(other[v * dim].num == k * data[v * dim].num);
    assert(other[v * dim + 1].num == k * data[v * dim + 1].num);
    let (x, y) = (data[v * dim], data[v * dim + 1]);
    let (s, t) = (other[v * dim], other[v * dim + 1]);
    assert(scaled(x, s, k, 1) && scaled(y, t, k, 1));
    if m > 1 {
        lemma_twin_extent(data, other, k, dim, m - 1);
        let (b, c) = (extent(data, dim, m - 1), extent(other, dim, m - 1));
        lemma_scaled_order(x, s, k, 1, b.min_x, c.min_x, k, 1);
        lemma_scaled_order(x, s, k, 1, b.max_x, c.max_x, k, 1);
        lemma_scaled_order(y, t, k, 1, b.min_y, c.min_y, k, 1);
        lemma_scaled_order(y, t, k, 1, b.max_y, c.max_y, k, 1);
    }
}

/// The grid over a box, and over its twin.
proof fn lemma_twin_grid(data: Seq<Exact>, other: Seq<Exact>, k: int, dim: int, m: int)
    requires
        magnified(data, other, k),
        dim >= 2,
        1 <= m <= data.len() as int / dim,
    ensures
        twin_grids(ear_grid(data, dim, m), ear_grid(other, dim, m), k),
{
    lemma_whole(0, 0);
    if data.len() as int / dim > HASH_MIN_VERTICES {
        let (b, c) = (extent(data, dim, m), extent(other, dim, m));
        lemma_twin_extent(data, other, k, dim, m);
        lemma_extent(data, dim, m);
        lemma_extent(other, dim, m);
        lemma_extent_covers(data, dim, m, 0);
        lemma_extent_covers(other, dim, m, 0);
        lemma_vertex_coordinates(data, dim, 0);
        let (x0, y0, x1, y1) = (
            b.min_x.num as int,
            b.min_y.num as int,
            b.max_x.num as int,
            b.max_y.num as int,
        );
        let p = (vertex_xy(data, dim, 0).0.num as int, vertex_xy(data, dim, 0).1.num as int);
        assert(b.min_x == whole(x0) && b.min_y == whole(y0) && b.max_x == whole(x1) && b.max_y
            == whole(y1));
        assert(c.min_x == whole(k * x0) && c.min_y == whole(k * y0) && c.max_x == whole(k * x1)
            && c.max_y == whole(k * y1));
        lemma_picked(x0, p.0);
        lemma_picked(p.0, x1);
        lemma_picked(y0, p.1);
        lemma_picked(p.1, y1);
        let (dx, dy) = (x1 - x0, y1 - y0);
        assert(k * x1 - k * x0 == k * dx && k * y1 - k * y0 == k * dy) by (nonlinear_arith)
            requires
                dx == x1 - x0,
                dy == y1 - y0,
        ;
        lemma_whole(x1, x0);
        lemma_whole(y1, y0);
        lemma_whole(k * x1, k * x0);
        lemma_whole(k * y1, k * y0);
        lemma_picked(dx, dy);
        lemma_picked(k * dx, k * dy);
        lemma_zoom_order(k, dx, dy);
        let size = if dx < dy {
            dy
        } else {
            dx
        };
        lemma_whole(size, 0);
        lemma_whole(k * size, 0);
        lemma_zoom_order(k, size, 0);
        let (g, h) = (grid_over(b), grid_over(c));
        if size != 0 {
            assert(grids_by(g, h, k, size));
        }
    }
}

/// The triangulation of a polygon does not depend on the scale: multiplying all coordinates by a
/// positive integer, such as two, changes no triangle, as long as they are integers of moderate
/// size before and after that.
pub proof fn lemma_scaling(
    data: Seq<Exact>,
    other: Seq<Exact>,
    k: int,
    holes: Seq<usize>,
    dim: int,
)
    requires
        is_flat(data, holes, dim),
        magnified(data, other, k),
    ensures
        triangulation(other, holes, dim) == triangulation(data, holes, dim),
{
    let count = data.len() as int / dim;
    let outer = outer_count(holes, count);
    vstd::arithmetic::div_mod::lemma_div_pos_is_pos(data.len() as int, dim);
    assert(0 <= outer <= count);
    let none = Seq::<Pt<Exact>>::empty();
    assert(twins(none, none, k));
    lemma_twin_listed(none, none, k, data, other, dim, 0, outer, true);
    let (l, c) = (outer_ring(data, holes, dim), outer_ring(other, holes, dim));
    if data.len() > 0 && l.ring.len() > 2 {
        assert(outer > 0);
        lemma_listed_ring(none, data, dim, 0, outer, true);
        lemma_twin_grid(data, other, k, dim, outer);
        lemma_twin_single(data, other, k, holes, dim);
        let (u, w) = (single_ring(data, holes, dim), single_ring(other, holes, dim));
        lemma_twin_sliced(
            u.pts,
            w.pts,
            k,
            u.ring,
            ear_grid(data, dim, outer),
            ear_grid(other, dim, outer),
        );
    }
}

/// The single ring of a polygon, and of the polygon magnified.
#[verifier::spinoff_prover]
proof fn lemma_twin_single(
    data: Seq<Exact>,
    other: Seq<Exact>,
    k: int,
    holes: Seq<usize>,
    dim: int,
)
    requires
        is_flat(data, holes, dim),
        magnified(data, other, k),
        twins(outer_ring(data, holes, dim).pts, outer_ring(other, holes, dim).pts, k),
        outer_ring(data, holes, dim).ring == outer_ring(other, holes, dim).ring,
        is_ring(
            outer_ring(data, holes, dim).ring,
            outer_ring(data, holes, dim).pts.len() as int,
        ),
    ensures
        ({
            let (u, w) = (single_ring(data, holes, dim), single_ring(other, holes, dim));
            &&& twins(u.pts, w.pts, k)
            &&& u.ring == w.ring
            &&& is_ring(u.ring, u.pts.len() as int)
        }),
{
    let count = data.len() as int / dim;
    let (l, c) = (outer_ring(data, holes, dim), outer_ring(other, holes, dim));
    if holes.len() > 0 {
        let m = holes.len() as int;
        lemma_twin_queued(l.pts, c.pts, k, data, other, dim, holes, m);
        let q = queued(l.pts, data, dim, holes, m);
        let r = queued(c.pts, other, dim, holes, m);
        let n = q.pts.len() as int;
        lemma_queued_rings(l.pts, data, dim, holes, m, l.ring);
        assert(in_tables(q.holes, n)) by {
            assert forall|j: int| 0 <= j < q.holes.len() implies in_table(#[trigger] q.holes[j], n)
                && q.holes[j].len() > 0 by {
                assert(is_ring(q.holes[j], n));
            }
        }
        lemma_twin_in_order(q.pts, r.pts, k, q.holes);
        lemma_in_order_apart(q.pts, l.ring, q.holes, n);
        let s = in_order(q.pts, q.holes);
        assert(is_ring(l.ring, n)) by {
            assert forall|i: int| 0 <= i < l.ring.len() implies 0 <= #[trigger] l.ring[i] < n by {}
        }
        lemma_twin_outline(q.pts, r.pts, k, l.ring, count);
        let (o, w) = (outline(q.pts, l.ring, count), outline(r.pts, l.ring, count));
        assert(o.ring == l.ring && o.pts == q.pts);
        lemma_twin_merged_all(o, w, k, s, s.len() as int);
        let (a, b) = (merged_all(o, s, s.len() as int), merged_all(w, s, s.len() as int));
        lemma_twin_swept(a.pts, b.pts, k, a.ring, 0);
        lemma_swept_ring(a.pts, a.ring, 0, a.pts.len() as int);
    }
}

} // verus!
