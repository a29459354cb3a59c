//! Polygons with integer coordinates meet what the laws ask for.
use vstd::prelude::*;
use crate::areas::{by_area, lemma_by_area};
use crate::bounds::{
    in_table, lemma_bridge, lemma_in_order_ok, lemma_listed, lemma_merged_all, lemma_queued,
    outline_ok, within,
};
use crate::covering::ranked;
use crate::exact::{whole, Exact};
use crate::exact_areas::{
    integer, integral, lemma_integral, lemma_vertex_coordinates, lemma_whole, LIMIT,
};
use crate::geometry::{hashed, Grid};
use crate::hashing::{
    column, lemma_same_slices, lemma_table_on_grid, on_grid, picks, row, LAST_CELL,
};
use crate::hole_model::{
    bridge, connected, in_order, merged, merged_all, outline, queued, sortable, Outline,
};
use crate::model::{bridged, sliced, BBox, Pt};
use crate::polygon_areas::{
    corners, drawn, lemma_bridged_drawn, lemma_listed_sum, lemma_queued_sum, sign_found,
};
use crate::rings::{lemma_listed_ring, lemma_without_holes_ring};
use crate::scalar::Scalar;
use crate::triangulation::{
    ear_grid, extent, grid_over, holes_sortable, is_flat, outer_count, outer_ring, single_ring,
    triangulation, HASH_MIN_VERTICES,
};

verus! {

/// The lesser and the greater of two exact values are one of them.
pub proof fn lemma_exact_picks()
    ensures
        picks::<Exact>(),
{
}

/// The holes of a polygon with integer coordinates can be put in order.
pub proof fn lemma_integral_sortable(data: Seq<Exact>, holes: Seq<usize>, dim: int)
    requires
        is_flat(data, holes, dim),
        integral(data),
    ensures
        holes_sortable(data, holes, dim),
{
    let count = data.len() as int / dim;
    let l = outer_ring(data, holes, dim);
    let q = queued(l.pts, data, dim, holes, holes.len() as int);
    lemma_outer_drawn(data, holes, dim);
    lemma_integral(data, holes, dim);
    lemma_by_area();
    lemma_queued_sum(by_area(), integer(), l.pts, data, holes, dim, holes.len() as int);
    lemma_queued(l.pts, data, dim, holes, holes.len() as int, count);
    assert forall|j: int, k: int| 0 <= j < k < q.holes.len() implies sortable(
        q.pts,
        #[trigger] q.holes[j],
        #[trigger] q.holes[k],
    ) by {
        assert(in_table(q.holes[j], q.pts.len() as int));
        assert(in_table(q.holes[k], q.pts.len() as int));
        let a = q.holes[j][0];
        let b = q.holes[k][0];
        assert(0 <= a < q.pts.len() && 0 <= b < q.pts.len());
        let u = q.pts[a].i as int;
        let v = q.pts[b].i as int;
        lemma_vertex_coordinates(data, dim, u);
        lemma_vertex_coordinates(data, dim, v);
        let at = corners(integer(), data, dim);
        lemma_whole(at(u).0, at(v).0);
        lemma_whole(at(v).0, at(u).0);
        lemma_whole(at(u).1, at(v).1);
        lemma_whole(at(v).1, at(u).1);
    }
}

/// The outer ring is drawn from the data.
pub(crate) proof fn lemma_outer_drawn(data: Seq<Exact>, holes: Seq<usize>, dim: int)
    requires
        is_flat(data, holes, dim),
        integral(data),
    ensures
        ({
            let l = outer_ring(data, holes, dim);
            let count = data.len() as int / dim;
            &&& drawn(l.pts, data, dim)
            &&& within(l.pts, count)
            &&& in_table(l.ring, l.pts.len() as int)
            &&& 0 <= count <= usize::MAX
        }),
{
    let count = data.len() as int / dim;
    let none = Seq::<Pt<Exact>>::empty();
    let outer = outer_count(holes, count);
    vstd::arithmetic::div_mod::lemma_div_pos_is_pos(data.len() as int, dim);
    vstd::arithmetic::div_mod::lemma_div_nonincreasing(data.len() as int, dim);
    lemma_integral(data, holes, dim);
    assert(sign_found(integer(), data, dim, 0, outer));
    lemma_by_area();
    lemma_listed_sum(by_area(), integer(), none, data, holes, dim, 0, outer, true);
    lemma_listed(none, data, dim, 0, outer, true, count);
}

/// Merging holes keeps the table drawn from the data.
proof fn lemma_merged_drawn<C: Scalar>(
    o: Outline<C>,
    q: Seq<Seq<int>>,
    k: int,
    data: Seq<C>,
    dim: int,
    count: int,
    len: int,
)
    requires
        drawn(o.pts, data, dim),
        outline_ok(o, count, len),
        forall|j: int|
            0 <= j < q.len() ==> in_table(#[trigger] q[j], o.pts.len() as int) && q[j].len() > 0,
        0 <= k <= q.len(),
    ensures
        drawn(merged_all(o, q, k).pts, data, dim),
    decreases k,
{
    if k > 0 {
        lemma_merged_drawn(o, q, k - 1, data, dim, count, len);
        lemma_merged_all(o, q, k - 1, count, len);
        let m = merged_all(o, q, k - 1);
        let hole = q[k - 1];
        assert(in_table(hole, o.pts.len() as int) && hole.len() > 0);
        lemma_bridge(m, hole[0]);
        match bridge(m, hole[0]) {
            None => {},
            Some(b) => {
                let i = m.ring.index_of(b);
                assert(0 <= i < m.ring.len() && m.ring[i] == b);
                assert(0 <= m.ring[i] < m.pts.len());
                assert(0 <= hole[0] < o.pts.len());
                lemma_bridged_drawn(m.pts, data, dim, b, hole[0]);
                let c = connected(m, hole, b);
                assert(c.pts == bridged(m.pts, b, hole[0]));
                assert(merged(m, hole).pts == c.pts);
            },
        }
    }
}

/// The single ring of a polygon is drawn from the data.
proof fn lemma_single_drawn(data: Seq<Exact>, holes: Seq<usize>, dim: int)
    requires
        is_flat(data, holes, dim),
        integral(data),
        outer_ring(data, holes, dim).ring.len() > 0,
    ensures
        drawn(single_ring(data, holes, dim).pts, data, dim),
{
    let count = data.len() as int / dim;
    let l = outer_ring(data, holes, dim);
    lemma_outer_drawn(data, holes, dim);
    if holes.len() > 0 {
        let q = queued(l.pts, data, dim, holes, holes.len() as int);
        lemma_integral(data, holes, dim);
        lemma_by_area();
        lemma_queued_sum(by_area(), integer(), l.pts, data, holes, dim, holes.len() as int);
        lemma_queued(l.pts, data, dim, holes, holes.len() as int, count);
        let s = in_order(q.pts, q.holes);
        lemma_in_order_ok(q.pts, q.holes, q.pts.len() as int);
        let o = outline(q.pts, l.ring, count);
        assert(o.ring == l.ring && o.pts == q.pts);
        assert forall|k: int| 0 <= k < o.ring.len() implies 0 <= #[trigger] o.ring[k]
            < o.pts.len() by {
            assert(0 <= l.ring[k] < l.pts.len());
        }
        lemma_merged_drawn(
            o,
            s,
            s.len() as int,
            data,
            dim,
            count,
            l.ring.len() as int,
        );
    }
}

/// The sides of the box are integers of moderate size, in order.
pub(crate) open spec fn integral_box(b: BBox<Exact>) -> bool {
    &&& b.min_x.den == 1 && -LIMIT <= b.min_x.num <= LIMIT
    &&& b.min_y.den == 1 && -LIMIT <= b.min_y.num <= LIMIT
    &&& b.max_x.den == 1 && -LIMIT <= b.max_x.num <= LIMIT
    &&& b.max_y.den == 1 && -LIMIT <= b.max_y.num <= LIMIT
}

/// The box around vertices with integer coordinates has integer sides.
pub(crate) proof fn lemma_extent(data: Seq<Exact>, dim: int, k: int)
    requires
        integral(data),
        dim >= 2,
        1 <= k <= data.len() as int / dim,
    ensures
        integral_box(extent(data, dim, k)),
    decreases k,
{
    lemma_vertex_coordinates(data, dim, 0);
    assert(0 * dim == 0) by (nonlinear_arith);
    assert(data[0].den == 1 && data[1].den == 1);
    if k > 1 {
        lemma_extent(data, dim, k - 1);
        lemma_vertex_coordinates(data, dim, k - 1);
        assert(data[(k - 1) * dim].den == 1 && data[(k - 1) * dim + 1].den == 1);
    }
}

/// All vertices lie in the box around the first `outer` of them.
pub open spec fn all_inside(data: Seq<Exact>, dim: int, outer: int) -> bool {
    let b = extent(data, dim, outer);
    forall|v: int|
        0 <= v < data.len() as int / dim ==> {
            &&& b.min_x.at_most_spec((#[trigger] vertex_xy(data, dim, v)).0)
            &&& vertex_xy(data, dim, v).0.at_most_spec(b.max_x)
            &&& b.min_y.at_most_spec(vertex_xy(data, dim, v).1)
            &&& vertex_xy(data, dim, v).1.at_most_spec(b.max_y)
        }
}

/// The coordinates of a vertex.
pub open spec fn vertex_xy(data: Seq<Exact>, dim: int, v: int) -> (Exact, Exact) {
    (data[v * dim], data[v * dim + 1])
}

/// The column or row of an integer coordinate.
proof fn lemma_cell(x: int, min: int, size: int)
    requires
        -LIMIT <= min <= x <= LIMIT,
        0 < size <= 2 * LIMIT,
        x - min <= size,
    ensures
        ({
            let inv = whole(32767).over_spec(whole(size));
            let cell = whole(x).minus_spec(whole(min)).times_spec(inv).truncated_spec();
            &&& cell == ((x - min) * 32767) / size
            &&& 0 <= cell <= LAST_CELL
        }),
{
    let inv = whole(32767).over_spec(whole(size));
    let d = x - min;
    lemma_whole(x, min);
    assert(whole(32767).num * whole(size).den == 32767 && whole(32767).den * whole(size).num
        == size) by (nonlinear_arith)
        requires
            whole(32767).num == 32767,
            whole(32767).den == 1,
            whole(size).num == size,
            whole(size).den == 1,
    ;
    assert(inv.num == 32767 && inv.den == size);
    let t = whole(d).times_spec(inv);
    assert(whole(d).num * inv.num == d * 32767 && whole(d).den * inv.den == size) by (
    nonlinear_arith)
        requires
            whole(d).num == d,
            whole(d).den == 1,
            inv.num == 32767,
            inv.den == size,
    ;
    assert(t.num == d * 32767 && t.den == size);
    assert(0 <= (d * 32767) / size <= 32767) by (nonlinear_arith)
        requires
            0 <= d <= size,
            size > 0,
    ;
}

/// Columns and rows are found in the order of coordinates.
proof fn lemma_cells_ordered(x: int, y: int, min: int, size: int)
    requires
        min <= x <= y,
        size > 0,
    ensures
        ((x - min) * 32767) / size <= ((y - min) * 32767) / size,
{
    vstd::arithmetic::div_mod::lemma_div_is_ordered((x - min) * 32767, (y - min) * 32767, size);
}

/// The points of a polygon with integer coordinates are on the grid if all of its vertices lie in
/// the box around the outer ring.
pub proof fn lemma_integral_on_grid(
    data: Seq<Exact>,
    holes: Seq<usize>,
    dim: int,
    pts: Seq<Pt<Exact>>,
)
    requires
        is_flat(data, holes, dim),
        integral(data),
        drawn(pts, data, dim),
        1 <= outer_count(holes, data.len() as int / dim),
        all_inside(data, dim, outer_count(holes, data.len() as int / dim)),
        hashed(grid_over(extent(data, dim, outer_count(holes, data.len() as int / dim)))),
    ensures
        on_grid(pts, grid_over(extent(data, dim, outer_count(holes, data.len() as int / dim)))),
{
    let count = data.len() as int / dim;
    let outer = outer_count(holes, count);
    let b = extent(data, dim, outer);
    let g = grid_over(b);
    let at = corners(integer(), data, dim);
    lemma_extent(data, dim, outer);
    let (x0, y0, x1, y1) = (
        b.min_x.num as int,
        b.min_y.num as int,
        b.max_x.num as int,
        b.max_y.num as int,
    );
    assert(b.min_x == whole(x0) && b.min_y == whole(y0) && b.max_x == whole(x1) && b.max_y == whole(
        y1,
    ));
    lemma_whole(x1, x0);
    lemma_whole(y1, y0);
    lemma_whole(x1 - x0, y1 - y0);
    lemma_whole(y1 - y0, x1 - x0);
    let size = if x1 - x0 < y1 - y0 {
        y1 - y0
    } else {
        x1 - x0
    };
    let s = b.max_x.minus_spec(b.min_x).upper_spec(b.max_y.minus_spec(b.min_y));
    assert(s == whole(size));
    lemma_whole(size, 0);
    lemma_whole(0, 0);
    assert(size != 0);
    assert forall|h: int| 0 <= h < pts.len() implies x0 <= at((#[trigger] pts[h]).i as int).0
        <= x1 && y0 <= at(pts[h].i as int).1 <= y1 && pts[h].x == whole(at(pts[h].i as int).0)
        && pts[h].y == whole(at(pts[h].i as int).1) by {
        let v = pts[h].i as int;
        lemma_vertex_coordinates(data, dim, v);
        assert(vertex_xy(data, dim, v).0 == pts[h].x);
        lemma_whole(x0, at(v).0);
        lemma_whole(at(v).0, x1);
        lemma_whole(y0, at(v).1);
        lemma_whole(at(v).1, y1);
    }
    if pts.len() > 0 {
        let v = pts[0].i as int;
        assert(x0 <= at(v).0 <= x1 && y0 <= at(v).1 <= y1);
        lemma_points_on_grid(pts, at, (x0, y0), (x1, y1), size, g);
    }
}

/// Points with integer coordinates between two corners are on the grid over them.
proof fn lemma_points_on_grid(
    pts: Seq<Pt<Exact>>,
    at: spec_fn(int) -> (int, int),
    low: (int, int),
    high: (int, int),
    size: int,
    g: Grid<Exact>,
)
    requires
        -LIMIT <= low.0 && high.0 <= LIMIT,
        -LIMIT <= low.1 && high.1 <= LIMIT,
        0 < size <= 2 * LIMIT,
        high.0 - low.0 <= size,
        high.1 - low.1 <= size,
        g.min_x == whole(low.0),
        g.min_y == whole(low.1),
        g.inv_size == whole(32767).over_spec(whole(size)),
        forall|h: int|
            0 <= h < pts.len() ==> low.0 <= at((#[trigger] pts[h]).i as int).0 <= high.0 && low.1
                <= at(pts[h].i as int).1 <= high.1 && pts[h].x == whole(at(pts[h].i as int).0)
                && pts[h].y == whole(at(pts[h].i as int).1),
    ensures
        on_grid(pts, g),
{
    assert forall|h: int| 0 <= h < pts.len() implies 0 <= column((#[trigger] pts[h]).x, g)
        <= LAST_CELL && 0 <= row(pts[h].y, g) <= LAST_CELL && pts[h].x.same_spec(pts[h].x)
        && pts[h].y.same_spec(pts[h].y) by {
        let v = pts[h].i as int;
        lemma_cell(at(v).0, low.0, size);
        lemma_cell(at(v).1, low.1, size);
        lemma_whole(at(v).0, at(v).0);
        lemma_whole(at(v).1, at(v).1);
    }
    assert forall|p: int, q: int|
        #![trigger pts[p], pts[q]]
        0 <= p < pts.len() && 0 <= q < pts.len() implies (pts[p].x.at_most_spec(pts[q].x) ==> column(
        pts[p].x,
        g,
    ) <= column(pts[q].x, g)) && (pts[p].y.at_most_spec(pts[q].y) ==> row(pts[p].y, g) <= row(
        pts[q].y,
        g,
    )) by {
        let u = pts[p].i as int;
        let v = pts[q].i as int;
        lemma_cells_found(at(u).0, at(v).0, low.0, size);
        lemma_cells_found(at(u).1, at(v).1, low.1, size);
    }
}

/// Of two integer coordinates, the column or row of the lesser is not above that of the greater.
proof fn lemma_cells_found(x: int, y: int, min: int, size: int)
    requires
        -LIMIT <= min <= x <= LIMIT,
        min <= y <= LIMIT,
        0 < size <= 2 * LIMIT,
        x - min <= size,
        y - min <= size,
    ensures
        ({
            let inv = whole(32767).over_spec(whole(size));
            whole(x).at_most_spec(whole(y)) ==> whole(x).minus_spec(whole(min)).times_spec(
                inv,
            ).truncated_spec() <= whole(y).minus_spec(whole(min)).times_spec(inv).truncated_spec()
        }),
{
    lemma_cell(x, min, size);
    lemma_cell(y, min, size);
    lemma_whole(x, y);
    if x <= y {
        lemma_cells_ordered(x, y, min, size);
    }
}

/// For a polygon with integer coordinates whose holes lie in the box around the outer ring,
/// searching ears by z-order gives the triangles that searching through all nodes gives.
pub proof fn lemma_integral_hashing(
    data: Seq<Exact>,
    holes: Seq<usize>,
    dim: int,
    plain: Grid<Exact>,
)
    requires
        is_flat(data, holes, dim),
        integral(data),
        data.len() as int / dim > HASH_MIN_VERTICES,
        outer_ring(data, holes, dim).ring.len() > 2,
        all_inside(data, dim, outer_count(holes, data.len() as int / dim)),
        hashed(ear_grid(data, dim, outer_count(holes, data.len() as int / dim))),
        !hashed(plain),
    ensures
        ({
            let w = single_ring(data, holes, dim);
            triangulation(data, holes, dim) == sliced(w.pts, w.ring, plain).tris
        }),
{
    lemma_integral_slices(data, holes, dim, plain);
}

/// For such a polygon, searching ears by z-order slices the ring that is left of it as searching
/// through all nodes does.
pub(crate) proof fn lemma_integral_slices(
    data: Seq<Exact>,
    holes: Seq<usize>,
    dim: int,
    plain: Grid<Exact>,
)
    requires
        is_flat(data, holes, dim),
        integral(data),
        data.len() as int / dim > HASH_MIN_VERTICES,
        outer_ring(data, holes, dim).ring.len() > 2,
        all_inside(data, dim, outer_count(holes, data.len() as int / dim)),
        hashed(ear_grid(data, dim, outer_count(holes, data.len() as int / dim))),
        !hashed(plain),
    ensures
        ({
            let w = single_ring(data, holes, dim);
            let g = ear_grid(data, dim, outer_count(holes, data.len() as int / dim));
            sliced(w.pts, w.ring, g) == sliced(w.pts, w.ring, plain)
        }),
{
    let w = single_ring(data, holes, dim);
    let outer = outer_count(holes, data.len() as int / dim);
    lemma_outer_drawn(data, holes, dim);
    lemma_single_drawn(data, holes, dim);
    lemma_integral_on_grid(data, holes, dim, w.pts);
    lemma_listed_ring(Seq::empty(), data, dim, 0, outer, true);
    if holes.len() > 0 {
        lemma_without_holes_ring(outer_ring(data, holes, dim), data, dim, holes);
    }
    lemma_table_on_grid(w.pts, w.ring, ear_grid(data, dim, outer));
    lemma_exact_picks();
    lemma_same_slices(w.pts, w.ring, ear_grid(data, dim, outer), plain);
}

/// Integers of moderate size and the infinite values.
pub open spec fn plain_values() -> Set<Exact> {
    Set::new(
        |c: Exact|
            (c.den == 1 && -LIMIT <= c.num <= LIMIT) || c == Exact::infinity_spec() || c
                == Exact::neg_infinity_spec(),
    )
}

/// The order of such values.
pub open spec fn plain_rank() -> spec_fn(Exact) -> int {
    |c: Exact|
        if c.den == 1 {
            c.num as int
        } else {
            c.num * (LIMIT + 1)
        }
}

/// Integers of moderate size and the infinite values are ordered.
pub proof fn lemma_plain_ranked()
    ensures
        ranked(plain_rank(), plain_values()),
{
    let rank = plain_rank();
    let values = plain_values();
    assert forall|u: Exact, v: Exact| values.contains(u) && values.contains(v) implies (
    #[trigger] u.less_spec(v) <==> rank(u) < rank(v)) by {
        lemma_plain_less(u, v);
    }
    assert forall|u: Exact, v: Exact| values.contains(u) && values.contains(v) implies values.contains(
        #[trigger] u.lower_spec(v),
    ) && rank(u.lower_spec(v)) <= rank(u) && rank(u.lower_spec(v)) <= rank(v) by {
        lemma_plain_less(v, u);
    }
    assert forall|u: Exact, v: Exact| values.contains(u) && values.contains(v) implies values.contains(
        #[trigger] u.upper_spec(v),
    ) && rank(u) <= rank(u.upper_spec(v)) && rank(v) <= rank(u.upper_spec(v)) by {
        lemma_plain_less(u, v);
    }
}

/// The order of two such values.
pub(crate) proof fn lemma_plain_less(u: Exact, v: Exact)
    requires
        plain_values().contains(u),
        plain_values().contains(v),
    ensures
        u.less_spec(v) <==> plain_rank()(u) < plain_rank()(v),
{
    let l = u.num * v.den;
    let r = v.num * u.den;
    assert(v.den == 1 ==> l == u.num) by (nonlinear_arith)
        requires
            l == u.num * v.den,
    ;
    assert(v.den == 0 ==> l == 0) by (nonlinear_arith)
        requires
            l == u.num * v.den,
    ;
    assert(u.den == 1 ==> r == v.num) by (nonlinear_arith)
        requires
            r == v.num * u.den,
    ;
    assert(u.den == 0 ==> r == 0) by (nonlinear_arith)
        requires
            r == v.num * u.den,
    ;
}

} // verus!
