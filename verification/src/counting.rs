//! A polygon is sliced completely if its triangulation has as many triangles as it can have.
use vstd::prelude::*;
use crate::bounds::{
    hole_vertices, in_table, lemma_in_order_ok, lemma_listed, lemma_merged, lemma_merged_all,
    lemma_queued, lemma_sliced, lemma_without_holes, outline_ok, total_len,
};
use crate::deviation::deviation_spec;
use crate::exact::Exact;
use crate::exact_areas::{integral, lemma_no_deviation, rings_countable};
use crate::exact_simple::{finer, lemma_integral_tiling};
use crate::geometry::zero;
use crate::hole_model::{bridge, in_order, merged_all, outline, queued, Outline};
use crate::model::lemma_swept_len;
use crate::polygon_areas::{all_connected, corners, hole_connected, net_sum, sliced_completely};
use crate::scalar::Scalar;
use crate::tiling::{by_winding, layers, off_sides};
use crate::triangulation::{
    ear_grid, is_flat, lemma_count_fits, outer_count, outer_ring, single_ring, triangulation,
};

verus! {

/// The number of triangles of a polygon all of whose vertices are corners of them: two less than
/// there are vertices, and two more for each hole.
pub open spec fn full_count(holes: Seq<usize>, count: int) -> int {
    outer_count(holes, count) + hole_vertices(holes, count, holes.len() as int) + 2 * holes.len()
        - 2
}

/// Where the outline has all nodes of the holes, and two more for each, every hole has been
/// connected.
proof fn lemma_nodes_counted<C: Scalar>(
    o: Outline<C>,
    q: Seq<Seq<int>>,
    k: int,
    count: int,
)
    requires
        outline_ok(o, count, o.ring.len() as int),
        forall|j: int|
            0 <= j < q.len() ==> in_table(#[trigger] q[j], o.pts.len() as int) && q[j].len() > 0,
        0 <= k <= q.len(),
        merged_all(o, q, k).ring.len() == o.ring.len() + total_len(q, k) + 2 * k,
    ensures
        all_connected(o, q, k),
    decreases k,
{
    if k > 0 {
        let len = o.ring.len() as int;
        let m = merged_all(o, q, k - 1);
        lemma_merged_all(o, q, k - 1, count, len);
        assert(in_table(q[k - 1], o.pts.len() as int) && q[k - 1].len() > 0);
        assert(o.pts.len() <= m.pts.len());
        lemma_merged(m, q[k - 1], count, m.ring.len() as int);
        lemma_nodes_counted(o, q, k - 1, count);
        assert forall|j: int| 0 <= j < k implies #[trigger] hole_connected(o, q, j) by {
            if j == k - 1 {
                reveal(hole_connected);
                assert(bridge(m, q[j][0]) is Some);
            }
        }
    }
}

/// A polygon is sliced completely if its triangulation has as many triangles as it can have: two
/// less than there are vertices, and two more for each hole. This holds of coordinates of any
/// type.
pub proof fn lemma_full_count<C: Scalar>(data: Seq<C>, holes: Seq<usize>, dim: int)
    requires
        is_flat(data, holes, dim),
        data.len() <= usize::MAX,
        triangulation(data, holes, dim).len() > 0,
        triangulation(data, holes, dim).len() == 3 * full_count(holes, data.len() as int / dim),
    ensures
        sliced_completely(data, holes, dim),
{
    let count = data.len() as int / dim;
    let outer = outer_count(holes, count);
    let l = outer_ring(data, holes, dim);
    let w = single_ring(data, holes, dim);
    let g = ear_grid(data, dim, outer);
    lemma_count_fits(data.len() as int, dim);
    assert(holes.len() > 0 ==> holes[0] <= count);
    lemma_listed(Seq::empty(), data, dim, 0, outer, true, count);
    let q = queued(l.pts, data, dim, holes, holes.len() as int);
    let s = in_order(q.pts, q.holes);
    let o = outline(q.pts, l.ring, count);
    let n = q.pts.len() as int;
    lemma_queued(l.pts, data, dim, holes, holes.len() as int, count);
    lemma_in_order_ok(q.pts, q.holes, n);
    if holes.len() > 0 {
        lemma_without_holes(l, data, dim, holes, count);
    }
    lemma_sliced(w.pts, w.ring, g, count);
    assert(w.ring.len() > 2);
    assert(w.ring.len() >= full_count(holes, count) + 2);
    assert(outline_ok(o, count, l.ring.len() as int)) by {
        assert(o.ring == l.ring && o.pts == q.pts);
        assert forall|k: int| 0 <= k < o.ring.len() implies 0 <= #[trigger] o.ring[k] < n by {
            assert(0 <= l.ring[k] < l.pts.len());
        }
    }
    lemma_merged_all(o, s, s.len() as int, count, l.ring.len() as int);
    let all = merged_all(o, s, s.len() as int);
    lemma_swept_len(all.pts, all.ring, 0);
    if holes.len() > 0 {
        assert(w.ring.len() <= all.ring.len());
    }
    lemma_nodes_counted(o, s, s.len() as int, count);
}

/// The triangulation of a polygon with integer coordinates of moderate size, which may have holes,
/// has no deviation if it has as many triangles as it can have.
pub proof fn lemma_full_area(data: Seq<Exact>, holes: Seq<usize>, dim: int)
    requires
        is_flat(data, holes, dim),
        integral(data),
        rings_countable(holes, data.len() as int / dim),
        triangulation(data, holes, dim).len() > 0,
        triangulation(data, holes, dim).len() == 3 * full_count(holes, data.len() as int / dim),
    ensures
        deviation_spec(data, holes, dim, triangulation(data, holes, dim)).same_spec(
            zero::<Exact>(),
        ),
{
    lemma_full_count(data, holes, dim);
    lemma_no_deviation(data, holes, dim);
}

/// The triangles of a polygon with integer coordinates of moderate size, which may have holes,
/// cover it and leave its holes out if there are as many of them as there can be: a point on none
/// of their sides lies in as many of them as the outer ring runs around it, less the holes. The
/// point is `q / k`: the polygon is magnified `k` times to compare it with `q`.
pub proof fn lemma_full_tiling(
    data: Seq<Exact>,
    holes: Seq<usize>,
    dim: int,
    k: int,
    q: (int, int),
)
    requires
        is_flat(data, holes, dim),
        integral(data),
        triangulation(data, holes, dim).len() > 0,
        triangulation(data, holes, dim).len() == 3 * full_count(holes, data.len() as int / dim),
        k > 0,
        off_sides(corners(finer(k), data, dim), triangulation(data, holes, dim), q),
    ensures
        layers(corners(finer(k), data, dim), triangulation(data, holes, dim), q) == net_sum(
            by_winding(q),
            corners(finer(k), data, dim),
            holes,
            data.len() as int / dim,
            holes.len() as int,
        ),
{
    lemma_full_count(data, holes, dim);
    lemma_integral_tiling(data, holes, dim, k, q);
}

} // verus!
