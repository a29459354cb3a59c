//! Only the first two numbers of a vertex matter.
use vstd::prelude::*;
use crate::deviation::{are_triangles, deviation_spec, polygon_area, triangles_area};
use crate::geometry::{shoelace_from, signed_area_spec};
use crate::hole_model::{hole_end, listed, queued, without_holes, wound};
use crate::model::Pt;
use crate::scalar::Scalar;
use crate::triangulation::{
    ear_grid, extent, is_flat, outer_count, outer_ring, single_ring, triangulation,
};

verus! {

/// The coordinates of the vertex `v` in the plane.
pub open spec fn plane<C>(data: Seq<C>, dim: int, v: int) -> (C, C) {
    (data[v * dim], data[v * dim + 1])
}

/// The vertices of the one polygon, `dim` numbers each, are where those of the other are, of which
/// each has `size` numbers.
pub open spec fn same_plane<C>(data: Seq<C>, dim: int, other: Seq<C>, size: int) -> bool {
    &&& dim >= 2
    &&& size >= 2
    &&& data.len() as int % dim == 0
    &&& other.len() as int % size == 0
    &&& data.len() as int / dim == other.len() as int / size
    &&& forall|v: int|
        0 <= v < data.len() as int / dim ==> #[trigger] plane(data, dim, v) == plane(
            other,
            size,
            v,
        )
}

/// Summing up a ring is the same for both.
proof fn lemma_same_shoelace<C: Scalar>(
    data: Seq<C>,
    dim: int,
    other: Seq<C>,
    size: int,
    to: int,
    i: int,
    j: int,
    sum: C,
)
    requires
        same_plane(data, dim, other, size),
        0 <= i,
        i < to ==> 0 <= j < data.len() as int / dim,
        to <= data.len() as int / dim,
    ensures
        shoelace_from(data, to * dim, dim, i * dim, j * dim, sum) == shoelace_from(
            other,
            to * size,
            size,
            i * size,
            j * size,
            sum,
        ),
    decreases to - i,
{
    assert(i < to <==> i * dim < to * dim) by (nonlinear_arith)
        requires
            dim >= 2,
    ;
    assert(i < to <==> i * size < to * size) by (nonlinear_arith)
        requires
            size >= 2,
    ;
    if i < to {
        assert(i * dim + dim == (i + 1) * dim) by (nonlinear_arith);
        assert(i * size + size == (i + 1) * size) by (nonlinear_arith);
        assert(plane(data, dim, i) == plane(other, size, i));
        assert(plane(data, dim, j) == plane(other, size, j));
        let next = sum.plus_spec(
            data[j * dim].minus_spec(data[i * dim]).times_spec(
                data[i * dim + 1].plus_spec(data[j * dim + 1]),
            ),
        );
        lemma_same_shoelace(data, dim, other, size, to, i + 1, i, next);
    }
}

/// The signed area of a ring is the same for both.
proof fn lemma_same_area<C: Scalar>(
    data: Seq<C>,
    dim: int,
    other: Seq<C>,
    size: int,
    from: int,
    to: int,
)
    requires
        same_plane(data, dim, other, size),
        0 <= from,
        0 <= to <= data.len() as int / dim,
    ensures
        signed_area_spec(data, from * dim, to * dim, dim) == signed_area_spec(
            other,
            from * size,
            to * size,
            size,
        ),
{
    if to == 0 {
        assert(to * dim == 0 && to * size == 0 && from * dim >= 0 && from * size >= 0) by (
        nonlinear_arith)
            requires
                to == 0,
                from >= 0,
                dim >= 2,
                size >= 2,
        ;
    } else {
        assert((to - 1) * dim == to * dim - dim && to * dim >= dim) by (nonlinear_arith)
            requires
                to >= 1,
                dim >= 2,
        ;
        assert((to - 1) * size == to * size - size && to * size >= size) by (nonlinear_arith)
            requires
                to >= 1,
                size >= 2,
        ;
        lemma_same_shoelace(data, dim, other, size, to, from, to - 1, C::from_int_spec(0));
    }
}

/// A ring is listed in the same way for both.
proof fn lemma_same_listed<C: Scalar>(
    pts: Seq<Pt<C>>,
    data: Seq<C>,
    dim: int,
    other: Seq<C>,
    size: int,
    from: int,
    to: int,
    clockwise: bool,
)
    requires
        same_plane(data, dim, other, size),
        0 <= from,
        0 <= to <= data.len() as int / dim,
    ensures
        listed(pts, data, dim, from, to, clockwise) == listed(
            pts,
            other,
            size,
            from,
            to,
            clockwise,
        ),
{
    lemma_same_area(data, dim, other, size, from, to);
    let a = wound(data, dim, from, to, clockwise);
    let b = wound(other, size, from, to, clockwise);
    assert(a =~= b) by {
        assert forall|k: int| 0 <= k < a.len() implies #[trigger] a[k] == b[k] by {
            let v = if clockwise == C::from_int_spec(0).less_spec(
                signed_area_spec(data, from * dim, to * dim, dim),
            ) {
                from + k
            } else {
                to - 1 - k
            };
            assert(plane(data, dim, v) == plane(other, size, v));
        }
    }
}

/// Holes are read in the same way for both.
proof fn lemma_same_queue<C: Scalar>(
    pts: Seq<Pt<C>>,
    data: Seq<C>,
    dim: int,
    other: Seq<C>,
    size: int,
    holes: Seq<usize>,
    k: int,
)
    requires
        same_plane(data, dim, other, size),
        is_flat(data, holes, dim),
        k <= holes.len(),
    ensures
        queued(pts, data, dim, holes, k) == queued(pts, other, size, holes, k),
    decreases k,
{
    if k > 0 {
        let count = data.len() as int / dim;
        lemma_same_queue(pts, data, dim, other, size, holes, k - 1);
        vstd::arithmetic::div_mod::lemma_div_pos_is_pos(data.len() as int, dim);
        assert(0 <= hole_end(holes, count, k - 1) <= count);
        lemma_same_listed(
            queued(pts, data, dim, holes, k - 1).pts,
            data,
            dim,
            other,
            size,
            holes[k - 1] as int,
            hole_end(holes, count, k - 1),
            false,
        );
    }
}

/// The box around vertices is the same for both.
proof fn lemma_same_extent<C: Scalar>(
    data: Seq<C>,
    dim: int,
    other: Seq<C>,
    size: int,
    k: int,
)
    requires
        same_plane(data, dim, other, size),
        data.len() as int / dim > 0,
        k <= data.len() as int / dim,
    ensures
        extent(data, dim, k) == extent(other, size, k),
    decreases k,
{
    if k <= 1 {
        assert(plane(data, dim, 0) == plane(other, size, 0));
        assert(0 * dim == 0 && 0 * size == 0) by (nonlinear_arith);
    } else {
        lemma_same_extent(data, dim, other, size, k - 1);
        assert(plane(data, dim, k - 1) == plane(other, size, k - 1));
    }
}

/// Vertices are counted alike.
proof fn lemma_same_count(len: int, dim: int)
    requires
        len >= 0,
        dim >= 2,
        len % dim == 0,
    ensures
        0 <= len / dim,
        len == 0 <==> len / dim == 0,
{
    vstd::arithmetic::div_mod::lemma_fundamental_div_mod(len, dim);
    vstd::arithmetic::div_mod::lemma_div_pos_is_pos(len, dim);
    assert(len / dim == 0 ==> dim * (len / dim) == 0) by (nonlinear_arith);
    assert(len == 0 ==> len / dim == 0) by (nonlinear_arith)
        requires
            dim >= 2,
    ;
}

/// Of the numbers of each vertex only the first two matter: polygons whose vertices are in the same
/// places of the plane have the same triangulation, however many numbers each vertex has.
pub proof fn lemma_planar<C: Scalar>(
    data: Seq<C>,
    dim: int,
    other: Seq<C>,
    size: int,
    holes: Seq<usize>,
)
    requires
        is_flat(data, holes, dim),
        same_plane(data, dim, other, size),
    ensures
        is_flat(other, holes, size),
        triangulation(other, holes, size) == triangulation(data, holes, dim),
{
    let count = data.len() as int / dim;
    let outer = outer_count(holes, count);
    lemma_same_count(data.len() as int, dim);
    lemma_same_count(other.len() as int, size);
    assert(0 <= outer <= count);
    assert(0 * dim == 0 && 0 * size == 0) by (nonlinear_arith);
    lemma_same_listed(Seq::empty(), data, dim, other, size, 0, outer, true);
    let l = outer_ring(data, holes, dim);
    assert(outer_ring(other, holes, size) == l);
    if data.len() > 0 && l.ring.len() > 2 {
        lemma_same_extent(data, dim, other, size, outer);
        assert(ear_grid(data, dim, outer) == ear_grid(other, size, outer));
        if holes.len() > 0 {
            lemma_same_queue(l.pts, data, dim, other, size, holes, holes.len() as int);
            assert(without_holes(l, data, dim, holes) == without_holes(l, other, size, holes));
        }
        assert(single_ring(data, holes, dim) == single_ring(other, holes, size));
    }
}

/// The area of a polygon is the same for both.
proof fn lemma_same_polygon<C: Scalar>(
    data: Seq<C>,
    dim: int,
    other: Seq<C>,
    size: int,
    holes: Seq<usize>,
    k: int,
)
    requires
        same_plane(data, dim, other, size),
        is_flat(data, holes, dim),
        k <= holes.len(),
    ensures
        polygon_area(data, holes, dim, k) == polygon_area(other, holes, size, k),
    decreases k,
{
    let count = data.len() as int / dim;
    lemma_same_count(data.len() as int, dim);
    if k <= 0 {
        lemma_same_area(data, dim, other, size, 0, outer_count(holes, count));
        assert(0 * dim == 0 && 0 * size == 0) by (nonlinear_arith);
    } else {
        lemma_same_polygon(data, dim, other, size, holes, k - 1);
        assert(0 <= hole_end(holes, count, k - 1) <= count);
        lemma_same_area(
            data,
            dim,
            other,
            size,
            holes[k - 1] as int,
            hole_end(holes, count, k - 1),
        );
    }
}

/// The area of triangles is the same for both.
proof fn lemma_same_triangles<C: Scalar>(
    data: Seq<C>,
    dim: int,
    other: Seq<C>,
    size: int,
    tris: Seq<usize>,
    k: int,
)
    requires
        same_plane(data, dim, other, size),
        are_triangles(tris, data.len() as int / dim),
        3 * k <= tris.len(),
    ensures
        triangles_area(data, dim, tris, k) == triangles_area(other, size, tris, k),
    decreases k,
{
    if k > 0 {
        lemma_same_triangles(data, dim, other, size, tris, k - 1);
        let (a, b, c) = (tris[3 * k - 3] as int, tris[3 * k - 2] as int, tris[3 * k - 1] as int);
        assert(plane(data, dim, a) == plane(other, size, a));
        assert(plane(data, dim, b) == plane(other, size, b));
        assert(plane(data, dim, c) == plane(other, size, c));
    }
}

/// Polygons whose vertices are in the same places of the plane have the same deviation from the
/// same triangles, however many numbers each vertex has.
pub proof fn lemma_planar_deviation<C: Scalar>(
    data: Seq<C>,
    dim: int,
    other: Seq<C>,
    size: int,
    holes: Seq<usize>,
    tris: Seq<usize>,
)
    requires
        is_flat(data, holes, dim),
        same_plane(data, dim, other, size),
        are_triangles(tris, data.len() as int / dim),
    ensures
        deviation_spec(other, holes, size, tris) == deviation_spec(data, holes, dim, tris),
{
    lemma_same_polygon(data, dim, other, size, holes, holes.len() as int);
    lemma_same_triangles(data, dim, other, size, tris, tris.len() as int / 3);
}

} // verus!
