//! The signed area of a ring that is part of the data, wherever it starts.
use vstd::prelude::*;
use crate::areas::tris_area;
use crate::exact::{whole, Exact};
use crate::exact_areas::{integer, integral};
use crate::exact_measures::{backwards, lemma_area_backwards, lemma_area_rotated, rotated};
use crate::exact_simple::{corner_ring, lemma_area_sign, lemma_twice_area, vertex_ring};
use crate::geometry::{lemma_next_multiple, shoelace_from, signed_area_spec, zero};
use crate::polygon_areas::corners;
use crate::scalar::Scalar;
use crate::simple::{left_handed, simple};
use crate::triangulation::triangulation;

verus! {

/// The range holds whole vertices, and is part of the data.
pub open spec fn vertex_range<C>(data: Seq<C>, dim: int, start: int, end: int) -> bool {
    &&& dim >= 2
    &&& 0 <= start <= end <= data.len()
    &&& (end - start) % dim == 0
}

/// The shoelace sum over part of the data, from the vertex at `i` on.
proof fn lemma_shoelace_part<C: Scalar>(
    data: Seq<C>,
    start: int,
    end: int,
    dim: int,
    i: int,
    j: int,
    sum: C,
)
    requires
        vertex_range(data, dim, start, end),
        start <= i,
        i < end ==> (i - start) % dim == 0 && start <= j && j + 1 < end,
    ensures
        shoelace_from(data, end, dim, i, j, sum) == shoelace_from(
            data.subrange(start, end),
            end - start,
            dim,
            i - start,
            j - start,
            sum,
        ),
    decreases
            if i < end {
                end - i
            } else {
                0
            },
{
    let part = data.subrange(start, end);
    if i < end {
        lemma_next_multiple(i - start, end - start, dim);
        vstd::arithmetic::div_mod::lemma_mod_add_multiples_vanish(i - start, dim);
        assert((i + dim - start) % dim == 0);
        assert(part[i - start] == data[i] && part[i - start + 1] == data[i + 1]);
        assert(part[j - start] == data[j] && part[j - start + 1] == data[j + 1]);
        let more = sum.plus_spec(
            data[j].minus_spec(data[i]).times_spec(data[i + 1].plus_spec(data[j + 1])),
        );
        lemma_shoelace_part(data, start, end, dim, i + dim, i, more);
    }
}

/// The signed area of a range is that of the vertices in it alone, whatever comes before and after
/// them. This holds of coordinates of any type.
pub proof fn lemma_range_area<C: Scalar>(data: Seq<C>, dim: int, start: int, end: int)
    requires
        vertex_range(data, dim, start, end),
    ensures
        signed_area_spec(data, start, end, dim) == signed_area_spec(
            data.subrange(start, end),
            0,
            end - start,
            dim,
        ),
{
    if start < end {
        lemma_next_multiple(0, end - start, dim);
        lemma_shoelace_part(data, start, end, dim, start, end - dim, zero::<C>());
    }
}

/// The signed area of an empty range is zero.
pub proof fn lemma_range_empty<C: Scalar>(data: Seq<C>, dim: int, start: int)
    ensures
        signed_area_spec(data, start, start, dim) == zero::<C>(),
{
}

/// The vertices of a range.
proof fn lemma_part(data: Seq<Exact>, dim: int, start: int, end: int) -> (n: int)
    requires
        integral(data),
        vertex_range(data, dim, start, end),
    ensures
        ({
            let part = data.subrange(start, end);
            &&& integral(part)
            &&& n == part.len() as int / dim
            &&& n * dim == end - start
            &&& 0 * dim == 0
            &&& 0 <= n
            &&& start < end ==> 0 < n
            &&& part.len() as int % dim == 0
        }),
{
    let part = data.subrange(start, end);
    let n = part.len() as int / dim;
    vstd::arithmetic::div_mod::lemma_fundamental_div_mod(end - start, dim);
    vstd::arithmetic::div_mod::lemma_div_pos_is_pos(end - start, dim);
    assert(dim * n == n * dim && 0 * dim == 0) by (nonlinear_arith);
    assert(n == 0 ==> n * dim == 0) by (nonlinear_arith);
    n
}

/// The signed area of a simple ring with integer coordinates of moderate size, wherever it starts
/// in the data, is not zero, and is positive exactly if the ring runs counterclockwise.
pub proof fn lemma_range_sign(data: Seq<Exact>, dim: int, start: int, end: int)
    requires
        integral(data),
        vertex_range(data, dim, start, end),
        simple(vertex_ring(data.subrange(start, end), dim, 0, (end - start) / dim)),
    ensures
        ({
            let a = signed_area_spec(data, start, end, dim);
            let p = vertex_ring(data.subrange(start, end), dim, 0, (end - start) / dim);
            &&& zero::<Exact>().less_spec(a) <==> left_handed(p)
            &&& a.less_spec(zero::<Exact>()) <==> !left_handed(p)
        }),
{
    let n = lemma_part(data, dim, start, end);
    lemma_range_area(data, dim, start, end);
    lemma_area_sign(data.subrange(start, end), dim, 0, n);
}

/// The signed area of a simple ring with integer coordinates of moderate size, wherever it starts
/// in the data, is, but for its sign, the doubled area of its triangles, which cover it and do not
/// overlap.
pub proof fn lemma_range_twice(data: Seq<Exact>, dim: int, start: int, end: int)
    requires
        integral(data),
        vertex_range(data, dim, start, end),
        simple(corner_ring(data.subrange(start, end), dim)),
    ensures
        ({
            let part = data.subrange(start, end);
            signed_area_spec(data, start, end, dim).magnitude_spec() == whole(
                tris_area(
                    corners(integer(), part, dim),
                    triangulation(part, Seq::empty(), dim),
                ),
            )
        }),
{
    let n = lemma_part(data, dim, start, end);
    lemma_range_area(data, dim, start, end);
    lemma_twice_area(data.subrange(start, end), dim);
}

/// The signed area of a ring with integer coordinates that is run backwards is the same, negated,
/// wherever the two start.
pub proof fn lemma_range_backwards(
    data: Seq<Exact>,
    other: Seq<Exact>,
    dim: int,
    start: int,
    at: int,
    len: int,
)
    requires
        integral(data),
        integral(other),
        vertex_range(data, dim, start, start + len),
        vertex_range(other, dim, at, at + len),
        backwards(
            data.subrange(start, start + len),
            other.subrange(at, at + len),
            dim,
            0,
            len / dim,
        ),
    ensures
        signed_area_spec(other, at, at + len, dim) == zero::<Exact>().minus_spec(
            signed_area_spec(data, start, start + len, dim),
        ),
{
    let n = lemma_part(data, dim, start, start + len);
    let m = lemma_part(other, dim, at, at + len);
    lemma_range_area(data, dim, start, start + len);
    lemma_range_area(other, dim, at, at + len);
    lemma_area_backwards(
        data.subrange(start, start + len),
        other.subrange(at, at + len),
        dim,
        0,
        n,
    );
}

/// The signed area of a ring with integer coordinates is the same whichever of its vertices comes
/// first, and wherever the ring starts in the data.
pub proof fn lemma_range_rotated(
    data: Seq<Exact>,
    other: Seq<Exact>,
    dim: int,
    start: int,
    at: int,
    len: int,
    by: int,
)
    requires
        integral(data),
        integral(other),
        vertex_range(data, dim, start, start + len),
        vertex_range(other, dim, at, at + len),
        0 <= by < len / dim,
        rotated(
            data.subrange(start, start + len),
            other.subrange(at, at + len),
            dim,
            0,
            len / dim,
            by,
        ),
    ensures
        signed_area_spec(other, at, at + len, dim) == signed_area_spec(
            data,
            start,
            start + len,
            dim,
        ),
{
    let n = lemma_part(data, dim, start, start + len);
    let m = lemma_part(other, dim, at, at + len);
    lemma_range_area(data, dim, start, start + len);
    lemma_range_area(other, dim, at, at + len);
    lemma_area_rotated(
        data.subrange(start, start + len),
        other.subrange(at, at + len),
        dim,
        0,
        n,
        by,
    );
}

} // verus!
