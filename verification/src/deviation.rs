//! How far the area of a triangulation is from that of the polygon.
use vstd::prelude::*;
use crate::geometry::{lemma_multiples_apart, signed_area, signed_area_spec, zero};
use crate::hole_model::{hole_end, holes_fit};
use crate::holes::{lemma_count, lemma_fits};
use crate::index::{vertices, EarcutIndex};
use crate::scalar::Scalar;
use crate::triangulation::{is_flat, outer_count};

verus! {

/// The area of the outer ring less that of the first `k` holes, doubled.
pub open spec fn polygon_area<C: Scalar>(data: Seq<C>, holes: Seq<usize>, dim: int, k: int) -> C
    decreases k,
{
    let count = if dim == 0 {
        0
    } else {
        data.len() as int / dim
    };
    if k <= 0 {
        signed_area_spec(data, 0, outer_count(holes, count) * dim, dim).magnitude_spec()
    } else {
        polygon_area(data, holes, dim, k - 1).minus_spec(
            signed_area_spec(
                data,
                holes[k - 1] * dim,
                hole_end(holes, count, k - 1) * dim,
                dim,
            ).magnitude_spec(),
        )
    }
}

/// The area of the triangle of three vertices, doubled.
pub open spec fn triangle_area<C: Scalar>(data: Seq<C>, dim: int, a: int, b: int, c: int) -> C {
    let (ax, ay) = (data[a * dim], data[a * dim + 1]);
    let (bx, by) = (data[b * dim], data[b * dim + 1]);
    let (cx, cy) = (data[c * dim], data[c * dim + 1]);
    ax.minus_spec(cx).times_spec(by.minus_spec(ay)).minus_spec(
        ax.minus_spec(bx).times_spec(cy.minus_spec(ay)),
    ).magnitude_spec()
}

/// The area of the first `k` triangles, doubled.
pub open spec fn triangles_area<C: Scalar>(data: Seq<C>, dim: int, tris: Seq<usize>, k: int) -> C
    decreases k,
{
    if k <= 0 {
        zero::<C>()
    } else {
        triangles_area(data, dim, tris, k - 1).plus_spec(
            triangle_area(
                data,
                dim,
                tris[3 * k - 3] as int,
                tris[3 * k - 2] as int,
                tris[3 * k - 1] as int,
            ),
        )
    }
}

/// What [`deviation`] returns.
pub open spec fn deviation_spec<C: Scalar>(
    data: Seq<C>,
    holes: Seq<usize>,
    dim: int,
    tris: Seq<usize>,
) -> C {
    let polygon = polygon_area(data, holes, dim, holes.len() as int);
    let triangles = triangles_area(data, dim, tris, tris.len() as int / 3);
    if polygon.same_spec(zero::<C>()) && triangles.same_spec(zero::<C>()) {
        zero::<C>()
    } else {
        triangles.minus_spec(polygon).over_spec(polygon).magnitude_spec()
    }
}

/// A list of vertex indices three by three, all below `count`.
pub open spec fn are_triangles(tris: Seq<usize>, count: int) -> bool {
    &&& tris.len() % 3 == 0
    &&& forall|k: int| 0 <= k < tris.len() ==> #[trigger] tris[k] < count
}

/// Sums up the area of triangles.
fn sum_triangles<C: Scalar, N: EarcutIndex>(data: &[C], dim: usize, triangles: &[N]) -> (sum: C)
    requires
        triangles@.len() > 0 ==> dim >= 2 && data@.len() as int % dim as int == 0,
        are_triangles(
            vertices(triangles@),
            if dim == 0 {
                0
            } else {
                data@.len() as int / dim as int
            },
        ),
    ensures
        sum == triangles_area(
            data@,
            dim as int,
            vertices(triangles@),
            triangles@.len() as int / 3,
        ),
{
    let ghost tris = vertices(triangles@);
    let ghost count = if dim == 0 {
        0
    } else {
        data@.len() as int / dim as int
    };
    let mut sum = C::from_int(0);
    let mut i: usize = 0;
    let ghost mut k: int = 0;
    let len: usize = triangles.len();
    let size: usize = data.len();
    while i < len
        invariant
            size == data@.len(),
            len == triangles@.len(),
            len % 3 == 0,
            len > 0 ==> dim >= 2 && data@.len() as int % dim as int == 0,
            tris == vertices(triangles@),
            count == (if dim == 0 {
                0
            } else {
                data@.len() as int / dim as int
            }),
            are_triangles(tris, count),
            i == 3 * k,
            0 <= k,
            i <= len,
            sum == triangles_area(data@, dim as int, tris, k),
        decreases len - i,
    {
        proof {
            assert(tris[3 * k] < count && tris[3 * k + 1] < count && tris[3 * k + 2] < count);
            lemma_count(data@.len() as int, dim as int);
            lemma_coordinates(tris[3 * k] as int, count, dim as int);
            lemma_coordinates(tris[3 * k + 1] as int, count, dim as int);
            lemma_coordinates(tris[3 * k + 2] as int, count, dim as int);
        }
        let a: usize = triangles[i].to_usize() * dim;
        let b: usize = triangles[i + 1].to_usize() * dim;
        let c: usize = triangles[i + 2].to_usize() * dim;
        sum = sum.plus(
            data[a].minus(data[c]).times(data[b + 1].minus(data[a + 1])).minus(
                data[a].minus(data[b]).times(data[c + 1].minus(data[a + 1])),
            ).magnitude(),
        );
        i = i + 3;
        proof {
            k = k + 1;
        }
    }
    sum
}

/// Where the coordinates of a vertex stand.
proof fn lemma_coordinates(v: int, count: int, dim: int)
    requires
        0 <= v < count,
        dim >= 2,
    ensures
        0 <= v * dim,
        v * dim + 1 < count * dim,
{
    lemma_fits(v + 1, count, dim);
    assert((v + 1) * dim == v * dim + dim) by (nonlinear_arith);
    assert(0 <= v * dim) by (nonlinear_arith)
        requires
            0 <= v,
            dim >= 2,
    ;
}

/// Returns the relative difference between the polygon area and the area of its triangulation: a
/// value near 0 means a correct triangulation. Useful for verifying output, for example in tests.
pub fn deviation<N: EarcutIndex, C: Scalar>(
    data: &[C],
    hole_indices: &[usize],
    dim: usize,
    triangles: &[N],
) -> (r: C)
    requires
        is_flat(data@, hole_indices@, dim as int) || (data@.len() == 0 && (dim == 0 || holes_fit(
            0,
            hole_indices@,
        ))),
        are_triangles(
            vertices(triangles@),
            if dim == 0 {
                0
            } else {
                data@.len() as int / dim as int
            },
        ),
    ensures
        r == deviation_spec(data@, hole_indices@, dim as int, vertices(triangles@)),
{
    let ghost holes = hole_indices@;
    let ghost count = if dim == 0 {
        0
    } else {
        data@.len() as int / dim as int
    };
    let size: usize = data.len();
    let has_holes: bool = hole_indices.len() > 0;
    proof {
        lemma_rings_fit(data@.len() as int, holes, dim as int);
    }
    let outer_len: usize = if has_holes {
        ring_start(hole_indices, 0, dim, size)
    } else {
        size
    };
    proof {
        if has_holes {
            assert(outer_len == holes[0] * dim);
        }
        lemma_multiple(outer_count(holes, count), dim as int);
        lemma_multiple(0, dim as int);
    }
    let mut polygon = signed_area(data, 0, outer_len, dim).magnitude();
    let len: usize = hole_indices.len();
    let mut i: usize = 0;
    while i < len
        invariant
            holes == hole_indices@,
            len == holes.len(),
            size == data@.len(),
            i <= len,
            count == (if dim == 0 {
                0
            } else {
                data@.len() as int / dim as int
            }),
            count * dim == size,
            size > 0 ==> dim >= 2,
            forall|j: int| 0 <= j < holes.len() ==> 0 <= #[trigger] holes[j] * dim <= size,
            polygon == polygon_area(data@, holes, dim as int, i as int),
        decreases len - i,
    {
        let start: usize = ring_start(hole_indices, i, dim, size);
        let end: usize = if i < len - 1 {
            ring_start(hole_indices, i + 1, dim, size)
        } else {
            size
        };
        proof {
            lemma_multiple(holes[i as int] as int, dim as int);
            lemma_multiple(hole_end(holes, count, i as int), dim as int);
            if start < end {
                lemma_multiples_apart(start as int, end as int, dim as int);
            }
        }
        polygon = polygon.minus(signed_area(data, start, end, dim).magnitude());
        i = i + 1;
    }
    proof {
        if triangles@.len() > 0 {
            assert(vertices(triangles@)[0] < count);
            assert(size > 0) by (nonlinear_arith)
                requires
                    count > 0,
                    dim > 0,
                    count * dim == size,
            ;
        }
    }
    let sum = sum_triangles(data, dim, triangles);
    if polygon.same(C::from_int(0)) && sum.same(C::from_int(0)) {
        C::from_int(0)
    } else {
        sum.minus(polygon).over(polygon).magnitude()
    }
}

/// Where the coordinates of hole number `i` start.
fn ring_start(hole_indices: &[usize], i: usize, dim: usize, size: usize) -> (start: usize)
    requires
        i < hole_indices@.len(),
        forall|j: int|
            0 <= j < hole_indices@.len() ==> 0 <= #[trigger] hole_indices@[j] * dim <= size,
    ensures
        start == hole_indices@[i as int] * dim,
        start <= size,
{
    assert(0 <= hole_indices@[i as int] * dim <= size);
    hole_indices[i] * dim
}

/// Multiples of `dim` are divided by it.
proof fn lemma_multiple(v: int, dim: int)
    ensures
        dim > 0 ==> (v * dim) % dim == 0,
{
    if dim > 0 {
        vstd::arithmetic::div_mod::lemma_mod_multiples_basic(v, dim);
    }
}

/// The rings of a polygon lie in the data.
proof fn lemma_rings_fit(len: int, holes: Seq<usize>, dim: int)
    requires
        0 <= dim,
        0 <= len,
        (dim >= 2 && len % dim == 0 && holes_fit(len / dim, holes)) || (len == 0 && (dim == 0
            || holes_fit(0, holes))),
    ensures
        len > 0 ==> dim >= 2,
        dim > 0 ==> (len / dim) * dim == len,
        dim == 0 ==> len == 0,
        forall|j: int| 0 <= j < holes.len() ==> 0 <= #[trigger] holes[j] * dim <= len,
{
    if dim > 0 {
        if len == 0 {
            assert(len / dim == 0) by (nonlinear_arith)
                requires
                    len == 0,
                    dim > 0,
            ;
        } else {
            lemma_count(len, dim);
        }
        assert((len / dim) * dim == len);
    }
    assert forall|j: int| 0 <= j < holes.len() implies 0 <= #[trigger] holes[j] * dim <= len by {
        if dim > 0 {
            assert(holes[j] <= len / dim);
            lemma_fits(holes[j] as int, len / dim, dim);
        }
    }
}

} // verus!
