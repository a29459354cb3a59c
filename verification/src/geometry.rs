//! Formulas on coordinates: areas, triangles, segments, and the z-order curve.
use vstd::prelude::*;
use crate::scalar::Scalar;

verus! {

/// Zero.
pub open spec fn zero<C: Scalar>() -> C {
    C::from_int_spec(0)
}

/// Signed area of the triangle `(p, q, r)`.
pub open spec fn area_xy_spec<C: Scalar>(px: C, py: C, qx: C, qy: C, rx: C, ry: C) -> C {
    qy.minus_spec(py).times_spec(rx.minus_spec(qx)).minus_spec(
        qx.minus_spec(px).times_spec(ry.minus_spec(qy)),
    )
}

/// Signed area of the triangle `(p, q, r)`, from raw coordinates.
pub(crate) fn area_xy<C: Scalar>(px: C, py: C, qx: C, qy: C, rx: C, ry: C) -> (area: C)
    ensures
        area == area_xy_spec(px, py, qx, qy, rx, ry),
{
    qy.minus(py).times(rx.minus(qx)).minus(qx.minus(px).times(ry.minus(qy)))
}

/// `p` lies on the inner side of all three edges of the triangle `(a, b, c)`, or on them.
pub open spec fn point_in_triangle_spec<C: Scalar>(
    ax: C,
    ay: C,
    bx: C,
    by: C,
    cx: C,
    cy: C,
    px: C,
    py: C,
) -> bool {
    &&& ax.minus_spec(px).times_spec(cy.minus_spec(py)).at_most_spec(
        cx.minus_spec(px).times_spec(ay.minus_spec(py)),
    )
    &&& bx.minus_spec(px).times_spec(ay.minus_spec(py)).at_most_spec(
        ax.minus_spec(px).times_spec(by.minus_spec(py)),
    )
    &&& cx.minus_spec(px).times_spec(by.minus_spec(py)).at_most_spec(
        bx.minus_spec(px).times_spec(cy.minus_spec(py)),
    )
}

/// Checks if a point lies within a convex triangle.
pub(crate) fn point_in_triangle<C: Scalar>(
    ax: C,
    ay: C,
    bx: C,
    by: C,
    cx: C,
    cy: C,
    px: C,
    py: C,
) -> (r: bool)
    ensures
        r == point_in_triangle_spec(ax, ay, bx, by, cx, cy, px, py),
{
    ax.minus(px).times(cy.minus(py)).at_most(cx.minus(px).times(ay.minus(py))) && bx.minus(
        px,
    ).times(ay.minus(py)).at_most(ax.minus(px).times(by.minus(py))) && cx.minus(px).times(
        by.minus(py),
    ).at_most(bx.minus(px).times(cy.minus(py)))
}

/// `q` lies in the bounding box of `p` and `r`.
pub open spec fn on_segment_spec<C: Scalar>(px: C, py: C, qx: C, qy: C, rx: C, ry: C) -> bool {
    &&& qx.at_most_spec(px.upper_spec(rx))
    &&& px.lower_spec(rx).at_most_spec(qx)
    &&& qy.at_most_spec(py.upper_spec(ry))
    &&& py.lower_spec(ry).at_most_spec(qy)
}

/// For collinear points p, q, r, checks if point q lies on segment pr.
pub(crate) fn on_segment<C: Scalar>(px: C, py: C, qx: C, qy: C, rx: C, ry: C) -> (r: bool)
    ensures
        r == on_segment_spec(px, py, qx, qy, rx, ry),
{
    qx.at_most(px.upper(rx)) && px.lower(rx).at_most(qx) && qy.at_most(py.upper(ry)) && py.lower(
        ry,
    ).at_most(qy)
}

/// The two values lie strictly on opposite sides of zero.
pub open spec fn opposite<C: Scalar>(a: C, b: C) -> bool {
    (zero::<C>().less_spec(a) && b.less_spec(zero::<C>())) || (a.less_spec(zero::<C>())
        && zero::<C>().less_spec(b))
}

/// Segments `p1 q1` and `p2 q2` cross, or, with `include_boundary`, an end of one lies on the
/// other.
pub open spec fn segments_meet<C: Scalar>(
    p1x: C,
    p1y: C,
    q1x: C,
    q1y: C,
    p2x: C,
    p2y: C,
    q2x: C,
    q2y: C,
    include_boundary: bool,
) -> bool {
    let o1 = area_xy_spec(p1x, p1y, q1x, q1y, p2x, p2y);
    let o2 = area_xy_spec(p1x, p1y, q1x, q1y, q2x, q2y);
    let o3 = area_xy_spec(p2x, p2y, q2x, q2y, p1x, p1y);
    let o4 = area_xy_spec(p2x, p2y, q2x, q2y, q1x, q1y);
    ||| opposite(o1, o2) && opposite(o3, o4)
    ||| include_boundary && {
        ||| o1.same_spec(zero::<C>()) && on_segment_spec(p1x, p1y, p2x, p2y, q1x, q1y)
        ||| o2.same_spec(zero::<C>()) && on_segment_spec(p1x, p1y, q2x, q2y, q1x, q1y)
        ||| o3.same_spec(zero::<C>()) && on_segment_spec(p2x, p2y, p1x, p1y, q2x, q2y)
        ||| o4.same_spec(zero::<C>()) && on_segment_spec(p2x, p2y, q1x, q1y, q2x, q2y)
    }
}

/// Checks if two segments, given by their coordinates, intersect.
pub(crate) fn intersects_xy<C: Scalar>(
    p1x: C,
    p1y: C,
    q1x: C,
    q1y: C,
    p2x: C,
    p2y: C,
    q2x: C,
    q2y: C,
    include_boundary: bool,
) -> (r: bool)
    ensures
        r == segments_meet(p1x, p1y, q1x, q1y, p2x, p2y, q2x, q2y, include_boundary),
{
    let o1 = area_xy(p1x, p1y, q1x, q1y, p2x, p2y);
    let o2 = area_xy(p1x, p1y, q1x, q1y, q2x, q2y);
    let o3 = area_xy(p2x, p2y, q2x, q2y, p1x, p1y);
    let o4 = area_xy(p2x, p2y, q2x, q2y, q1x, q1y);
    let z = C::from_int(0);
    if ((z.less(o1) && o2.less(z)) || (o1.less(z) && z.less(o2))) && ((z.less(o3) && o4.less(z))
        || (o3.less(z) && z.less(o4))) {
        return true;
    }
    include_boundary && ((o1.same(z) && on_segment(p1x, p1y, p2x, p2y, q1x, q1y)) || (o2.same(z)
        && on_segment(p1x, p1y, q2x, q2y, q1x, q1y)) || (o3.same(z) && on_segment(
        p2x,
        p2y,
        p1x,
        p1y,
        q2x,
        q2y,
    )) || (o4.same(z) && on_segment(p2x, p2y, q1x, q1y, q2x, q2y)))
}

/// The grid on which points are placed on the z-order curve: its origin and the inverse of the
/// length of its cells. A zero inverse means that no curve is used.
pub struct Grid<C> {
    /// The least x of the outer ring.
    pub min_x: C,
    /// The least y of the outer ring.
    pub min_y: C,
    /// Cells per unit of length.
    pub inv_size: C,
}

impl<C: Copy> Clone for Grid<C> {
    fn clone(&self) -> (r: Self)
        ensures
            r == *self,
    {
        *self
    }
}

impl<C: Copy> Copy for Grid<C> {

}

/// Whether the z-order curve is in use.
pub open spec fn hashed<C: Scalar>(g: Grid<C>) -> bool {
    !g.inv_size.same_spec(zero::<C>())
}

/// The low 16 bits of `v` moved to the even places.
pub open spec fn spread(v: i32) -> i32 {
    let a = (v | (v << 8)) & 0x00FF00FF;
    let b = (a | (a << 4)) & 0x0F0F0F0F;
    let c = (b | (b << 2)) & 0x33333333;
    (c | (c << 1)) & 0x55555555
}

/// The place on the z-order curve of the grid cell in column `x` and row `y`.
pub open spec fn interleave(x: i32, y: i32) -> i32 {
    spread(x) | (spread(y) << 1)
}

/// The place of a point on the z-order curve.
pub open spec fn z_order_spec<C: Scalar>(x: C, y: C, g: Grid<C>) -> i32 {
    interleave(
        x.minus_spec(g.min_x).times_spec(g.inv_size).truncated_spec(),
        y.minus_spec(g.min_y).times_spec(g.inv_size).truncated_spec(),
    )
}

fn spread_bits(v: i32) -> (r: i32)
    ensures
        r == spread(v),
{
    let a: i32 = (v | (v << 8)) & 0x00FF00FF;
    let b: i32 = (a | (a << 4)) & 0x0F0F0F0F;
    let c: i32 = (b | (b << 2)) & 0x33333333;
    (c | (c << 1)) & 0x55555555
}

/// z-order of a point given coords and inverse of the longer side of data bbox.
pub(crate) fn z_order<C: Scalar>(x: C, y: C, g: Grid<C>) -> (z: i32)
    ensures
        z == z_order_spec(x, y, g),
{
    let col: i32 = x.minus(g.min_x).times(g.inv_size).truncated();
    let row: i32 = y.minus(g.min_y).times(g.inv_size).truncated();
    spread_bits(col) | (spread_bits(row) << 1)
}

/// Partial shoelace sum over the flat ring `data[start..end]`, from the vertex at `i` on, where
/// the vertex before it is at `j`.
pub open spec fn shoelace_from<C: Scalar>(
    data: Seq<C>,
    end: int,
    dim: int,
    i: int,
    j: int,
    sum: C,
) -> C
    decreases
            if i < end {
                end - i
            } else {
                0
            },
{
    if i >= end || dim <= 0 {
        sum
    } else {
        shoelace_from(
            data,
            end,
            dim,
            i + dim,
            i,
            sum.plus_spec(
                data[j].minus_spec(data[i]).times_spec(data[i + 1].plus_spec(data[j + 1])),
            ),
        )
    }
}

/// Signed (shoelace) area of a flat polygon ring, doubled.
pub open spec fn signed_area_spec<C: Scalar>(data: Seq<C>, start: int, end: int, dim: int) -> C {
    shoelace_from(
        data,
        end,
        dim,
        start,
        if end < dim {
            0
        } else {
            end - dim
        },
        zero::<C>(),
    )
}

/// Signed (shoelace) area of a flat polygon ring.
pub(crate) fn signed_area<C: Scalar>(data: &[C], start: usize, end: usize, dim: usize) -> (sum: C)
    requires
        start < end ==> dim >= 2 && (end - start) % dim as int == 0 && end <= data@.len(),
    ensures
        sum == signed_area_spec(data@, start as int, end as int, dim as int),
{
    let mut sum = C::from_int(0);
    let mut j: usize = if end < dim {
        0
    } else {
        end - dim
    };
    let mut i: usize = start;
    proof {
        if start < end {
            lemma_next_multiple(0, end - start, dim as int);
        }
    }
    while i < end
        invariant
            start < end ==> dim >= 2 && (end - start) % dim as int == 0 && end <= data@.len(),
            start <= i,
            i < end ==> start < end && (i - start) % dim as int == 0 && i + dim <= end && j + 1
                < data@.len(),
            shoelace_from(data@, end as int, dim as int, i as int, j as int, sum)
                == signed_area_spec(data@, start as int, end as int, dim as int),
        decreases end - i,
    {
        sum = sum.plus(data[j].minus(data[i]).times(data[i + 1].plus(data[j + 1])));
        j = i;
        i = i + dim;
        proof {
            if i < end {
                vstd::arithmetic::div_mod::lemma_mod_add_multiples_vanish(j - start, dim as int);
                assert((i - start) % dim as int == 0);
                lemma_next_multiple(i - start, end - start, dim as int);
            }
        }
    }
    sum
}

/// Multiples of `d` are a multiple of `d` apart.
pub(crate) proof fn lemma_multiples_apart(a: int, b: int, d: int)
    requires
        d > 0,
        a % d == 0,
        b % d == 0,
    ensures
        (b - a) % d == 0,
{
    vstd::arithmetic::div_mod::lemma_fundamental_div_mod(a, d);
    vstd::arithmetic::div_mod::lemma_fundamental_div_mod(b, d);
    let k = b / d - a / d;
    assert(b - a == k * d) by (nonlinear_arith)
        requires
            k == b / d - a / d,
            a == d * (a / d),
            b == d * (b / d),
    ;
    vstd::arithmetic::div_mod::lemma_mod_multiples_basic(k, d);
}

/// Between two multiples of `d` lies room for another step of `d`.
pub(crate) proof fn lemma_next_multiple(i: int, end: int, d: int)
    requires
        d > 0,
        i < end,
        i % d == 0,
        end % d == 0,
    ensures
        i + d <= end,
{
    vstd::arithmetic::div_mod::lemma_fundamental_div_mod(i, d);
    vstd::arithmetic::div_mod::lemma_fundamental_div_mod(end, d);
    let a = i / d;
    let b = end / d;
    assert(a < b) by (nonlinear_arith)
        requires
            d * a < d * b,
            d > 0,
    ;
    assert(d * a + d <= d * b) by (nonlinear_arith)
        requires
            a < b,
            d > 0,
    ;
}

} // verus!
