//! Exact coordinates on the z-order curve.
use vstd::prelude::*;
use crate::exact::{fits, whole, Exact};
use crate::exact_polygons::lemma_exact_picks;
use crate::geometry::{hashed, z_order_spec, Grid};
use crate::hashing::{
    column, lemma_curve_monotone, lemma_ranked_ears, lemma_same_slices, on_grid, ring_on_grid,
    ring_points, row, LAST_CELL,
};
use crate::model::{is_ear_hashed_spec, is_ear_spec, sliced, z_ranked, Pt};
use crate::rings::is_ring;
use crate::scalar::Scalar;

verus! {

/// The value is a finite number.
pub open spec fn finite(x: Exact) -> bool {
    x.den > 0
}

/// How many cells lie between `min` and `x`, as it is computed.
pub open spec fn cells_to(x: Exact, min: Exact, inv: Exact) -> Exact {
    x.minus_spec(min).times_spec(inv)
}

/// `x` lies in one of the cells of the grid that starts at `min`: what is computed to find the cell
/// is neither below zero nor beyond the last cell. The numbers are finite, cells have a positive
/// length, and `x` equals itself.
pub open spec fn in_cells(x: Exact, min: Exact, inv: Exact) -> bool {
    &&& finite(x) && finite(min) && finite(inv)
    &&& x.same_spec(x)
    &&& whole(0).less_spec(inv)
    &&& whole(0).at_most_spec(cells_to(x, min, inv))
    &&& cells_to(x, min, inv).less_spec(whole(LAST_CELL + 1))
}

/// The numbers from which the cell of `x` is computed fit, and the cell is one of the grid.
spec fn celled(x: Exact, min: Exact, inv: Exact) -> bool {
    let d = x.num * min.den - min.num * x.den;
    let b = x.den * min.den;
    &&& finite(x) && finite(min) && finite(inv)
    &&& inv.num > 0
    &&& fits(x.num * min.den)
    &&& fits(min.num * x.den)
    &&& fits(d)
    &&& fits(b)
    &&& fits(d * inv.num)
    &&& fits(b * inv.den)
    &&& 0 <= d
    &&& d * inv.num < (LAST_CELL + 1) * (b * inv.den)
}

/// What is computed to find a cell: the number of cells, or not a number if it does not fit.
proof fn lemma_cells_to(x: Exact, min: Exact, inv: Exact)
    requires
        finite(x) && finite(min) && finite(inv),
        whole(0).less_spec(inv),
    ensures
        ({
            let d = x.num * min.den - min.num * x.den;
            let b = x.den * min.den;
            let t = cells_to(x, min, inv);
            &&& inv.num > 0
            &&& b > 0
            &&& b * inv.den > 0
            &&& t == (Exact { num: 0, den: 0 }) || {
                &&& t.num == d * inv.num && t.den == b * inv.den
                &&& fits(x.num * min.den) && fits(min.num * x.den) && fits(d) && fits(b)
                &&& fits(d * inv.num) && fits(b * inv.den)
            }
        }),
{
    let b = x.den * min.den;
    lemma_positive(x.den as int, min.den as int);
    lemma_positive(b, inv.den as int);
    assert(whole(0).num * inv.den == 0 && inv.num * whole(0).den == inv.num) by (nonlinear_arith)
        requires
            whole(0).num == 0,
            whole(0).den == 1,
    ;
    let e = x.minus_spec(min);
    if e == (Exact { num: 0, den: 0 }) {
        assert(e.num * inv.num == 0 && e.den * inv.den == 0) by (nonlinear_arith)
            requires
                e.num == 0,
                e.den == 0,
        ;
    }
}

/// A coordinate in one of the cells.
proof fn lemma_celled(x: Exact, min: Exact, inv: Exact)
    requires
        finite(x) && finite(min) && finite(inv),
        whole(0).less_spec(inv),
        min.num * x.den <= x.num * min.den || whole(0).at_most_spec(cells_to(x, min, inv)),
        cells_to(x, min, inv).less_spec(whole(LAST_CELL + 1)),
    ensures
        celled(x, min, inv),
{
    let d = x.num * min.den - min.num * x.den;
    let t = cells_to(x, min, inv);
    let w = whole(LAST_CELL + 1);
    lemma_cells_to(x, min, inv);
    assert(w.num == LAST_CELL + 1 && w.den == 1);
    assert(t.num * w.den == t.num && w.num * t.den == (LAST_CELL + 1) * t.den) by (nonlinear_arith)
        requires
            w.num == LAST_CELL + 1,
            w.den == 1,
    ;
    assert(whole(0).num * t.den == 0 && t.num * whole(0).den == t.num) by (nonlinear_arith)
        requires
            whole(0).num == 0,
            whole(0).den == 1,
    ;
    if d < 0 {
        assert(d * inv.num < 0) by (nonlinear_arith)
            requires
                d < 0,
                inv.num > 0,
        ;
    }
}

/// The product of two positive numbers.
proof fn lemma_positive(a: int, b: int)
    requires
        a > 0,
        b > 0,
    ensures
        a * b > 0,
{
    assert(a * b > 0) by (nonlinear_arith)
        requires
            a > 0,
            b > 0,
    ;
}

/// The cell in which a coordinate lies.
proof fn lemma_cell_found(x: Exact, min: Exact, inv: Exact)
    requires
        celled(x, min, inv),
    ensures
        ({
            let d = x.num * min.den - min.num * x.den;
            let b = x.den * min.den;
            let cell = x.minus_spec(min).times_spec(inv).truncated_spec();
            &&& b * inv.den > 0
            &&& cell == (d * inv.num) / (b * inv.den)
            &&& 0 <= cell <= LAST_CELL
        }),
{
    let d = x.num * min.den - min.num * x.den;
    let b = x.den * min.den;
    lemma_positive(x.den as int, min.den as int);
    lemma_positive(b, inv.den as int);
    let e = x.minus_spec(min);
    assert(e.num == d && e.den == b);
    let t = e.times_spec(inv);
    assert(t.num == d * inv.num && t.den == b * inv.den);
    let p = d * inv.num;
    let q = b * inv.den;
    assert(p >= 0) by (nonlinear_arith)
        requires
            p == d * inv.num,
            d >= 0,
            inv.num > 0,
    ;
    assert(0 <= p / q <= LAST_CELL) by (nonlinear_arith)
        requires
            0 <= p,
            p < (LAST_CELL + 1) * q,
            q > 0,
            LAST_CELL == 32767,
    ;
}

/// Of two fractions in order, the integer parts are in order.
proof fn lemma_parts_ordered(p1: int, q1: int, p2: int, q2: int)
    requires
        q1 > 0,
        q2 > 0,
        p1 * q2 <= p2 * q1,
    ensures
        p1 / q1 <= p2 / q2,
{
    let f1 = p1 / q1;
    let f2 = p2 / q2;
    vstd::arithmetic::div_mod::lemma_fundamental_div_mod(p1, q1);
    vstd::arithmetic::div_mod::lemma_fundamental_div_mod(p2, q2);
    assert(q1 * f1 <= p1 && p2 < q2 * f2 + q2);
    if f1 >= f2 + 1 {
        assert((q1 * f1) * q2 <= p1 * q2) by (nonlinear_arith)
            requires
                q1 * f1 <= p1,
                q2 > 0,
        ;
        assert(p2 * q1 < (q2 * f2 + q2) * q1) by (nonlinear_arith)
            requires
                p2 < q2 * f2 + q2,
                q1 > 0,
        ;
        assert((q2 * f2 + q2) * q1 == (q1 * q2) * (f2 + 1)) by (nonlinear_arith);
        assert((q1 * f1) * q2 == (q1 * q2) * f1) by (nonlinear_arith);
        lemma_positive(q1, q2);
        assert((q1 * q2) * (f2 + 1) <= (q1 * q2) * f1) by (nonlinear_arith)
            requires
                f1 >= f2 + 1,
                q1 * q2 > 0,
        ;
    }
}

/// What is compared of two coordinates is in order if they are.
proof fn lemma_offsets(a1: int, b1: int, a2: int, b2: int, c: int, d: int)
    requires
        a1 * b2 <= a2 * b1,
        d > 0,
    ensures
        (a1 * d - c * b1) * b2 <= (a2 * d - c * b2) * b1,
{
    assert((a1 * d - c * b1) * b2 == d * (a1 * b2) - c * (b1 * b2)) by (nonlinear_arith);
    assert((a2 * d - c * b2) * b1 == d * (a2 * b1) - c * (b1 * b2)) by (nonlinear_arith);
    assert(d * (a1 * b2) <= d * (a2 * b1)) by (nonlinear_arith)
        requires
            a1 * b2 <= a2 * b1,
            d > 0,
    ;
}

/// A coordinate below one in a cell lies in one of the cells, if the numbers fit.
proof fn lemma_celled_below(x: Exact, y: Exact, min: Exact, inv: Exact)
    requires
        celled(y, min, inv),
        finite(x),
        min.at_most_spec(x),
        x.at_most_spec(y),
    ensures
        celled(x, min, inv) || cells_to(x, min, inv) == (Exact { num: 0, den: 0 }),
{
    assert(whole(0).num * inv.den == 0 && inv.num * whole(0).den == inv.num) by (nonlinear_arith)
        requires
            whole(0).num == 0,
            whole(0).den == 1,
    ;
    lemma_cells_to(x, min, inv);
    let (d1, d2) = (x.num * min.den - min.num * x.den, y.num * min.den - min.num * y.den);
    let (b1, b2) = (x.den as int, y.den as int);
    let (c, e, f) = (min.den as int, inv.num as int, inv.den as int);
    lemma_offsets(x.num as int, b1, y.num as int, b2, min.num as int, c);
    lemma_scaled_down(d1, b1, d2, b2, c, e, f);
}

/// A fraction below another is below what that is below.
proof fn lemma_scaled_down(d1: int, b1: int, d2: int, b2: int, c: int, e: int, f: int)
    requires
        d1 * b2 <= d2 * b1,
        b1 > 0,
        b2 > 0,
        e > 0,
        d2 * e < (LAST_CELL + 1) * ((b2 * c) * f),
    ensures
        d1 * e < (LAST_CELL + 1) * ((b1 * c) * f),
{
    let l = LAST_CELL + 1;
    assert(e * (d1 * b2) <= e * (d2 * b1)) by (nonlinear_arith)
        requires
            d1 * b2 <= d2 * b1,
            e > 0,
    ;
    assert(e * (d1 * b2) == b2 * (d1 * e) && e * (d2 * b1) == b1 * (d2 * e)) by (nonlinear_arith);
    let m = l * ((b2 * c) * f);
    assert(b1 * (d2 * e) < b1 * m) by (nonlinear_arith)
        requires
            d2 * e < m,
            b1 > 0,
    ;
    let k = l * ((b1 * c) * f);
    assert(b1 * m == b2 * k) by (nonlinear_arith)
        requires
            m == l * ((b2 * c) * f),
            k == l * ((b1 * c) * f),
    ;
    assert(d1 * e < k) by (nonlinear_arith)
        requires
            b2 * (d1 * e) < b2 * k,
            b2 > 0,
    ;
}

/// Columns and rows are found in the order of coordinates.
proof fn lemma_cells_in_order(x: Exact, y: Exact, min: Exact, inv: Exact)
    requires
        celled(x, min, inv),
        celled(y, min, inv),
        x.at_most_spec(y),
    ensures
        x.minus_spec(min).times_spec(inv).truncated_spec() <= y.minus_spec(min).times_spec(
            inv,
        ).truncated_spec(),
{
    lemma_cell_found(x, min, inv);
    lemma_cell_found(y, min, inv);
    let (d1, d2) = (x.num * min.den - min.num * x.den, y.num * min.den - min.num * y.den);
    let (b1, b2) = (x.den as int, y.den as int);
    let (c, e, f) = (min.den as int, inv.num as int, inv.den as int);
    assert(x.num * y.den <= y.num * x.den);
    lemma_offsets(x.num as int, b1, y.num as int, b2, min.num as int, c);
    assert(d1 * b2 <= d2 * b1);
    lemma_positive(e, c);
    lemma_positive(e * c, f);
    let k = (e * c) * f;
    assert((d1 * e) * ((b2 * c) * f) == k * (d1 * b2)) by (nonlinear_arith)
        requires
            k == (e * c) * f,
    ;
    assert((d2 * e) * ((b1 * c) * f) == k * (d2 * b1)) by (nonlinear_arith)
        requires
            k == (e * c) * f,
    ;
    assert(k * (d1 * b2) <= k * (d2 * b1)) by (nonlinear_arith)
        requires
            d1 * b2 <= d2 * b1,
            k > 0,
    ;
    lemma_parts_ordered(d1 * e, (b1 * c) * f, d2 * e, (b2 * c) * f);
}

/// A coordinate and one that is not below it, which lies in one of the cells.
pub open spec fn ordered_in_cells(x: Exact, y: Exact, min: Exact, inv: Exact) -> bool {
    &&& finite(x) && finite(y) && finite(min)
    &&& min.at_most_spec(x)
    &&& x.at_most_spec(y)
    &&& cells_to(y, min, inv).less_spec(whole(LAST_CELL + 1))
}

/// The cells of coordinates in order are in order.
proof fn lemma_ordered_cells(x: Exact, y: Exact, min: Exact, inv: Exact)
    requires
        finite(inv),
        whole(0).less_spec(inv),
        ordered_in_cells(x, y, min, inv),
    ensures
        0 <= cells_to(x, min, inv).truncated_spec() <= cells_to(y, min, inv).truncated_spec()
            <= LAST_CELL,
{
    lemma_cells_to(y, min, inv);
    lemma_at_most_chain(min, x, y);
    lemma_celled(y, min, inv);
    lemma_cell_found(y, min, inv);
    lemma_celled_below(x, y, min, inv);
    if celled(x, min, inv) {
        lemma_cell_found(x, min, inv);
        lemma_cells_in_order(x, y, min, inv);
    }
}

/// What is not below a number that is not below a third is not below the third.
proof fn lemma_at_most_chain(x: Exact, y: Exact, z: Exact)
    requires
        finite(x) && finite(y) && finite(z),
        x.at_most_spec(y),
        y.at_most_spec(z),
    ensures
        x.num * z.den <= z.num * x.den,
{
    let (a, b, c) = (x.num as int, y.num as int, z.num as int);
    let (d, e, f) = (x.den as int, y.den as int, z.den as int);
    assert((a * e) * f <= (b * d) * f) by (nonlinear_arith)
        requires
            a * e <= b * d,
            f > 0,
    ;
    assert((b * f) * d <= (c * e) * d) by (nonlinear_arith)
        requires
            b * f <= c * e,
            d > 0,
    ;
    assert((b * d) * f == (b * f) * d && (a * e) * f == e * (a * f) && (c * e) * d == e * (c * d))
        by (nonlinear_arith);
    assert(a * f <= c * d) by (nonlinear_arith)
        requires
            e * (a * f) <= e * (c * d),
            e > 0,
    ;
}

/// The z-order of points is monotone in their coordinates: a point comes after every point to its
/// lower left, and all of the grid has its places below `2^30`.
pub proof fn lemma_z_order_monotone(x1: Exact, y1: Exact, x2: Exact, y2: Exact, g: Grid<Exact>)
    requires
        finite(g.inv_size),
        whole(0).less_spec(g.inv_size),
        ordered_in_cells(x1, x2, g.min_x, g.inv_size),
        ordered_in_cells(y1, y2, g.min_y, g.inv_size),
    ensures
        0 <= z_order_spec(x1, y1, g) <= z_order_spec(x2, y2, g) < 0x4000_0000,
{
    lemma_ordered_cells(x1, x2, g.min_x, g.inv_size);
    lemma_ordered_cells(y1, y2, g.min_y, g.inv_size);
    lemma_curve_monotone(column(x1, g), row(y1, g), column(x2, g), row(y2, g));
}

/// The nodes of the ring lie in cells of the grid.
pub open spec fn ring_in_cells(pts: Seq<Pt<Exact>>, r: Seq<int>, g: Grid<Exact>) -> bool {
    forall|k: int|
        0 <= k < r.len() ==> in_cells(pts[#[trigger] r[k]].x, g.min_x, g.inv_size) && in_cells(
            pts[r[k]].y,
            g.min_y,
            g.inv_size,
        )
}

/// A ring whose nodes lie in cells of the grid is on the grid.
pub proof fn lemma_exact_on_grid(pts: Seq<Pt<Exact>>, r: Seq<int>, g: Grid<Exact>)
    requires
        ring_in_cells(pts, r, g),
    ensures
        ring_on_grid(pts, r, g),
        r.len() > 0 ==> hashed(g),
{
    let t = ring_points(pts, r);
    assert forall|h: int| 0 <= h < t.len() implies 0 <= column((#[trigger] t[h]).x, g)
        <= LAST_CELL && 0 <= row(t[h].y, g) <= LAST_CELL && t[h].x.same_spec(t[h].x)
        && t[h].y.same_spec(t[h].y) by {
        assert(in_cells(pts[r[h]].x, g.min_x, g.inv_size));
        lemma_celled(t[h].x, g.min_x, g.inv_size);
        lemma_celled(t[h].y, g.min_y, g.inv_size);
        lemma_cell_found(t[h].x, g.min_x, g.inv_size);
        lemma_cell_found(t[h].y, g.min_y, g.inv_size);
    }
    assert forall|p: int, q: int|
        #![trigger t[p], t[q]]
        0 <= p < t.len() && 0 <= q < t.len() implies (t[p].x.at_most_spec(t[q].x) ==> column(
        t[p].x,
        g,
    ) <= column(t[q].x, g)) && (t[p].y.at_most_spec(t[q].y) ==> row(t[p].y, g) <= row(
        t[q].y,
        g,
    )) by {
        assert(in_cells(pts[r[p]].x, g.min_x, g.inv_size));
        assert(in_cells(pts[r[q]].x, g.min_x, g.inv_size));
        lemma_celled(t[p].x, g.min_x, g.inv_size);
        lemma_celled(t[p].y, g.min_y, g.inv_size);
        lemma_celled(t[q].x, g.min_x, g.inv_size);
        lemma_celled(t[q].y, g.min_y, g.inv_size);
        if t[p].x.at_most_spec(t[q].x) {
            lemma_cells_in_order(t[p].x, t[q].x, g.min_x, g.inv_size);
        }
        if t[p].y.at_most_spec(t[q].y) {
            lemma_cells_in_order(t[p].y, t[q].y, g.min_y, g.inv_size);
        }
    }
    assert(on_grid(t, g));
    if r.len() > 0 {
        assert(in_cells(pts[r[0]].x, g.min_x, g.inv_size));
        let inv = g.inv_size;
        lemma_cells_to(pts[r[0]].x, g.min_x, inv);
        assert(inv.num * 1 != 0 * inv.den);
    }
}

/// For a ring whose nodes lie in cells of the grid, the search by z-order finds the same ears as
/// the search through all nodes.
pub proof fn lemma_exact_ears(pts: Seq<Pt<Exact>>, r: Seq<int>, g: Grid<Exact>)
    requires
        is_ring(r, pts.len() as int),
        r.len() >= 3,
        ring_in_cells(pts, r, g),
    ensures
        is_ear_hashed_spec(pts, r, z_ranked(pts, r, g), g) == is_ear_spec(pts, r),
{
    lemma_exact_on_grid(pts, r, g);
    lemma_exact_picks();
    lemma_ranked_ears(pts, r, g);
}

/// A ring whose nodes lie in cells of the grid is sliced into the same triangles with the search by
/// z-order and with the search through all nodes.
pub proof fn lemma_exact_slices(
    pts: Seq<Pt<Exact>>,
    r: Seq<int>,
    g: Grid<Exact>,
    plain: Grid<Exact>,
)
    requires
        is_ring(r, pts.len() as int),
        r.len() > 0,
        ring_in_cells(pts, r, g),
        !hashed(plain),
    ensures
        sliced(pts, r, g) == sliced(pts, r, plain),
{
    lemma_exact_on_grid(pts, r, g);
    lemma_exact_picks();
    lemma_same_slices(pts, r, g, plain);
}

} // verus!
