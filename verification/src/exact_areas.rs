//! Polygons with integer coordinates: the deviation of a complete triangulation is zero.
use vstd::prelude::*;
use crate::areas::{abs, by_area, cross, lemma_cross, lemma_tris_area, spot, tri, tris_area};
use crate::bounds::{hole_vertices, lemma_listed};
use crate::deviation::{are_triangles, deviation_spec, polygon_area, triangle_area, triangles_area};
use crate::exact::{fits, fraction, whole, Exact};
use crate::geometry::{area_xy_spec, shoelace_from, signed_area_spec, zero};
use crate::hole_model::{count_between, hole_end, in_order, listed, queued, wound};
use crate::laws::{lemma_convex_sliced, lemma_tri_turned, turns_found};
use crate::model::{area, coincide, Pt};
use crate::polygon_areas::{
    corners, drawn, exact_data, lemma_drawn, lemma_triangulation_area, lemma_walk_front, loop_area,
    net_area, sign_found, sliced_completely, vertex_area, vertices_coincide, walk_sum,
};
use crate::scalar::Scalar;
use crate::segments::lemma_differences;
use crate::triangulation::{
    ear_grid, is_flat, lemma_triangulation, outer_count, outer_ring, triangulation,
};

verus! {

/// The greatest integer coordinate with which areas are certain not to overflow.
pub const LIMIT: i128 = 0x4000_0000;

/// What an edge between such coordinates adds to an area at most.
pub(crate) const STEP: i128 = 0x4000_0000_0000_0000;

/// The integer that a value without a fraction stands for.
pub open spec fn integer() -> spec_fn(Exact) -> int {
    |c: Exact| c.num as int
}

/// All coordinates are integers of moderate size, and a machine can hold them.
pub open spec fn integral(data: Seq<Exact>) -> bool {
    &&& data.len() <= usize::MAX
    &&& forall|k: int|
        0 <= k < data.len() ==> (#[trigger] data[k]).den == 1 && -LIMIT <= data[k].num <= LIMIT
}

/// Sums, differences and products of integers are exact.
pub(crate) proof fn lemma_whole(a: int, b: int)
    requires
        fits(a),
        fits(b),
    ensures
        fits(a + b) ==> whole(a).plus_spec(whole(b)) == whole(a + b),
        fits(a - b) ==> whole(a).minus_spec(whole(b)) == whole(a - b),
        fits(a * b) ==> whole(a).times_spec(whole(b)) == whole(a * b),
        whole(a).magnitude_spec() == whole(abs(a)),
        whole(a).less_spec(whole(b)) <==> a < b,
        whole(a).same_spec(whole(b)) <==> a == b,
{
    let p = whole(a);
    let q = whole(b);
    assert(p.num == a && p.den == 1 && q.num == b && q.den == 1);
    assert(p.num * q.den == a && q.num * p.den == b && p.den * q.den == 1 && p.num * q.num == a
        * b) by (nonlinear_arith)
        requires
            p.num == a,
            p.den == 1,
            q.num == b,
            q.den == 1,
    ;
}

/// Products of moderate integers are bounded.
pub(crate) proof fn lemma_bounded(a: int, b: int, m: int, n: int)
    requires
        -m <= a <= m,
        -n <= b <= n,
    ensures
        -(m * n) <= a * b <= m * n,
{
    assert(-(m * n) <= a * b <= m * n) by (nonlinear_arith)
        requires
            -m <= a <= m,
            -n <= b <= n,
    ;
}

/// Two ways to write the area of a triangle.
pub(crate) proof fn lemma_area_formula(px: int, py: int, qx: int, qy: int, rx: int, ry: int)
    ensures
        (qy - py) * (rx - qx) - (qx - px) * (ry - qy) == -((px * qy - qx * py) + (qx * ry - rx * qy)
            + (rx * py - px * ry)),
{
    lemma_differences(qy, py, rx, qx);
    lemma_differences(qx, px, ry, qy);
}

/// Two ways to write the area of a triangle.
proof fn lemma_triangle_formula(ax: int, ay: int, bx: int, by: int, cx: int, cy: int)
    ensures
        (ax - cx) * (by - ay) - (ax - bx) * (cy - ay) == (ax * by - bx * ay) + (bx * cy - cx * by)
            + (cx * ay - ax * cy),
{
    lemma_differences(ax, cx, by, ay);
    lemma_differences(ax, bx, cy, ay);
}

/// Two ways to write what an edge adds to an area.
proof fn lemma_edge_formula(ux: int, uy: int, vx: int, vy: int)
    ensures
        (ux - vx) * (vy + uy) == (ux * vy - vx * uy) + ux * uy - vx * vy,
{
    lemma_differences(ux, vx, vy, -uy);
    assert(ux * (-uy) == -(ux * uy) && vx * (-uy) == -(vx * uy)) by (nonlinear_arith);
}

/// The area that three moderate corners enclose is found exactly.
pub(crate) proof fn lemma_corner_area(px: int, py: int, qx: int, qy: int, rx: int, ry: int)
    requires
        -LIMIT <= px <= LIMIT,
        -LIMIT <= py <= LIMIT,
        -LIMIT <= qx <= LIMIT,
        -LIMIT <= qy <= LIMIT,
        -LIMIT <= rx <= LIMIT,
        -LIMIT <= ry <= LIMIT,
    ensures
        area_xy_spec(whole(px), whole(py), whole(qx), whole(qy), whole(rx), whole(ry)) == whole(
            -tri((px, py), (qx, qy), (rx, ry)),
        ),
        fits(tri((px, py), (qx, qy), (rx, ry))),
{
    let m = 2 * LIMIT;
    let (a, b, c, d) = (qy - py, rx - qx, qx - px, ry - qy);
    lemma_whole(qy, py);
    lemma_whole(rx, qx);
    lemma_whole(qx, px);
    lemma_whole(ry, qy);
    lemma_bounded(a, b, m, m);
    lemma_bounded(c, d, m, m);
    assert(m * m <= STEP) by (nonlinear_arith)
        requires
            m == 0x8000_0000,
    ;
    lemma_whole(a, b);
    lemma_whole(c, d);
    lemma_whole(a * b, c * d);
    lemma_area_formula(px, py, qx, qy, rx, ry);
}

/// Where the coordinates of a vertex stand.
pub(crate) proof fn lemma_vertex_coordinates(data: Seq<Exact>, dim: int, v: int)
    requires
        integral(data),
        dim >= 2,
        0 <= v < data.len() as int / dim,
    ensures
        0 <= v * dim,
        v * dim + 1 < data.len(),
        v * dim + dim <= data.len(),
        data[v * dim] == whole(corners(integer(), data, dim)(v).0),
        data[v * dim + 1] == whole(corners(integer(), data, dim)(v).1),
        -LIMIT <= corners(integer(), data, dim)(v).0 <= LIMIT,
        -LIMIT <= corners(integer(), data, dim)(v).1 <= LIMIT,
{
    let len = data.len() as int;
    vstd::arithmetic::div_mod::lemma_fundamental_div_mod(len, dim);
    assert(0 <= v * dim && v * dim + dim <= len) by (nonlinear_arith)
        requires
            0 <= v < len / dim,
            dim >= 2,
            len == dim * (len / dim) + len % dim,
            len % dim >= 0,
    ;
    assert(data[v * dim].den == 1 && data[v * dim + 1].den == 1);
}

/// The product of the coordinates of a vertex.
spec fn diagonal(at: spec_fn(int) -> (int, int), v: int) -> int {
    at(v).0 * at(v).1
}

/// Summing up the ring of the vertices from `v` to `to`, where `u` comes before `v`, after those
/// from `from`.
proof fn lemma_shoelace(data: Seq<Exact>, dim: int, from: int, to: int, v: int, u: int, s: int)
    requires
        integral(data),
        dim >= 2,
        0 <= u < data.len() as int / dim,
        0 <= from <= v < to <= data.len() as int / dim,
        -((v - from) * STEP) <= s <= (v - from) * STEP,
    ensures
        ({
            let at = corners(integer(), data, dim);
            let total = s + cross(at(u), at(v)) + walk_sum(by_area(), at, v, to) + diagonal(at, u)
                - diagonal(at, to - 1);
            &&& shoelace_from(data, to * dim, dim, v * dim, u * dim, whole(s)) == whole(total)
            &&& -((to - from) * STEP) <= total <= (to - from) * STEP
        }),
    decreases to - v,
{
    let at = corners(integer(), data, dim);
    let (ux, uy) = at(u);
    let (vx, vy) = at(v);
    lemma_vertex_coordinates(data, dim, u);
    lemma_vertex_coordinates(data, dim, v);
    let a = ux - vx;
    let b = vy + uy;
    let m = 2 * LIMIT;
    lemma_whole(ux, vx);
    lemma_whole(vy, uy);
    lemma_bounded(a, b, m, m);
    assert(m * m <= STEP) by (nonlinear_arith)
        requires
            m == 0x8000_0000,
    ;
    lemma_whole(a, b);
    let t = s + a * b;
    assert(to <= usize::MAX) by {
        vstd::arithmetic::div_mod::lemma_div_nonincreasing(data.len() as int, dim);
    }
    lemma_whole(s, a * b);
    lemma_edge_formula(ux, uy, vx, vy);
    assert(v * dim < to * dim) by (nonlinear_arith)
        requires
            v < to,
            dim >= 2,
    ;
    assert(v * dim + dim == (v + 1) * dim) by (nonlinear_arith);
    if v + 1 < to {
        lemma_shoelace(data, dim, from, to, v + 1, v, t);
        lemma_walk_front(by_area(), at, v, to);
    } else {
        assert(shoelace_from(data, to * dim, dim, to * dim, v * dim, whole(t)) == whole(t));
    }
}

/// The signed area of a ring is found exactly.
pub(crate) proof fn lemma_loop(data: Seq<Exact>, dim: int, from: int, to: int)
    requires
        integral(data),
        dim >= 2,
        0 <= from <= data.len() as int / dim,
        0 <= to <= data.len() as int / dim,
    ensures
        ({
            let a = loop_area(corners(integer(), data, dim), from, to);
            &&& signed_area_spec(data, from * dim, to * dim, dim) == whole(a)
            &&& abs(a) <= count_between(from, to) * STEP
            &&& fits(a)
        }),
{
    assert(to <= usize::MAX) by {
        vstd::arithmetic::div_mod::lemma_div_nonincreasing(data.len() as int, dim);
    }
    assert(from < to <==> from * dim < to * dim) by (nonlinear_arith)
        requires
            dim >= 2,
    ;
    if from < to {
        assert((to - 1) * dim == to * dim - dim && to * dim >= dim) by (nonlinear_arith)
            requires
                to >= 1,
                dim >= 2,
        ;
        lemma_shoelace(data, dim, from, to, from, to - 1, 0);
    }
}

/// Integers of moderate size are computed with exactly.
pub proof fn lemma_integral(data: Seq<Exact>, holes: Seq<usize>, dim: int)
    requires
        is_flat(data, holes, dim),
        integral(data),
    ensures
        exact_data(integer(), data, holes, dim),
{
    let count = data.len() as int / dim;
    let at = corners(integer(), data, dim);
    assert(0 <= count) by {
        vstd::arithmetic::div_mod::lemma_div_pos_is_pos(data.len() as int, dim);
    }
    assert forall|u: int, v: int, w: int|
        0 <= u < count && 0 <= v < count && 0 <= w < count implies ((#[trigger] vertex_area(
        data,
        dim,
        u,
        v,
        w,
    )).less_spec(zero::<Exact>()) ==> tri(at(u), at(v), at(w)) > 0) && (vertex_area(
        data,
        dim,
        u,
        v,
        w,
    ).same_spec(zero::<Exact>()) ==> tri(at(u), at(v), at(w)) == 0) by {
        lemma_vertex_coordinates(data, dim, u);
        lemma_vertex_coordinates(data, dim, v);
        lemma_vertex_coordinates(data, dim, w);
        lemma_corner_area(at(u).0, at(u).1, at(v).0, at(v).1, at(w).0, at(w).1);
        lemma_whole(-tri(at(u), at(v), at(w)), 0);
    }
    assert forall|u: int, v: int|
        0 <= u < count && 0 <= v < count && #[trigger] vertices_coincide(
            data,
            dim,
            u,
            v,
        ) implies at(u) == at(v) by {
        lemma_vertex_coordinates(data, dim, u);
        lemma_vertex_coordinates(data, dim, v);
        lemma_whole(at(u).0, at(v).0);
        lemma_whole(at(u).1, at(v).1);
    }
    lemma_loop(data, dim, 0, outer_count(holes, count));
    lemma_whole(0, loop_area(at, 0, outer_count(holes, count)));
    assert forall|i: int| 0 <= i < holes.len() implies #[trigger] sign_found(
        integer(),
        data,
        dim,
        holes[i] as int,
        hole_end(holes, count, i),
    ) by {
        lemma_loop(data, dim, holes[i] as int, hole_end(holes, count, i));
        lemma_whole(0, loop_area(at, holes[i] as int, hole_end(holes, count, i)));
    }
}

/// A machine can count the vertices of all rings.
pub open spec fn rings_countable(holes: Seq<usize>, count: int) -> bool {
    outer_count(holes, count) + hole_vertices(holes, count, holes.len() as int) <= usize::MAX
}

/// Where no hole starts behind its end, all rings together have as many vertices as the polygon.
pub proof fn lemma_rings_countable(holes: Seq<usize>, count: int, k: int)
    requires
        0 <= count,
        0 <= k <= holes.len(),
        forall|i: int| 0 <= i < holes.len() ==> #[trigger] holes[i] <= hole_end(holes, count, i),
    ensures
        outer_count(holes, count) + hole_vertices(holes, count, k) == (if k > 0 {
            hole_end(holes, count, k - 1)
        } else {
            outer_count(holes, count)
        }),
        k == holes.len() && count <= usize::MAX ==> rings_countable(holes, count),
    decreases k,
{
    if k > 0 {
        lemma_rings_countable(holes, count, k - 1);
        assert(holes[k - 1] <= hole_end(holes, count, k - 1));
    }
}

/// The first holes have no more vertices than all of them.
proof fn lemma_fewer_vertices(holes: Seq<usize>, count: int, k: int, n: int)
    requires
        k <= n,
    ensures
        hole_vertices(holes, count, k) <= hole_vertices(holes, count, n),
    decreases n - k,
{
    if k < n {
        lemma_fewer_vertices(holes, count, k, n - 1);
    }
}

/// The area of a polygon is found exactly.
pub(crate) proof fn lemma_polygon(data: Seq<Exact>, holes: Seq<usize>, dim: int, k: int)
    requires
        is_flat(data, holes, dim),
        integral(data),
        0 <= k <= holes.len(),
        rings_countable(holes, data.len() as int / dim),
    ensures
        ({
            let a = net_area(
                corners(integer(), data, dim),
                holes,
                data.len() as int / dim,
                k,
            );
            &&& polygon_area(data, holes, dim, k) == whole(a)
            &&& abs(a) <= (outer_count(holes, data.len() as int / dim) + hole_vertices(
                holes,
                data.len() as int / dim,
                k,
            )) * STEP
            &&& abs(a) <= usize::MAX * STEP
            &&& fits(a)
        }),
    decreases k,
{
    let count = data.len() as int / dim;
    let at = corners(integer(), data, dim);
    assert(0 <= count <= usize::MAX) by {
        vstd::arithmetic::div_mod::lemma_div_pos_is_pos(data.len() as int, dim);
        vstd::arithmetic::div_mod::lemma_div_nonincreasing(data.len() as int, dim);
    }
    lemma_fewer_vertices(holes, count, k, holes.len() as int);
    let from = if k > 0 {
        holes[k - 1] as int
    } else {
        0
    };
    let to = if k > 0 {
        hole_end(holes, count, k - 1)
    } else {
        outer_count(holes, count)
    };
    let a = loop_area(at, from, to);
    lemma_loop(data, dim, from, to);
    lemma_whole(a, 0);
    if k > 0 {
        lemma_polygon(data, holes, dim, k - 1);
        lemma_whole(net_area(at, holes, count, k - 1), abs(a));
    } else {
        assert(from * dim == 0) by (nonlinear_arith)
            requires
                from == 0,
        ;
    }
}

/// The area of a triangle of vertices is found exactly.
proof fn lemma_triangle(data: Seq<Exact>, dim: int, a: int, b: int, c: int)
    requires
        integral(data),
        dim >= 2,
        0 <= a < data.len() as int / dim,
        0 <= b < data.len() as int / dim,
        0 <= c < data.len() as int / dim,
    ensures
        ({
            let at = corners(integer(), data, dim);
            triangle_area(data, dim, a, b, c) == whole(abs(tri(at(a), at(b), at(c))))
        }),
{
    let at = corners(integer(), data, dim);
    lemma_vertex_coordinates(data, dim, a);
    lemma_vertex_coordinates(data, dim, b);
    lemma_vertex_coordinates(data, dim, c);
    let (ax, ay) = at(a);
    let (bx, by) = at(b);
    let (cx, cy) = at(c);
    let (p, q, r, s) = (ax - cx, by - ay, ax - bx, cy - ay);
    let m = 2 * LIMIT;
    lemma_whole(ax, cx);
    lemma_whole(by, ay);
    lemma_whole(ax, bx);
    lemma_whole(cy, ay);
    lemma_bounded(p, q, m, m);
    lemma_bounded(r, s, m, m);
    assert(m * m <= STEP) by (nonlinear_arith)
        requires
            m == 0x8000_0000,
    ;
    lemma_whole(p, q);
    lemma_whole(r, s);
    lemma_whole(p * q, r * s);
    lemma_whole(p * q - r * s, 0);
    lemma_triangle_formula(ax, ay, bx, by, cx, cy);
}

/// The area of triangles is not negative.
proof fn lemma_tris_positive(at: spec_fn(int) -> (int, int), tris: Seq<usize>)
    ensures
        tris_area(at, tris) >= 0,
    decreases tris.len(),
{
    if tris.len() >= 3 {
        lemma_tris_positive(at, tris.skip(3));
    }
}

/// The area of the first triangles is found exactly if that of all of them fits.
pub(crate) proof fn lemma_triangles(data: Seq<Exact>, dim: int, tris: Seq<usize>, k: int)
    requires
        integral(data),
        dim >= 2,
        are_triangles(tris, data.len() as int / dim),
        0 <= 3 * k <= tris.len(),
        fits(tris_area(corners(integer(), data, dim), tris)),
    ensures
        triangles_area(data, dim, tris, k) == whole(
            tris_area(corners(integer(), data, dim), tris.take(3 * k)),
        ),
        0 <= tris_area(corners(integer(), data, dim), tris.take(3 * k)) <= tris_area(
            corners(integer(), data, dim),
            tris,
        ),
    decreases k,
{
    let at = corners(integer(), data, dim);
    let now = tris.take(3 * k);
    assert(tris =~= now + tris.skip(3 * k));
    lemma_tris_area(at, now, tris.skip(3 * k));
    lemma_tris_positive(at, now);
    lemma_tris_positive(at, tris.skip(3 * k));
    if k > 0 {
        let then = tris.take(3 * (k - 1));
        let last = tris.subrange(3 * k - 3, 3 * k);
        lemma_triangles(data, dim, tris, k - 1);
        assert(now =~= then + last);
        lemma_tris_area(at, then, last);
        assert(tris_area(at, last.skip(3)) == 0);
        let (a, b, c) = (tris[3 * k - 3] as int, tris[3 * k - 2] as int, tris[3 * k - 1] as int);
        assert(last[0] == a && last[1] == b && last[2] == c);
        assert(a < data.len() as int / dim && b < data.len() as int / dim && c < data.len() as int
            / dim);
        lemma_triangle(data, dim, a, b, c);
        lemma_whole(tris_area(at, then), abs(tri(at(a), at(b), at(c))));
    } else {
        assert(tris_area(at, now) == 0);
    }
}

/// The triangulation of a polygon with integer coordinates of moderate size has no deviation if
/// the polygon is sliced completely.
pub proof fn lemma_no_deviation(data: Seq<Exact>, holes: Seq<usize>, dim: int)
    requires
        is_flat(data, holes, dim),
        integral(data),
        rings_countable(holes, data.len() as int / dim),
        sliced_completely(data, holes, dim),
    ensures
        deviation_spec(data, holes, dim, triangulation(data, holes, dim)).same_spec(
            zero::<Exact>(),
        ),
{
    let count = data.len() as int / dim;
    let at = corners(integer(), data, dim);
    let tris = triangulation(data, holes, dim);
    let n = net_area(at, holes, count, holes.len() as int);
    lemma_integral(data, holes, dim);
    lemma_triangulation_area(integer(), data, holes, dim);
    lemma_triangulation(data, holes, dim);
    lemma_polygon(data, holes, dim, holes.len() as int);
    assert(are_triangles(tris, count));
    lemma_triangles(data, dim, tris, tris.len() as int / 3);
    assert(tris.take(3 * (tris.len() as int / 3)) =~= tris);
    lemma_whole(n, 0);
    lemma_whole(n, n);
    lemma_whole(0, 0);
    if n != 0 {
        let d = whole(0).over_spec(whole(n));
        assert(whole(0).num * whole(n).den == 0 && whole(0).den * whole(n).num == n) by (
        nonlinear_arith)
            requires
                whole(0).num == 0,
                whole(0).den == 1,
                whole(n).num == n,
        ;
        let e = d.magnitude_spec();
        assert(e.num == 0 && e.den != 0);
        assert(e.num * whole(0).den == 0 && whole(0).num * e.den == 0) by (nonlinear_arith)
            requires
                e.num == 0,
                whole(0).num == 0,
        ;
    }
}

// ---------------------------------------------------------------------------------------------
// Convex polygons
// ---------------------------------------------------------------------------------------------
/// The vertices from the first to `count` are in convex position, counterclockwise if `left`, and
/// clockwise if not.
pub open spec fn convex_vertices(at: spec_fn(int) -> (int, int), count: int, left: bool) -> bool {
    forall|u: int, v: int, w: int|
        0 <= u < v < w < count ==> (if left {
            #[trigger] tri(at(u), at(v), at(w)) > 0
        } else {
            tri(at(u), at(v), at(w)) < 0
        })
}

/// Convex vertices enclose an area of the sign of their turns.
pub(crate) proof fn lemma_convex_area(at: spec_fn(int) -> (int, int), count: int, left: bool, k: int)
    requires
        convex_vertices(at, count, left),
        2 <= k <= count,
    ensures
        k > 2 && left ==> loop_area(at, 0, k) > 0,
        k > 2 && !left ==> loop_area(at, 0, k) < 0,
        k == 2 ==> loop_area(at, 0, k) == 0,
    decreases k,
{
    if k == 2 {
        lemma_cross(at(0), at(1));
        assert(walk_sum(by_area(), at, 0, 1) == 0);
    } else {
        lemma_convex_area(at, count, left, k - 1);
        assert(walk_sum(by_area(), at, 0, k) == walk_sum(by_area(), at, 0, k - 1) + cross(
            at(k - 2),
            at(k - 1),
        ));
        lemma_cross(at(0), at(k - 2));
        let t = tri(at(0), at(k - 2), at(k - 1));
        assert(if left {
            t > 0
        } else {
            t < 0
        });
    }
}

/// A convex polygon with integer coordinates of moderate size is sliced completely: `n` vertices
/// give `n - 2` triangles, without deviation.
pub proof fn lemma_convex_polygon(data: Seq<Exact>, dim: int, left: bool)
    requires
        is_flat(data, Seq::empty(), dim),
        integral(data),
        data.len() as int / dim >= 3,
        convex_vertices(corners(integer(), data, dim), data.len() as int / dim, left),
    ensures
        triangulation(data, Seq::empty(), dim).len() == 3 * (data.len() as int / dim - 2),
        deviation_spec(
            data,
            Seq::empty(),
            dim,
            triangulation(data, Seq::empty(), dim),
        ).same_spec(zero::<Exact>()),
{
    let holes = Seq::<usize>::empty();
    let val = integer();
    let count = data.len() as int / dim;
    let at = corners(val, data, dim);
    let none = Seq::<Pt<Exact>>::empty();
    let l = outer_ring(data, holes, dim);
    let g = ear_grid(data, dim, count);
    lemma_integral(data, holes, dim);
    lemma_convex_area(at, count, left, count);
    lemma_loop(data, dim, 0, count);
    lemma_whole(0, loop_area(at, 0, count));
    assert(0int * dim == 0);
    assert(count <= usize::MAX) by {
        vstd::arithmetic::div_mod::lemma_div_nonincreasing(data.len() as int, dim);
    }
    let more = wound(data, dim, 0, count, true);
    assert(l.pts =~= more);
    let place = |h: int|
        if left {
            h
        } else {
            count - 1 - h
        };
    assert forall|h: int| 0 <= h < count implies #[trigger] spot(val, l.pts, h) == at(
        place(h),
    ) by {
        assert(l.pts[h] == more[h]);
    }
    lemma_listed(none, data, dim, 0, count, true, count);
    lemma_listed_drawn(data, dim, count);
    lemma_drawn(val, l.pts, data, holes, dim);
    assert(turns_found(val, l.pts)) by {
        assert forall|p: int, q: int, r: int|
            0 <= p < count && 0 <= q < count && 0 <= r < count && tri(
                spot(val, l.pts, p),
                spot(val, l.pts, q),
                spot(val, l.pts, r),
            ) > 0 implies (#[trigger] area(l.pts, p, q, r)).less_spec(zero::<Exact>())
            && !zero::<Exact>().at_most_spec(area(l.pts, p, q, r)) by {
            let (u, v, w) = (place(p), place(q), place(r));
            lemma_vertex_coordinates(data, dim, u);
            lemma_vertex_coordinates(data, dim, v);
            lemma_vertex_coordinates(data, dim, w);
            lemma_corner_area(at(u).0, at(u).1, at(v).0, at(v).1, at(w).0, at(w).1);
            let t = tri(at(u), at(v), at(w));
            assert(spot(val, l.pts, p) == at(u));
            assert(spot(val, l.pts, q) == at(v));
            assert(spot(val, l.pts, r) == at(w));
            assert(l.pts[p] == more[p] && l.pts[q] == more[q] && l.pts[r] == more[r]);
            assert(area(l.pts, p, q, r) == whole(-t));
            lemma_whole(-t, 0);
            lemma_whole(0, -t);
        }
    }
    assert(!coincide(l.pts, count - 1, 0)) by {
        if coincide(l.pts, count - 1, 0) {
            assert(spot(val, l.pts, count - 1) == spot(val, l.pts, 0));
            lemma_cross(at(0), at(1));
            lemma_cross(at(0), at(0));
            let t = tri(at(0), at(1), at(count - 1));
            assert(at(0) == at(count - 1)) by {
                assert(spot(val, l.pts, 0) == at(place(0)));
                assert(spot(val, l.pts, count - 1) == at(place(count - 1)));
            }
        }
    }
    let r = l.ring;
    assert(r.len() == count);
    assert forall|i: int, j: int, k: int| 0 <= i < j < k < r.len() implies tri(
        spot(val, l.pts, #[trigger] r[i]),
        spot(val, l.pts, #[trigger] r[j]),
        spot(val, l.pts, #[trigger] r[k]),
    ) > 0 by {
        assert(r[j] == j - 1 && r[k] == k - 1);
        assert(r[i] == (if i == 0 {
            count - 1
        } else {
            i - 1
        }));
        let (u, v, w) = (place(r[i]), place(r[j]), place(r[k]));
        assert(spot(val, l.pts, r[i]) == at(u));
        assert(spot(val, l.pts, r[j]) == at(v));
        assert(spot(val, l.pts, r[k]) == at(w));
        lemma_tri_turned(at(u), at(v), at(w));
        lemma_tri_turned(at(v), at(w), at(u));
        lemma_tri_reversed(at(u), at(v), at(w));
        lemma_tri_reversed(at(v), at(w), at(u));
        if left {
            if i == 0 {
                assert(tri(at(v), at(w), at(u)) > 0);
            } else {
                assert(tri(at(u), at(v), at(w)) > 0);
            }
        } else {
            if i == 0 {
                assert(tri(at(u), at(w), at(v)) < 0);
            } else {
                assert(tri(at(w), at(v), at(u)) < 0);
            }
        }
    }
    lemma_convex_sliced(val, l.pts, r, g);
    assert(sliced_completely(data, holes, dim)) by {
        let q = queued(l.pts, data, dim, holes, 0);
        assert(in_order(q.pts, q.holes).len() == 0);
    }
    lemma_no_deviation(data, holes, dim);
}

/// A triangle seen from the other side.
pub(crate) proof fn lemma_tri_reversed(a: (int, int), b: (int, int), c: (int, int))
    ensures
        tri(a, b, c) == -tri(c, b, a),
{
    lemma_cross(a, b);
    lemma_cross(b, c);
    lemma_cross(c, a);
}

/// The outer ring is drawn from the data.
proof fn lemma_listed_drawn(data: Seq<Exact>, dim: int, count: int)
    requires
        count == data.len() as int / dim,
        count <= usize::MAX,
    ensures
        drawn(
            listed(Seq::<Pt<Exact>>::empty(), data, dim, 0, count, true).pts,
            data,
            dim,
        ),
{
    let l = listed(Seq::<Pt<Exact>>::empty(), data, dim, 0, count, true);
    let more = wound(data, dim, 0, count, true);
    assert forall|h: int| 0 <= h < l.pts.len() implies (#[trigger] l.pts[h]).i < count
        && l.pts[h].x == data[l.pts[h].i * dim] && l.pts[h].y == data[l.pts[h].i * dim + 1] by {
        assert(l.pts[h] == more[h]);
    }
}

} // verus!
