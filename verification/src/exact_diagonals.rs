//! Diagonals of rings with integer coordinates: which are found to lie inside.
use vstd::prelude::*;
use crate::areas::{spot, tri};
use crate::bounds::in_table;
use crate::diagonals::{
    in_angle, in_sight, inner_diagonal, interior, lemma_inner_by_middle, lemma_inner_in_angle,
    lemma_inner_in_sight, lemma_inner_seen, lemma_inner_swapped, lemma_off_edges, lemma_once_around,
    lemma_winding_by_rises, no_three_in_line, not_neighbours, off_ring, rises, risings, weigh,
};
use crate::exact::{whole, Exact};
use crate::exact_areas::{integer, lemma_bounded, lemma_corner_area, lemma_whole, LIMIT};
use crate::fresh_index::{moderate_node, moderate_table};
use crate::geometry::zero;
use crate::meeting::{
    lemma_apart_means, lemma_average, lemma_meeting, lemma_whole_ends, meets_at, moderate,
    share_point,
};
use crate::model::{
    after, area, before, coincide, edge_meets, intersects_polygon_spec, locally_inside_spec,
    middle_inside_spec, odd_crossings, pred, ray_crosses, succ, turned_to, valid_diagonal, Pt,
};
use crate::scalar::Scalar;
use crate::segments::{apart, lemma_differences, lemma_tri, on};
use crate::simple::{
    left_handed, lemma_corners_differ, lemma_seen_at, lemma_seen_left_handed, place, seen_at,
    simple,
};
use crate::simple_polygons::spots;
use crate::winding::{next, prev, winding};
use crate::zooming::{lemma_zoom_left_handed, lemma_zoomed_at, zoom, zoomed};

verus! {

// ---------------------------------------------------------------------------------------------
// The middle of a diagonal
// ---------------------------------------------------------------------------------------------
/// Half of an integer compared with an integer.
proof fn lemma_half_order(a: int, b: int)
    requires
        -4 * LIMIT <= a <= 4 * LIMIT,
        -4 * LIMIT <= b <= 4 * LIMIT,
    ensures
        ({
            let h = whole(a).over_spec(whole(2));
            &&& h.num == a
            &&& h.den == 2
            &&& h.less_spec(whole(b)) <==> a < 2 * b
        }),
{
    let (w, two, v) = (whole(a), whole(2), whole(b));
    assert(w.num * two.den == a && w.den * two.num == 2) by (nonlinear_arith)
        requires
            w.num == a,
            w.den == 1,
            two.num == 2,
            two.den == 1,
    ;
    let h = w.over_spec(two);
    assert(h.num == a && h.den == 2);
    assert(h.num * v.den == a && v.num * h.den == 2 * b) by (nonlinear_arith)
        requires
            h.num == a,
            h.den == 2,
            v.num == b,
            v.den == 1,
    ;
}

/// Where an edge is at half an integer height, compared with half an integer.
proof fn lemma_at_height(x: int, y: int, qx: int, qy: int, nx: int, ny: int)
    requires
        moderate((qx, qy)),
        moderate((nx, ny)),
        -2 * LIMIT <= x <= 2 * LIMIT,
        -2 * LIMIT <= y <= 2 * LIMIT,
        qy != ny,
    ensures
        ({
            let px = whole(x).over_spec(whole(2));
            let py = whole(y).over_spec(whole(2));
            let at = whole(nx).minus_spec(whole(qx)).times_spec(
                py.minus_spec(whole(qy)),
            ).over_spec(whole(ny).minus_spec(whole(qy))).plus_spec(whole(qx));
            let t = tri(zoom((qx, qy), 2), zoom((nx, ny), 2), (x, y));
            px.less_spec(at) <==> (if qy < ny {
                t > 0
            } else {
                t < 0
            })
        }),
{
    let (px, py) = (whole(x).over_spec(whole(2)), whole(y).over_spec(whole(2)));
    lemma_half_order(x, 0);
    lemma_half_order(y, 0);
    let (dx, dy, e) = (nx - qx, ny - qy, y - 2 * qy);
    lemma_whole(nx, qx);
    lemma_whole(ny, qy);
    let w = whole(qy);
    assert(py.num * w.den == y && w.num * py.den == 2 * qy && py.den * w.den == 2) by (
    nonlinear_arith)
        requires
            py.num == y,
            py.den == 2,
            w.num == qy,
            w.den == 1,
    ;
    let f = py.minus_spec(w);
    assert(f.num == e && f.den == 2);
    let d = whole(dx);
    let n = dx * e;
    lemma_bounded(dx, e, 2 * LIMIT, 4 * LIMIT);
    assert((2 * LIMIT) * (4 * LIMIT) <= 0x8000_0000_0000_0000) by (nonlinear_arith)
        requires
            LIMIT == 0x4000_0000,
    ;
    assert(d.num * f.num == n && d.den * f.den == 2) by (nonlinear_arith)
        requires
            d.num == dx,
            d.den == 1,
            f.num == e,
            f.den == 2,
            n == dx * e,
    ;
    let g = d.times_spec(f);
    assert(g.num == n && g.den == 2);
    let v = whole(dy);
    assert(g.num * v.den == n && g.den * v.num == 2 * dy) by (nonlinear_arith)
        requires
            g.num == n,
            g.den == 2,
            v.num == dy,
            v.den == 1,
    ;
    let h = g.over_spec(v);
    let (hn, hd) = if dy > 0 {
        (n, 2 * dy)
    } else {
        (-n, -2 * dy)
    };
    assert(h.num == hn && h.den == hd);
    let c = whole(qx);
    assert(h.num * c.den == hn && c.num * h.den == qx * hd && h.den * c.den == hd) by (
    nonlinear_arith)
        requires
            h.num == hn,
            h.den == hd,
            c.num == qx,
            c.den == 1,
    ;
    lemma_bounded(qx, hd, LIMIT as int, 4 * LIMIT);
    assert(LIMIT * (4 * LIMIT) <= 0x8000_0000_0000_0000) by (nonlinear_arith)
        requires
            LIMIT == 0x4000_0000,
    ;
    let at = h.plus_spec(c);
    let z = hn + qx * hd;
    assert(at.num == z && at.den == hd);
    lemma_bounded(x, hd, 2 * LIMIT, 4 * LIMIT);
    assert(px.num * at.den == x * hd && at.num * px.den == 2 * z) by (nonlinear_arith)
        requires
            px.num == x,
            px.den == 2,
            at.num == z,
            at.den == hd,
    ;
    assert(px.less_spec(at) <==> x * hd < 2 * z);
    let (a, b) = (zoom((qx, qy), 2), zoom((nx, ny), 2));
    lemma_differences(b.0, a.0, y, a.1);
    lemma_differences(b.1, a.1, x, a.0);
    let t = tri(a, b, (x, y));
    assert((b.0 - a.0) * (y - a.1) == 2 * n) by (nonlinear_arith)
        requires
            b.0 - a.0 == 2 * dx,
            y - a.1 == e,
            n == dx * e,
    ;
    let k = dy * (x - 2 * qx);
    assert((b.1 - a.1) * (x - a.0) == 2 * k) by (nonlinear_arith)
        requires
            b.1 - a.1 == 2 * dy,
            x - a.0 == x - 2 * qx,
            k == dy * (x - 2 * qx),
    ;
    assert(t == 2 * n - 2 * k);
    assert(x * (2 * dy) - 2 * (qx * (2 * dy)) == 2 * k) by (nonlinear_arith)
        requires
            k == dy * (x - 2 * qx),
    ;
    assert(x * (-2 * dy) == -(x * (2 * dy)) && qx * (-2 * dy) == -(qx * (2 * dy))) by (
    nonlinear_arith);
}

/// The corner of a ring at place `k`, as a node.
pub(crate) proof fn lemma_corner(pts: Seq<Pt<Exact>>, r: Seq<int>, k: int)
    requires
        moderate_table(pts),
        in_table(r, pts.len() as int),
        0 <= k < r.len(),
    ensures
        ({
            let p = spots(integer(), pts, r);
            &&& p.len() == r.len()
            &&& p[k] == spot(integer(), pts, r[k])
            &&& pts[r[k]].x == whole(p[k].0)
            &&& pts[r[k]].y == whole(p[k].1)
            &&& moderate(p[k])
            &&& 0 <= after(k, r.len() as int) < r.len()
            &&& 0 <= before(k, r.len() as int) < r.len()
            &&& next(p, k) == p[after(k, r.len() as int)]
            &&& prev(p, k) == p[before(k, r.len() as int)]
        }),
{
    assert(0 <= r[k] < pts.len());
    assert(moderate_node(pts[r[k]]));
}

/// Whether an edge crosses the ray from the middle of a diagonal to the right is found exactly.
pub(crate) proof fn lemma_crossing_found(pts: Seq<Pt<Exact>>, r: Seq<int>, q: (int, int), k: int)
    requires
        moderate_table(pts),
        in_table(r, pts.len() as int),
        0 <= k < r.len(),
        -2 * LIMIT <= q.0 <= 2 * LIMIT,
        -2 * LIMIT <= q.1 <= 2 * LIMIT,
    ensures
        ({
            let z = zoomed(spots(integer(), pts, r), 2);
            ray_crosses(
                pts,
                r,
                whole(q.0).over_spec(whole(2)),
                whole(q.1).over_spec(whole(2)),
                k,
            ) <==> rises(z[k], next(z, k), q) != 0
        }),
{
    let p = spots(integer(), pts, r);
    let m = after(k, r.len() as int);
    lemma_corner(pts, r, k);
    lemma_corner(pts, r, m);
    lemma_zoomed_at(p, 2, k);
    let (a, b) = (p[k], p[m]);
    lemma_half_order(q.1, a.1);
    lemma_half_order(q.1, b.1);
    if a.1 != b.1 {
        lemma_at_height(q.0, q.1, a.0, a.1, b.0, b.1);
    }
}

/// Crossings are counted as they are.
proof fn lemma_odd_found(pts: Seq<Pt<Exact>>, r: Seq<int>, q: (int, int), k: int)
    requires
        moderate_table(pts),
        in_table(r, pts.len() as int),
        0 <= k <= r.len(),
        -2 * LIMIT <= q.0 <= 2 * LIMIT,
        -2 * LIMIT <= q.1 <= 2 * LIMIT,
    ensures
        ({
            let z = zoomed(spots(integer(), pts, r), 2);
            odd_crossings(
                pts,
                r,
                whole(q.0).over_spec(whole(2)),
                whole(q.1).over_spec(whole(2)),
                k,
            ) <==> risings(z, q, k) % 2 != 0
        }),
    decreases k,
{
    if k > 0 {
        lemma_odd_found(pts, r, q, k - 1);
        lemma_crossing_found(pts, r, q, k - 1);
    }
}

/// The middle of a diagonal of a ring with integer coordinates, where it is on no edge, is found
/// inside exactly if the ring runs around it an odd number of times: if the ring is simple and runs
/// counterclockwise, exactly if it is inside.
pub proof fn lemma_middle_inside(pts: Seq<Pt<Exact>>, r: Seq<int>, j: int)
    requires
        moderate_table(pts),
        in_table(r, pts.len() as int),
        0 <= j < r.len(),
        ({
            let p = spots(integer(), pts, r);
            off_ring(zoomed(p, 2), weigh(p[0], p[j], 1, 1))
        }),
    ensures
        ({
            let p = spots(integer(), pts, r);
            let q = weigh(p[0], p[j], 1, 1);
            &&& middle_inside_spec(pts, r, j) <==> winding(zoomed(p, 2), q) % 2 != 0
            &&& left_handed(p) ==> (middle_inside_spec(pts, r, j) <==> interior(p, 2, q))
        }),
{
    let p = spots(integer(), pts, r);
    let q = weigh(p[0], p[j], 1, 1);
    let z = zoomed(p, 2);
    lemma_corner(pts, r, 0);
    lemma_corner(pts, r, j);
    assert(q == (p[0].0 + p[j].0, p[0].1 + p[j].1));
    lemma_whole(p[0].0, p[j].0);
    lemma_whole(p[0].1, p[j].1);
    lemma_odd_found(pts, r, q, r.len() as int);
    lemma_winding_by_rises(z, q);
    if left_handed(p) {
        lemma_zoom_left_handed(p, 2);
        lemma_once_around(z, q);
    }
}

// ---------------------------------------------------------------------------------------------
// Valid diagonals
// ---------------------------------------------------------------------------------------------
/// The nodes of the ring are of different vertices.
pub open spec fn different_vertices<C>(pts: Seq<Pt<C>>, r: Seq<int>) -> bool {
    forall|a: int, b: int|
        0 <= a < r.len() && 0 <= b < r.len() && a != b ==> pts[#[trigger] r[a]].i
            != pts[#[trigger] r[b]].i
}

/// Which way three corners turn is found exactly.
pub proof fn lemma_turn_found(pts: Seq<Pt<Exact>>, r: Seq<int>, a: int, b: int, c: int)
    requires
        moderate_table(pts),
        in_table(r, pts.len() as int),
        0 <= a < r.len(),
        0 <= b < r.len(),
        0 <= c < r.len(),
    ensures
        ({
            let p = spots(integer(), pts, r);
            let t = tri(p[a], p[b], p[c]);
            let found = area(pts, r[a], r[b], r[c]);
            &&& found.less_spec(zero::<Exact>()) <==> t > 0
            &&& zero::<Exact>().at_most_spec(found) <==> t <= 0
            &&& zero::<Exact>().less_spec(found) <==> t < 0
            &&& found.same_spec(zero::<Exact>()) <==> t == 0
        }),
{
    let p = spots(integer(), pts, r);
    lemma_corner(pts, r, a);
    lemma_corner(pts, r, b);
    lemma_corner(pts, r, c);
    lemma_corner_area(p[a].0, p[a].1, p[b].0, p[b].1, p[c].0, p[c].1);
    let t = tri(p[a], p[b], p[c]);
    lemma_whole(-t, 0);
    lemma_whole(0, -t);
}

/// Whether a corner lies in the angle of another is found exactly.
pub proof fn lemma_angle_found(pts: Seq<Pt<Exact>>, r: Seq<int>, i: int, j: int)
    requires
        moderate_table(pts),
        in_table(r, pts.len() as int),
        0 <= i < r.len(),
        0 <= j < r.len(),
    ensures
        locally_inside_spec(pts, r, i, r[j]) <==> in_angle(
            spots(integer(), pts, r),
            i,
            spots(integer(), pts, r)[j],
        ),
{
    let n = r.len() as int;
    let (e, f) = (before(i, n), after(i, n));
    let p = spots(integer(), pts, r);
    lemma_corner(pts, r, i);
    lemma_corner(pts, r, j);
    lemma_turn_found(pts, r, e, i, f);
    lemma_turn_found(pts, r, i, j, f);
    lemma_turn_found(pts, r, i, e, j);
    lemma_turn_found(pts, r, i, j, e);
    lemma_turn_found(pts, r, i, f, j);
    lemma_tri(p[i], p[j], p[f]);
    lemma_tri(p[i], p[e], p[j]);
}

/// Segments that have a point in common are not beside each other.
proof fn lemma_boxes_meet(a: int, b: int, c: int, d: int, s: int, t: int, x: int, y: int)
    requires
        s >= 0,
        t >= 0,
        x >= 0,
        y >= 0,
        s + t == x + y,
        s + t > 0,
        s * a + t * b == x * c + y * d,
    ensures
        !(c < a && c < b && d < a && d < b),
        !(a < c && a < d && b < c && b < d),
{
    let z = s + t;
    let (l1, h1) = if a <= b {
        (a, b)
    } else {
        (b, a)
    };
    let (l2, h2) = if c <= d {
        (c, d)
    } else {
        (d, c)
    };
    lemma_average(s, t, a, b, l1, h1);
    lemma_average(x, y, c, d, l2, h2);
    assert(h1 < l2 ==> z * h1 < z * l2) by (nonlinear_arith)
        requires
            z > 0,
    ;
    assert(h2 < l1 ==> z * h2 < z * l1) by (nonlinear_arith)
        requires
            z > 0,
    ;
}

/// Both ends beyond the greater, or both below the lesser, of two integers.
pub(crate) proof fn lemma_beyond_found(a: int, b: int, c: int, d: int)
    requires
        -LIMIT <= a <= LIMIT,
        -LIMIT <= b <= LIMIT,
        -LIMIT <= c <= LIMIT,
        -LIMIT <= d <= LIMIT,
    ensures
        ({
            let (low, high) = (whole(a).lower_spec(whole(b)), whole(a).upper_spec(whole(b)));
            &&& high.less_spec(whole(c)) && high.less_spec(whole(d)) <==> a < c && a < d && b < c
                && b < d
            &&& whole(c).less_spec(low) && whole(d).less_spec(low) <==> c < a && c < b && d < a
                && d < b
        }),
{
    lemma_whole_ends(a, b);
    let (l, h) = if b < a {
        (b, a)
    } else {
        (a, b)
    };
    lemma_whole(h, c);
    lemma_whole(h, d);
    lemma_whole(c, l);
    lemma_whole(d, l);
}

/// Whether an edge meets a diagonal without a common vertex is found exactly.
pub proof fn lemma_meeting_found(pts: Seq<Pt<Exact>>, r: Seq<int>, j: int, k: int)
    requires
        moderate_table(pts),
        in_table(r, pts.len() as int),
        0 < j < r.len(),
        0 <= k < r.len(),
        r.len() >= 3,
    ensures
        ({
            let m = after(k, r.len() as int);
            let p = spots(integer(), pts, r);
            edge_meets(pts, r, j, k) <==> pts[r[k]].i != pts[r[0]].i && pts[r[m]].i != pts[r[0]].i
                && pts[r[k]].i != pts[r[j]].i && pts[r[m]].i != pts[r[j]].i && !apart(
                p[k],
                next(p, k),
                p[0],
                p[j],
            )
        }),
{
    let n = r.len() as int;
    let m = after(k, n);
    let p = spots(integer(), pts, r);
    lemma_corner(pts, r, 0);
    lemma_corner(pts, r, j);
    lemma_corner(pts, r, k);
    lemma_corner(pts, r, m);
    let (a, b, c, d) = (p[0], p[j], p[k], p[m]);
    lemma_meeting(c, d, a, b);
    lemma_apart_means(c, d, a, b);
    lemma_beyond_found(a.0, b.0, c.0, d.0);
    lemma_beyond_found(a.1, b.1, c.1, d.1);
    if share_point(c, d, a, b) {
        let (s, t, x, y) = choose|s: int, t: int, x: int, y: int| #[trigger] meets_at(
            c,
            d,
            a,
            b,
            s,
            t,
            x,
            y,
        );
        lemma_boxes_meet(c.0, d.0, a.0, b.0, s, t, x, y);
        lemma_boxes_meet(c.1, d.1, a.1, b.1, s, t, x, y);
    }
}

/// Whether an edge meets a diagonal without a common end is found exactly.
proof fn lemma_edge_found(pts: Seq<Pt<Exact>>, r: Seq<int>, j: int, k: int)
    requires
        moderate_table(pts),
        in_table(r, pts.len() as int),
        different_vertices(pts, r),
        0 < j < r.len(),
        0 <= k < r.len(),
        r.len() >= 3,
    ensures
        ({
            let n = r.len() as int;
            let p = spots(integer(), pts, r);
            edge_meets(pts, r, j, k) <==> k != 0 && k != before(0, n) && k != j && k != before(j, n)
                && !apart(p[k], next(p, k), p[0], p[j])
        }),
{
    let n = r.len() as int;
    let m = after(k, n);
    lemma_meeting_found(pts, r, j, k);
    assert(pts[r[k]].i != pts[r[0]].i <==> k != 0);
    assert(pts[r[m]].i != pts[r[0]].i <==> m != 0);
    assert(pts[r[k]].i != pts[r[j]].i <==> k != j);
    assert(pts[r[m]].i != pts[r[j]].i <==> m != j);
}

/// Whether a diagonal meets the ring is found exactly.
proof fn lemma_sight_found(pts: Seq<Pt<Exact>>, r: Seq<int>, j: int)
    requires
        moderate_table(pts),
        in_table(r, pts.len() as int),
        different_vertices(pts, r),
        0 < j < r.len(),
        r.len() >= 3,
    ensures
        intersects_polygon_spec(pts, r, j) <==> !in_sight(spots(integer(), pts, r), 0, j),
{
    let n = r.len() as int;
    let p = spots(integer(), pts, r);
    if intersects_polygon_spec(pts, r, j) {
        let k = choose|k: int| 0 <= k < r.len() && edge_meets(pts, r, j, k);
        lemma_edge_found(pts, r, j, k);
        lemma_corner(pts, r, k);
        assert(!apart(p[k], next(p, k), p[0], p[j]));
    } else {
        assert forall|k: int|
            0 <= k < p.len() && k != 0 && k != before(0, n) && k != j && k != before(
                j,
                n,
            ) implies apart(#[trigger] p[k], next(p, k), p[0], p[j]) by {
            assert(!edge_meets(pts, r, j, k));
            lemma_edge_found(pts, r, j, k);
        }
    }
}

/// In a simple ring with integer coordinates that runs counterclockwise, no three corners of which
/// lie on one line, a diagonal between corners that are not neighbours is valid exactly if all
/// points between its ends are inside the ring.
pub proof fn lemma_valid_diagonal(pts: Seq<Pt<Exact>>, r: Seq<int>, j: int)
    requires
        moderate_table(pts),
        in_table(r, pts.len() as int),
        different_vertices(pts, r),
        left_handed(spots(integer(), pts, r)),
        no_three_in_line(spots(integer(), pts, r)),
        2 <= j <= r.len() - 2,
    ensures
        valid_diagonal(pts, r, j) <==> inner_diagonal(spots(integer(), pts, r), 0, j),
{
    let n = r.len() as int;
    let p = spots(integer(), pts, r);
    let q = weigh(p[0], p[j], 1, 1);
    assert(not_neighbours(p, 0, j));
    lemma_corner(pts, r, 0);
    lemma_corner(pts, r, j);
    lemma_corners_differ(p, 0, j);
    lemma_whole(p[0].0, p[j].0);
    lemma_whole(p[0].1, p[j].1);
    assert(!coincide(pts, r[0], r[j]));
    assert(pts[succ(r, 0)].i != pts[r[j]].i) by {
        assert(succ(r, 0) == r[1]);
    }
    lemma_angle_found(pts, r, 0, j);
    lemma_angle_found(pts, r, j, 0);
    lemma_turn_found(pts, r, 0, j - 1, j);
    assert(tri(p[0], p[j - 1], p[j]) != 0);
    assert(pred(r, j) == r[j - 1]);
    lemma_sight_found(pts, r, j);
    if inner_diagonal(p, 0, j) {
        lemma_inner_in_sight(p, 0, j);
        lemma_inner_in_angle(p, 0, j);
        lemma_inner_swapped(p, 0, j);
        assert(not_neighbours(p, j, 0));
        lemma_inner_in_angle(p, j, 0);
        assert(interior(p, 2, q));
        lemma_middle_inside(pts, r, j);
    }
    if valid_diagonal(pts, r, j) {
        lemma_off_edges(p, 0, j, 1, 1);
        lemma_middle_inside(pts, r, j);
        lemma_inner_by_middle(p, 0, j);
    }
}

/// Under the same conditions a diagonal is valid from the one end exactly if it is from the other.
pub proof fn lemma_valid_diagonal_symmetric(pts: Seq<Pt<Exact>>, r: Seq<int>, j: int)
    requires
        moderate_table(pts),
        in_table(r, pts.len() as int),
        different_vertices(pts, r),
        left_handed(spots(integer(), pts, r)),
        no_three_in_line(spots(integer(), pts, r)),
        2 <= j <= r.len() - 2,
    ensures
        valid_diagonal(pts, turned_to(r, j), r.len() - j) == valid_diagonal(pts, r, j),
{
    let n = r.len() as int;
    let b = turned_to(r, j);
    let p = spots(integer(), pts, r);
    let q = spots(integer(), pts, b);
    assert(q =~= seen_at(p, j));
    assert forall|k: int| 0 <= k < n implies #[trigger] b[k] == r[place(k, j, n)] && 0 <= place(
        k,
        j,
        n,
    ) < n by {}
    assert(in_table(b, pts.len() as int)) by {
        assert forall|k: int| 0 <= k < b.len() implies 0 <= #[trigger] b[k] < pts.len() by {
            assert(0 <= r[place(k, j, n)] < pts.len());
        }
    }
    assert(different_vertices(pts, b)) by {
        assert forall|x: int, y: int| 0 <= x < b.len() && 0 <= y < b.len() && x != y implies pts[
            #[trigger] b[x]
        ].i != pts[#[trigger] b[y]].i by {
            assert(pts[r[place(x, j, n)]].i != pts[r[place(y, j, n)]].i);
        }
    }
    lemma_seen_left_handed(p, j);
    assert(no_three_in_line(q)) by {
        assert forall|x: int, y: int, z: int|
            0 <= x < q.len() && 0 <= y < q.len() && 0 <= z < q.len() && x != y && y != z && x
                != z implies #[trigger] tri(q[x], q[y], q[z]) != 0 by {
            lemma_seen_at(p, j, x);
            lemma_seen_at(p, j, y);
            lemma_seen_at(p, j, z);
            assert(tri(p[place(x, j, n)], p[place(y, j, n)], p[place(z, j, n)]) != 0);
        }
    }
    lemma_valid_diagonal(pts, r, j);
    lemma_valid_diagonal(pts, b, n - j);
    lemma_inner_seen(p, j, 0, n - j);
    assert(place(0, j, n) == j && place(n - j, j, n) == 0);
    lemma_inner_swapped(p, 0, j);
}

} // verus!
