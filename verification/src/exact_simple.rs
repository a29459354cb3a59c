//! Simple polygons with integer coordinates: they are sliced completely, without deviation.
use vstd::prelude::*;
use crate::areas::{abs, by_area, cross, lemma_by_area, placed, ring_area, spot, tri, tris_area};
use crate::bounds::in_table;
use crate::deviation::deviation_spec;
use crate::exact::{fits, whole, Exact};
use crate::exact_areas::{
    integer, integral, lemma_bounded, lemma_corner_area, lemma_integral, lemma_loop,
    lemma_no_deviation, lemma_vertex_coordinates, lemma_whole, LIMIT, STEP,
};
use crate::exact_polygons::{
    all_inside, integral_box, lemma_exact_picks, lemma_extent, lemma_integral_on_grid,
    lemma_outer_drawn, vertex_xy,
};
use crate::fresh_index::{moderate_node, moderate_table};
use crate::geometry::{hashed, point_in_triangle_spec, signed_area_spec, zero, Grid};
use crate::hashing::{lemma_same_slices, lemma_table_on_grid};
use crate::hole_model::{hole_end, in_order, queued, vertex_at, wound};
use crate::lists::stretch;
use crate::meeting::moderate;
use crate::model::{area, coincide, sliced, Pt};
use crate::polygon_areas::{
    corners, drawn, exact_data, lemma_listed_sum, lemma_stretch_forward, lemma_triangulation_area,
    loop_area, net_sum, sign_found, sliced_completely, vertex_area, walk_sum,
};
use crate::rings::lemma_listed_ring;
use crate::scalar::Scalar;
use crate::segments::{affine, lemma_differences, lemma_in_box, lemma_signs};
use crate::simple::{
    left_handed, lemma_reversed_simple, lemma_seen_at, lemma_seen_simple, seen_at, simple,
};
use crate::simple_polygons::{
    found_inside, lemma_handed, lemma_left_handed_area, lemma_simple_sliced, places_found, spots,
};
use crate::tiling::{
    by_winding, layers, lemma_reversed_winding, lemma_sliced_layers, lemma_triangulation_layers,
    lemma_turned_winding, off_sides,
};
use crate::triangulation::{
    ear_grid, extent, is_flat, outer_count, outer_ring, single_ring, triangulation,
};
use crate::winding::{inside, winding};
use crate::zooming::{
    lemma_zoom_left_handed, lemma_zoom_seen, lemma_zoom_tri, lemma_zoom_under, zoom, zoomed,
};

verus! {

/// The lesser and the greater of two integers.
pub(crate) proof fn lemma_picked(a: int, b: int)
    requires
        fits(a),
        fits(b),
    ensures
        whole(a).lower_spec(whole(b)) == whole(
            if b < a {
                b
            } else {
                a
            },
        ),
        whole(a).upper_spec(whole(b)) == whole(
            if a < b {
                b
            } else {
                a
            },
        ),
        whole(a).at_most_spec(whole(b)) <==> a <= b,
{
    lemma_whole(a, b);
    lemma_whole(b, a);
}

/// Two products of differences are compared exactly.
proof fn lemma_products(a: int, b: int, c: int, d: int, x: int, y: int)
    requires
        -LIMIT <= a <= LIMIT,
        -LIMIT <= b <= LIMIT,
        -LIMIT <= c <= LIMIT,
        -LIMIT <= d <= LIMIT,
        -LIMIT <= x <= LIMIT,
        -LIMIT <= y <= LIMIT,
    ensures
        whole(a).minus_spec(whole(x)).times_spec(whole(d).minus_spec(whole(y))).at_most_spec(
            whole(c).minus_spec(whole(x)).times_spec(whole(b).minus_spec(whole(y))),
        ) <==> (a - x) * (d - y) <= (c - x) * (b - y),
{
    let m = 2 * LIMIT;
    lemma_whole(a, x);
    lemma_whole(d, y);
    lemma_whole(c, x);
    lemma_whole(b, y);
    lemma_bounded(a - x, d - y, m, m);
    lemma_bounded(c - x, b - y, m, m);
    assert(m * m <= STEP) by (nonlinear_arith)
        requires
            m == 0x8000_0000,
    ;
    lemma_whole(a - x, d - y);
    lemma_whole(c - x, b - y);
    lemma_picked((a - x) * (d - y), (c - x) * (b - y));
}

/// The area of a triangle, seen from a point.
proof fn lemma_tri_seen(p: (int, int), q: (int, int), r: (int, int))
    ensures
        tri(p, q, r) == (p.0 - r.0) * (q.1 - r.1) - (q.0 - r.0) * (p.1 - r.1),
{
    lemma_differences(p.0, r.0, q.1, r.1);
    lemma_differences(q.0, r.0, p.1, r.1);
}

/// Whether an integer point lies in a triangle is found exactly.
pub(crate) proof fn lemma_inside_found(a: (int, int), b: (int, int), c: (int, int), p: (int, int))
    requires
        moderate(a),
        moderate(b),
        moderate(c),
        moderate(p),
    ensures
        point_in_triangle_spec(
            whole(a.0),
            whole(a.1),
            whole(b.0),
            whole(b.1),
            whole(c.0),
            whole(c.1),
            whole(p.0),
            whole(p.1),
        ) <==> inside(a, b, c, p),
{
    lemma_products(a.0, a.1, c.0, c.1, p.0, p.1);
    lemma_products(b.0, b.1, a.0, a.1, p.0, p.1);
    lemma_products(c.0, c.1, b.0, b.1, p.0, p.1);
    lemma_tri_seen(c, a, p);
    lemma_tri_seen(a, b, p);
    lemma_tri_seen(b, c, p);
}

/// The points of a polygon with integer coordinates are found where they are.
proof fn lemma_places_found(data: Seq<Exact>, dim: int, pts: Seq<Pt<Exact>>)
    requires
        integral(data),
        dim >= 2,
        drawn(pts, data, dim),
    ensures
        places_found(integer(), pts),
{
    assert forall|h: int| 0 <= h < pts.len() implies moderate_node(#[trigger] pts[h]) by {
        lemma_vertex_coordinates(data, dim, pts[h].i as int);
    }
    lemma_moderate_places(pts);
}

/// Nodes with integer coordinates of moderate size are found where they are.
pub(crate) proof fn lemma_moderate_places(pts: Seq<Pt<Exact>>)
    requires
        moderate_table(pts),
    ensures
        places_found(integer(), pts),
{
    let val = integer();
    assert forall|h: int| 0 <= h < pts.len() implies (#[trigger] pts[h]).x == whole(
        spot(val, pts, h).0,
    ) && pts[h].y == whole(spot(val, pts, h).1) && moderate(spot(val, pts, h)) by {
        assert(moderate_node(pts[h]));
    }
    assert forall|p: int, q: int, r: int|
        0 <= p < pts.len() && 0 <= q < pts.len() && 0 <= r < pts.len() implies ((#[trigger] area(
        pts,
        p,
        q,
        r,
    )).less_spec(zero::<Exact>()) <==> tri(spot(val, pts, p), spot(val, pts, q), spot(val, pts, r))
        > 0) && (zero::<Exact>().at_most_spec(area(pts, p, q, r)) <==> tri(
        spot(val, pts, p),
        spot(val, pts, q),
        spot(val, pts, r),
    ) <= 0) by {
        let (a, b, c) = (spot(val, pts, p), spot(val, pts, q), spot(val, pts, r));
        assert(pts[p].x == whole(a.0) && pts[q].x == whole(b.0) && pts[r].x == whole(c.0));
        lemma_corner_area(a.0, a.1, b.0, b.1, c.0, c.1);
        let t = tri(a, b, c);
        lemma_whole(-t, 0);
        lemma_whole(0, -t);
    }
    assert forall|f: int, g: int, h: int, k: int|
        0 <= f < pts.len() && 0 <= g < pts.len() && 0 <= h < pts.len() && 0 <= k < pts.len() && tri(
            spot(val, pts, f),
            spot(val, pts, g),
            spot(val, pts, h),
        ) > 0 implies (#[trigger] found_inside(pts, f, g, h, k) <==> inside(
        spot(val, pts, f),
        spot(val, pts, g),
        spot(val, pts, h),
        spot(val, pts, k),
    ) && spot(val, pts, f) != spot(val, pts, k)) by {
        let (a, b, c, p) = (
            spot(val, pts, f),
            spot(val, pts, g),
            spot(val, pts, h),
            spot(val, pts, k),
        );
        assert(pts[f].x == whole(a.0) && pts[g].x == whole(b.0) && pts[h].x == whole(c.0));
        assert(pts[k].x == whole(p.0));
        lemma_inside_found(a, b, c, p);
        lemma_boxed(a.0, b.0, c.0, p.0);
        lemma_boxed(a.1, b.1, c.1, p.1);
        lemma_whole(a.0, p.0);
        lemma_whole(a.1, p.1);
        if inside(a, b, c, p) {
            let (x, y) = ((0int, 1int, 0int), (0int, 0int, 1int));
            lemma_in_box(x, a, b, c, p);
            lemma_in_box(y, a, b, c, p);
            assert(affine(x, a) == a.0 && affine(x, b) == b.0 && affine(x, c) == c.0 && affine(x, p)
                == p.0) by (nonlinear_arith)
                requires
                    x == (0int, 1int, 0int),
            ;
            assert(affine(y, a) == a.1 && affine(y, b) == b.1 && affine(y, c) == c.1 && affine(y, p)
                == p.1) by (nonlinear_arith)
                requires
                    y == (0int, 0int, 1int),
            ;
        }
    }
}

/// Whether a number is between the least and the greatest of three is found exactly.
pub(crate) proof fn lemma_boxed(a: int, b: int, c: int, p: int)
    requires
        -LIMIT <= a <= LIMIT,
        -LIMIT <= b <= LIMIT,
        -LIMIT <= c <= LIMIT,
        -LIMIT <= p <= LIMIT,
    ensures
        whole(a).lower_spec(whole(b)).lower_spec(whole(c)).at_most_spec(whole(p)) && whole(
            p,
        ).at_most_spec(whole(a).upper_spec(whole(b)).upper_spec(whole(c))) <==> !(p < a && p < b && p
            < c) && !(p > a && p > b && p > c),
{
    let l = if b < a {
        b
    } else {
        a
    };
    let u = if a < b {
        b
    } else {
        a
    };
    lemma_picked(a, b);
    lemma_picked(l, c);
    lemma_picked(u, c);
    lemma_picked(
        if c < l {
            c
        } else {
            l
        },
        p,
    );
    lemma_picked(
        p,
        if u < c {
            c
        } else {
            u
        },
    );
}

/// The number of corners of a polygon without holes: that of its vertices, less one if the last
/// repeats the first.
pub open spec fn corner_count(data: Seq<Exact>, dim: int) -> int {
    let count = data.len() as int / dim;
    let at = corners(integer(), data, dim);
    if count >= 2 && at(count - 1) == at(0) {
        count - 1
    } else {
        count
    }
}

/// The corners of a polygon without holes.
pub open spec fn corner_ring(data: Seq<Exact>, dim: int) -> Seq<(int, int)> {
    Seq::new(corner_count(data, dim) as nat, |v: int| corners(integer(), data, dim)(v))
}

/// All vertices lie in the box around all of them.
pub(crate) proof fn lemma_extent_covers(data: Seq<Exact>, dim: int, k: int, v: int)
    requires
        integral(data),
        dim >= 2,
        0 <= v < k <= data.len() as int / dim,
    ensures
        ({
            let b = extent(data, dim, k);
            &&& integral_box(b)
            &&& b.min_x.at_most_spec(vertex_xy(data, dim, v).0)
            &&& vertex_xy(data, dim, v).0.at_most_spec(b.max_x)
            &&& b.min_y.at_most_spec(vertex_xy(data, dim, v).1)
            &&& vertex_xy(data, dim, v).1.at_most_spec(b.max_y)
        }),
    decreases k,
{
    let at = corners(integer(), data, dim);
    lemma_vertex_coordinates(data, dim, v);
    lemma_extent(data, dim, k);
    let b = extent(data, dim, k);
    let (x, y) = at(v);
    let (x0, y0) = (b.min_x.num as int, b.min_y.num as int);
    let (x1, y1) = (b.max_x.num as int, b.max_y.num as int);
    lemma_picked(x0, x);
    lemma_picked(x, x1);
    lemma_picked(y0, y);
    lemma_picked(y, y1);
    assert(0 * dim == 0) by (nonlinear_arith);
    if k > 1 {
        lemma_extent(data, dim, k - 1);
        let d = extent(data, dim, k - 1);
        let (l0, m0) = (d.min_x.num as int, d.min_y.num as int);
        let (l1, m1) = (d.max_x.num as int, d.max_y.num as int);
        lemma_vertex_coordinates(data, dim, k - 1);
        let (s, t) = at(k - 1);
        lemma_whole(s, l0);
        lemma_whole(l1, s);
        lemma_whole(t, m0);
        lemma_whole(m1, t);
        if v < k - 1 {
            lemma_extent_covers(data, dim, k - 1, v);
            lemma_picked(l0, x);
            lemma_picked(x, l1);
            lemma_picked(m0, y);
            lemma_picked(y, m1);
        }
    }
}

/// The corners of the outer ring of a polygon: its vertices, but for the last if that repeats the
/// first.
pub open spec fn outer_corners(data: Seq<Exact>, holes: Seq<usize>, dim: int) -> Seq<(int, int)> {
    let n = outer_count(holes, data.len() as int / dim);
    let at = corners(integer(), data, dim);
    Seq::new(
        (if n >= 2 && at(n - 1) == at(0) {
            n - 1
        } else {
            n
        }) as nat,
        |v: int| at(v),
    )
}

/// The ring that is read from the data of a simple outer ring is simple, and runs
/// counterclockwise.
#[verifier::spinoff_prover]
#[verifier::rlimit(40)]
pub(crate) proof fn lemma_outer_read(data: Seq<Exact>, holes: Seq<usize>, dim: int)
    requires
        is_flat(data, holes, dim),
        integral(data),
        simple(outer_corners(data, holes, dim)),
    ensures
        ({
            let l = outer_ring(data, holes, dim);
            let p = spots(integer(), l.pts, l.ring);
            let q = outer_corners(data, holes, dim);
            let m = q.len() as int;
            &&& drawn(l.pts, data, dim)
            &&& l.ring.len() == m
            &&& left_handed(p)
            &&& p == q || p == seen_at(q, m - 1) || p == seen_at(q.reverse(), m - 1)
        }),
{
    let val = integer();
    let count = outer_count(holes, data.len() as int / dim);
    let at = corners(val, data, dim);
    let none = Seq::<Pt<Exact>>::empty();
    let l = outer_ring(data, holes, dim);
    let q = outer_corners(data, holes, dim);
    let m = q.len() as int;
    let more = wound(data, dim, 0, count, true);
    let forward = zero::<Exact>().less_spec(signed_area_spec(data, 0 * dim, count * dim, dim));
    assert(holes.len() > 0 ==> holes[0] <= data.len() as int / dim);
    lemma_outer_drawn(data, holes, dim);
    lemma_integral(data, holes, dim);
    assert(sign_found(val, data, dim, 0, count));
    lemma_by_area();
    lemma_listed_sum(by_area(), val, none, data, holes, dim, 0, count, true);
    assert(l.pts =~= more);
    assert forall|h: int| 0 <= h < count implies #[trigger] spot(val, l.pts, h) == at(
        if forward {
            h
        } else {
            count - 1 - h
        },
    ) by {
        assert(l.pts[h] == more[h]);
    }
    assert(coincide(l.pts, count - 1, 0) == (at(count - 1) == at(0))) by {
        lemma_vertex_coordinates(data, dim, 0);
        lemma_vertex_coordinates(data, dim, count - 1);
        assert(l.pts[0] == more[0] && l.pts[count - 1] == more[count - 1]);
        let (a, b) = (at(0), at(count - 1));
        lemma_whole(a.0, b.0);
        lemma_whole(a.1, b.1);
        lemma_whole(b.0, a.0);
        lemma_whole(b.1, a.1);
    }
    let r = l.ring;
    let p = spots(val, l.pts, r);
    assert(r.len() == m);
    if forward {
        if m == count {
            assert forall|k: int| 0 <= k < m implies #[trigger] p[k] == seen_at(q, m - 1)[k] by {
                lemma_seen_at(q, m - 1, k);
            }
            assert(p =~= seen_at(q, m - 1));
            lemma_seen_simple(q, m - 1);
        } else {
            assert(p =~= q);
        }
    } else {
        let b = q.reverse();
        lemma_reversed_simple(q);
        assert forall|k: int| 0 <= k < m implies #[trigger] p[k] == seen_at(b, m - 1)[k] by {
            lemma_seen_at(b, m - 1, k);
        }
        assert(p =~= seen_at(b, m - 1));
        lemma_seen_simple(b, m - 1);
    }
    lemma_handed(val, l.pts, r);
}

/// The ring that is read from the data of a simple polygon is simple, and runs counterclockwise.
pub(crate) proof fn lemma_ring_read(data: Seq<Exact>, dim: int)
    requires
        is_flat(data, Seq::empty(), dim),
        integral(data),
        simple(corner_ring(data, dim)),
    ensures
        ({
            let l = outer_ring(data, Seq::empty(), dim);
            let m = corner_count(data, dim);
            let p = spots(integer(), l.pts, l.ring);
            let q = corner_ring(data, dim);
            &&& drawn(l.pts, data, dim)
            &&& l.ring.len() == m
            &&& left_handed(p)
            &&& p == q || p == seen_at(q, m - 1) || p == seen_at(q.reverse(), m - 1)
        }),
{
    assert(outer_corners(data, Seq::empty(), dim) =~= corner_ring(data, dim));
    lemma_outer_read(data, Seq::empty(), dim);
}

/// The points are where the vertices are.
proof fn lemma_placed(data: Seq<Exact>, dim: int, pts: Seq<Pt<Exact>>)
    requires
        drawn(pts, data, dim),
    ensures
        placed(integer(), corners(integer(), data, dim), pts),
{
}

/// A simple polygon is sliced as if there were no grid.
pub(crate) proof fn lemma_sliced_plainly(data: Seq<Exact>, dim: int) -> (plain: Grid<Exact>)
    requires
        is_flat(data, Seq::empty(), dim),
        integral(data),
        simple(corner_ring(data, dim)),
    ensures
        !hashed(plain),
        ({
            let l = outer_ring(data, Seq::empty(), dim);
            let g = ear_grid(data, dim, data.len() as int / dim);
            &&& places_found(integer(), l.pts)
            &&& placed(integer(), corners(integer(), data, dim), l.pts)
            &&& in_table(l.ring, l.pts.len() as int)
            &&& sliced(l.pts, l.ring, g) == sliced(l.pts, l.ring, plain)
            &&& triangulation(data, Seq::empty(), dim) == sliced(l.pts, l.ring, plain).tris
        }),
{
    let holes = Seq::<usize>::empty();
    let val = integer();
    let count = data.len() as int / dim;
    let l = outer_ring(data, holes, dim);
    let g = ear_grid(data, dim, count);
    let plain = if hashed(g) {
        Grid { inv_size: zero::<Exact>(), ..g }
    } else {
        g
    };
    lemma_whole(0, 0);
    lemma_ring_read(data, dim);
    lemma_outer_drawn(data, holes, dim);
    lemma_places_found(data, dim, l.pts);
    lemma_placed(data, dim, l.pts);
    if hashed(g) {
        assert(all_inside(data, dim, count)) by {
            assert forall|v: int| 0 <= v < count implies {
                let b = extent(data, dim, count);
                &&& b.min_x.at_most_spec((#[trigger] vertex_xy(data, dim, v)).0)
                &&& vertex_xy(data, dim, v).0.at_most_spec(b.max_x)
                &&& b.min_y.at_most_spec(vertex_xy(data, dim, v).1)
                &&& vertex_xy(data, dim, v).1.at_most_spec(b.max_y)
            } by {
                lemma_extent_covers(data, dim, count, v);
            }
        }
        lemma_integral_on_grid(data, holes, dim, l.pts);
        lemma_exact_picks();
        lemma_listed_ring(Seq::<Pt<Exact>>::empty(), data, dim, 0, count, true);
        lemma_table_on_grid(l.pts, l.ring, g);
        lemma_same_slices(l.pts, l.ring, g, plain);
    }
    plain
}

/// A simple polygon with integer coordinates of moderate size is sliced completely: `n` corners
/// give `n - 2` triangles, without deviation.
pub proof fn lemma_simple_polygon(data: Seq<Exact>, dim: int)
    requires
        is_flat(data, Seq::empty(), dim),
        integral(data),
        simple(corner_ring(data, dim)),
    ensures
        sliced_completely(data, Seq::empty(), dim),
        triangulation(data, Seq::empty(), dim).len() == 3 * (corner_count(data, dim) - 2),
        deviation_spec(
            data,
            Seq::empty(),
            dim,
            triangulation(data, Seq::empty(), dim),
        ).same_spec(zero::<Exact>()),
{
    let holes = Seq::<usize>::empty();
    let val = integer();
    let count = data.len() as int / dim;
    let l = outer_ring(data, holes, dim);
    let g = ear_grid(data, dim, count);
    lemma_ring_read(data, dim);
    let plain = lemma_sliced_plainly(data, dim);
    lemma_simple_sliced(val, l.pts, l.ring, plain);
    let w = single_ring(data, holes, dim);
    assert(w == l);
    assert(sliced_completely(data, holes, dim)) by {
        let q = queued(l.pts, data, dim, holes, 0);
        assert(in_order(q.pts, q.holes).len() == 0);
    }
    lemma_no_deviation(data, holes, dim);
}

/// The vertices from `from` to `to`, as a ring.
pub open spec fn vertex_ring(data: Seq<Exact>, dim: int, from: int, to: int) -> Seq<(int, int)> {
    Seq::new((to - from) as nat, |k: int| corners(integer(), data, dim)(from + k))
}

/// The signed area of a simple ring with integer coordinates of moderate size is not zero, and is
/// positive exactly if the ring runs counterclockwise.
pub proof fn lemma_area_sign(data: Seq<Exact>, dim: int, from: int, to: int)
    requires
        integral(data),
        dim >= 2,
        0 <= from < to <= data.len() as int / dim,
        simple(vertex_ring(data, dim, from, to)),
    ensures
        ({
            let a = signed_area_spec(data, from * dim, to * dim, dim);
            &&& zero::<Exact>().less_spec(a) <==> left_handed(vertex_ring(data, dim, from, to))
            &&& a.less_spec(zero::<Exact>()) <==> !left_handed(vertex_ring(data, dim, from, to))
        }),
{
    let val = integer();
    let at = corners(val, data, dim);
    let n = to - from;
    let pts = Seq::new(n as nat, |k: int| vertex_at(data, dim, from + k));
    let r = stretch(0, n);
    let p = vertex_ring(data, dim, from, to);
    assert(spots(val, pts, r) =~= p);
    assert forall|j: int| 0 <= j < n implies #[trigger] spot(val, pts, 0 + j) == at(from + j) by {}
    lemma_stretch_forward(by_area(), val, at, pts, 0, from, n);
    assert(spot(val, pts, 0 + (n - 1)) == at(from + (n - 1)) && spot(val, pts, 0) == at(from));
    let a = loop_area(at, from, to);
    assert(ring_area(val, pts, r) == a);
    lemma_loop(data, dim, from, to);
    lemma_whole(0, a);
    lemma_whole(a, 0);
    if a >= 0 {
        lemma_handed(val, pts, r);
    }
    if left_handed(p) {
        lemma_left_handed_area(val, pts, r);
    }
}

/// The signed area of a simple polygon with integer coordinates of moderate size is, but for its
/// sign, the doubled area of its triangles, which cover it and do not overlap.
pub proof fn lemma_twice_area(data: Seq<Exact>, dim: int)
    requires
        is_flat(data, Seq::empty(), dim),
        integral(data),
        simple(corner_ring(data, dim)),
    ensures
        signed_area_spec(data, 0, (data.len() as int / dim) * dim, dim).magnitude_spec() == whole(
            tris_area(
                corners(integer(), data, dim),
                triangulation(data, Seq::empty(), dim),
            ),
        ),
{
    let holes = Seq::<usize>::empty();
    let count = data.len() as int / dim;
    lemma_simple_polygon(data, dim);
    lemma_integral(data, holes, dim);
    lemma_triangulation_area(integer(), data, holes, dim);
    vstd::arithmetic::div_mod::lemma_div_pos_is_pos(data.len() as int, dim);
    lemma_loop(data, dim, 0, count);
    assert(0 * dim == 0) by (nonlinear_arith);
    lemma_whole(loop_area(corners(integer(), data, dim), 0, count), 0);
}

/// The ring that is read from the data runs around a point as the corners do, or the other way.
proof fn lemma_winding_read(data: Seq<Exact>, dim: int, k: int, q: (int, int))
    requires
        is_flat(data, Seq::empty(), dim),
        integral(data),
        simple(corner_ring(data, dim)),
    ensures
        ({
            let l = outer_ring(data, Seq::empty(), dim);
            let w = winding(zoomed(spots(integer(), l.pts, l.ring), k), q);
            let c = winding(zoomed(corner_ring(data, dim), k), q);
            w == c || w == -c
        }),
{
    let l = outer_ring(data, Seq::empty(), dim);
    let m = corner_count(data, dim);
    let c = corner_ring(data, dim);
    let p = spots(integer(), l.pts, l.ring);
    let z = zoomed(c, k);
    lemma_ring_read(data, dim);
    lemma_zoom_seen(c, k, m - 1);
    lemma_zoom_seen(c.reverse(), k, m - 1);
    if p == seen_at(c, m - 1) {
        lemma_turned_winding(z, q, m - 1);
    } else if p != c {
        lemma_turned_winding(z.reverse(), q, m - 1);
        lemma_reversed_winding(z, q);
    }
}

/// The integer that a value without a fraction stands for, magnified `k` times.
pub open spec fn finer(k: int) -> spec_fn(Exact) -> int {
    |c: Exact| k * c.num
}

/// Where points are is found, magnified, if it is found.
proof fn lemma_finer_found(pts: Seq<Pt<Exact>>, k: int)
    requires
        k > 0,
        places_found(integer(), pts),
    ensures
        places_found(finer(k), pts),
{
    let (val, fine) = (integer(), finer(k));
    assert forall|h: int| 0 <= h < pts.len() implies #[trigger] spot(fine, pts, h) == zoom(
        spot(val, pts, h),
        k,
    ) by {}
    assert forall|p: int, q: int, r: int|
        0 <= p < pts.len() && 0 <= q < pts.len() && 0 <= r < pts.len() implies ((#[trigger] area(
        pts,
        p,
        q,
        r,
    )).less_spec(zero::<Exact>()) <==> tri(
        spot(fine, pts, p),
        spot(fine, pts, q),
        spot(fine, pts, r),
    ) > 0) && (zero::<Exact>().at_most_spec(area(pts, p, q, r)) <==> tri(
        spot(fine, pts, p),
        spot(fine, pts, q),
        spot(fine, pts, r),
    ) <= 0) by {
        lemma_zoom_tri(k, spot(val, pts, p), spot(val, pts, q), spot(val, pts, r));
    }
    assert forall|a: int, b: int, c: int, p: int|
        0 <= a < pts.len() && 0 <= b < pts.len() && 0 <= c < pts.len() && 0 <= p < pts.len() && tri(
            spot(fine, pts, a),
            spot(fine, pts, b),
            spot(fine, pts, c),
        ) > 0 implies (#[trigger] found_inside(pts, a, b, c, p) <==> inside(
        spot(fine, pts, a),
        spot(fine, pts, b),
        spot(fine, pts, c),
        spot(fine, pts, p),
    ) && spot(fine, pts, a) != spot(fine, pts, p)) by {
        let (x, y, z, w) = (
            spot(val, pts, a),
            spot(val, pts, b),
            spot(val, pts, c),
            spot(val, pts, p),
        );
        lemma_zoom_tri(k, x, y, z);
        lemma_zoom_tri(k, x, y, w);
        lemma_zoom_tri(k, y, z, w);
        lemma_zoom_tri(k, z, x, w);
        lemma_zoom_under(k, x, w);
    }
}

/// The triangles of a simple polygon with integer coordinates of moderate size cover it and do not
/// overlap: a point on none of their sides lies in one of them if the corners run around it, and
/// in none if not. The point is `q / k`: the polygon is magnified `k` times to compare it with `q`.
#[verifier::spinoff_prover]
pub proof fn lemma_simple_tiling(data: Seq<Exact>, dim: int, k: int, q: (int, int))
    requires
        is_flat(data, Seq::empty(), dim),
        integral(data),
        simple(corner_ring(data, dim)),
        k > 0,
        off_sides(corners(finer(k), data, dim), triangulation(data, Seq::empty(), dim), q),
    ensures
        layers(corners(finer(k), data, dim), triangulation(data, Seq::empty(), dim), q) == abs(
            winding(zoomed(corner_ring(data, dim), k), q),
        ),
        abs(winding(zoomed(corner_ring(data, dim), k), q)) <= 1,
{
    let l = outer_ring(data, Seq::empty(), dim);
    let fine = finer(k);
    let at = corners(fine, data, dim);
    lemma_ring_read(data, dim);
    let plain = lemma_sliced_plainly(data, dim);
    let p = spots(integer(), l.pts, l.ring);
    assert(spots(fine, l.pts, l.ring) =~= zoomed(p, k));
    lemma_zoom_left_handed(p, k);
    lemma_finer_found(l.pts, k);
    assert(placed(fine, at, l.pts)) by {
        assert forall|h: int| 0 <= h < l.pts.len() implies at((#[trigger] l.pts[h]).i as int)
            == spot(fine, l.pts, h) by {}
    }
    lemma_sliced_layers(fine, at, l.pts, l.ring, plain, q);
    lemma_winding_read(data, dim, k, q);
}

/// Around the ring of vertices, magnified.
proof fn lemma_finer_walk(data: Seq<Exact>, dim: int, k: int, from: int, to: int)
    ensures
        walk_sum(by_area(), corners(finer(k), data, dim), from, to) == (k * k) * walk_sum(
            by_area(),
            corners(integer(), data, dim),
            from,
            to,
        ),
    decreases to - from,
{
    let (at, bt) = (corners(integer(), data, dim), corners(finer(k), data, dim));
    if to > from + 1 {
        lemma_finer_walk(data, dim, k, from, to - 1);
        lemma_finer_cross(k, at(to - 2), at(to - 1));
        assert(bt(to - 2) == zoom(at(to - 2), k) && bt(to - 1) == zoom(at(to - 1), k));
        let (m, x, y) = (
            k * k,
            walk_sum(by_area(), at, from, to - 1),
            cross(at(to - 2), at(to - 1)),
        );
        assert(m * (x + y) == m * x + m * y) by (nonlinear_arith);
    } else {
        assert((k * k) * 0 == 0);
    }
}

/// The cross product of magnified vectors.
proof fn lemma_finer_cross(k: int, a: (int, int), b: (int, int))
    ensures
        cross(zoom(a, k), zoom(b, k)) == (k * k) * cross(a, b),
{
    assert((k * a.0) * (k * b.1) == (k * k) * (a.0 * b.1)) by (nonlinear_arith);
    assert((k * b.0) * (k * a.1) == (k * k) * (b.0 * a.1)) by (nonlinear_arith);
    let (m, x, y) = (k * k, a.0 * b.1, b.0 * a.1);
    assert(m * (x - y) == m * x - m * y) by (nonlinear_arith);
}

/// The sign of an area is found, magnified, if it is found.
pub(crate) proof fn lemma_finer_sign(data: Seq<Exact>, dim: int, k: int, from: int, to: int)
    requires
        k > 0,
        sign_found(integer(), data, dim, from, to),
    ensures
        sign_found(finer(k), data, dim, from, to),
{
    let (at, bt) = (corners(integer(), data, dim), corners(finer(k), data, dim));
    if from < to {
        lemma_finer_walk(data, dim, k, from, to);
        lemma_finer_cross(k, at(to - 1), at(from));
        assert(bt(to - 1) == zoom(at(to - 1), k) && bt(from) == zoom(at(from), k));
        let (m, x, y) = (
            k * k,
            walk_sum(by_area(), at, from, to),
            cross(at(to - 1), at(from)),
        );
        assert(m * (x + y) == m * x + m * y) by (nonlinear_arith);
        lemma_zoom_tri(k, at(from), at(from), at(from));
        lemma_signs(m, x + y);
    }
}

/// Integers of moderate size are computed with exactly, whatever they are magnified by.
pub proof fn lemma_finer_exact(data: Seq<Exact>, holes: Seq<usize>, dim: int, k: int)
    requires
        is_flat(data, holes, dim),
        integral(data),
        k > 0,
    ensures
        exact_data(finer(k), data, holes, dim),
{
    let count = data.len() as int / dim;
    let (at, bt) = (corners(integer(), data, dim), corners(finer(k), data, dim));
    lemma_integral(data, holes, dim);
    assert forall|u: int, v: int, w: int|
        0 <= u < count && 0 <= v < count && 0 <= w < count implies ((#[trigger] vertex_area(
        data,
        dim,
        u,
        v,
        w,
    )).less_spec(zero::<Exact>()) ==> tri(bt(u), bt(v), bt(w)) > 0) && (vertex_area(
        data,
        dim,
        u,
        v,
        w,
    ).same_spec(zero::<Exact>()) ==> tri(bt(u), bt(v), bt(w)) == 0) by {
        lemma_zoom_tri(k, at(u), at(v), at(w));
        assert(bt(u) == zoom(at(u), k) && bt(v) == zoom(at(v), k) && bt(w) == zoom(at(w), k));
    }
    lemma_finer_sign(data, dim, k, 0, outer_count(holes, count));
    assert forall|i: int| 0 <= i < holes.len() implies #[trigger] sign_found(
        finer(k),
        data,
        dim,
        holes[i] as int,
        hole_end(holes, count, i),
    ) by {
        assert(sign_found(integer(), data, dim, holes[i] as int, hole_end(holes, count, i)));
        lemma_finer_sign(data, dim, k, holes[i] as int, hole_end(holes, count, i));
    }
}

/// The triangles of a polygon with integer coordinates of moderate size that is sliced completely
/// cover it and leave its holes out: a point on none of their sides lies in as many of them as the
/// outer ring runs around it, less the holes. The point is `q / k`: the polygon is magnified `k`
/// times to compare it with `q`.
pub proof fn lemma_integral_tiling(
    data: Seq<Exact>,
    holes: Seq<usize>,
    dim: int,
    k: int,
    q: (int, int),
)
    requires
        is_flat(data, holes, dim),
        integral(data),
        sliced_completely(data, holes, dim),
        k > 0,
        off_sides(corners(finer(k), data, dim), triangulation(data, holes, dim), q),
    ensures
        layers(corners(finer(k), data, dim), triangulation(data, holes, dim), q) == net_sum(
            by_winding(q),
            corners(finer(k), data, dim),
            holes,
            data.len() as int / dim,
            holes.len() as int,
        ),
{
    lemma_finer_exact(data, holes, dim, k);
    lemma_triangulation_layers(finer(k), data, holes, dim, q);
}

} // verus!
