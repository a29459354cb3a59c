//! Convex polygons: which triangles they are sliced into, and in what order.
use vstd::prelude::*;
use crate::areas::{by_area, lemma_cross, spot, tri};
use crate::bounds::{in_table, lemma_listed};
use crate::exact::{whole, Exact};
use crate::exact_areas::{
    convex_vertices, integer, integral, lemma_convex_area, lemma_corner_area, lemma_loop,
    lemma_tri_reversed, lemma_vertex_coordinates, lemma_whole,
};
use crate::geometry::{hashed, zero, Grid};
use crate::hole_model::wound;
use crate::laws::{convex, lemma_convex_ear, lemma_tri_turned, turns_found};
use crate::model::{area, clipped, coincide, sliced, triangle, z_ranked, Pt};
use crate::polygon_areas::{corners, loop_area, walk_sum};
use crate::scalar::Scalar;
use crate::triangulation::{ear_grid, is_flat, outer_ring, triangulation};

verus! {

/// The triangle number `k` is that of the nodes at the places `k` and `k + 1` of the ring and of
/// its last node.
spec fn fan_at<C>(pts: Seq<Pt<C>>, r: Seq<int>, tris: Seq<usize>, k: int) -> bool {
    tris[3 * k] == pts[r.last()].i && tris[3 * k + 1] == pts[r[k]].i && tris[3 * k + 2] == pts[r[k
        + 1]].i
}

/// The triangles are those of a fan of the ring from its last node, in the order of the ring.
spec fn fanned<C>(pts: Seq<Pt<C>>, r: Seq<int>, tris: Seq<usize>) -> bool {
    &&& tris.len() == 3 * (r.len() - 2)
    &&& forall|k: int| 0 <= k < r.len() - 2 ==> #[trigger] fan_at(pts, r, tris, k)
}

/// A triangle at the first node makes a fan longer.
proof fn lemma_fan_longer<C>(pts: Seq<Pt<C>>, r: Seq<int>, rest: Seq<usize>)
    requires
        r.len() > 2,
        fanned(pts, r.drop_first(), rest),
    ensures
        fanned(pts, r, triangle(pts, r.last(), r[0], r[1]) + rest),
{
    let d = r.drop_first();
    let t = triangle(pts, r.last(), r[0], r[1]) + rest;
    assert forall|k: int| 0 <= k < r.len() - 2 implies #[trigger] fan_at(pts, r, t, k) by {
        if k > 0 {
            assert(fan_at(pts, d, rest, k - 1));
            assert(d[k - 1] == r[k] && d[k] == r[k + 1] && d.last() == r.last());
            assert(t[3 * k] == rest[3 * (k - 1)]);
            assert(t[3 * k + 1] == rest[3 * (k - 1) + 1]);
            assert(t[3 * k + 2] == rest[3 * (k - 1) + 2]);
        }
    }
}

/// What is left of a convex ring is sliced into a fan.
proof fn lemma_fan_clipped<C: Scalar>(
    val: spec_fn(C) -> int,
    pts: Seq<Pt<C>>,
    r: Seq<int>,
    ord: Seq<int>,
    g: Grid<C>,
)
    requires
        turns_found(val, pts),
        in_table(r, pts.len() as int),
        convex(val, pts, r),
        r.len() >= 2,
    ensures
        fanned(pts, r, clipped(pts, r, ord, 0, false, g).tris),
    decreases r.len(),
{
    if r.len() > 2 {
        let d = r.drop_first();
        lemma_convex_ear(val, pts, r, ord, g);
        assert forall|k: int| 0 <= k < d.len() implies 0 <= #[trigger] d[k] < pts.len() by {
            assert(d[k] == r[k + 1]);
        }
        assert forall|i: int, j: int, k: int| 0 <= i < j < k < d.len() implies tri(
            spot(val, pts, #[trigger] d[i]),
            spot(val, pts, #[trigger] d[j]),
            spot(val, pts, #[trigger] d[k]),
        ) > 0 by {
            assert(d[i] == r[i + 1] && d[j] == r[j + 1] && d[k] == r[k + 1]);
        }
        lemma_fan_clipped(val, pts, d, ord, g);
        let rest = clipped(pts, d, ord, 0, false, g);
        lemma_fan_longer(pts, r, rest.tris);
        assert(clipped(pts, r, ord, 0, false, g).tris == triangle(pts, r.last(), r[0], r[1])
            + rest.tris);
    }
}

/// The vertex of the node `h` of an outer ring of `count` vertices that runs as the data does if
/// `left`, and backwards if not.
spec fn vertex_of(count: int, left: bool, h: int) -> int {
    if left {
        h
    } else {
        count - 1 - h
    }
}

/// The outer ring of a convex polygon of `n` vertices, which may be closed by one more at the place
/// of the first, is sliced into a fan.
proof fn lemma_convex_fan(data: Seq<Exact>, dim: int, left: bool, n: int)
    requires
        is_flat(data, Seq::empty(), dim),
        integral(data),
        n >= 3,
        convex_vertices(corners(integer(), data, dim), n, left),
        n == data.len() as int / dim || (n + 1 == data.len() as int / dim && corners(
            integer(),
            data,
            dim,
        )(n) == corners(integer(), data, dim)(0)),
    ensures
        ({
            let l = outer_ring(data, Seq::empty(), dim);
            let count = data.len() as int / dim;
            &&& l.ring == Seq::new(
                n as nat,
                |k: int|
                    if n < count {
                        k
                    } else if k == 0 {
                        n - 1
                    } else {
                        k - 1
                    },
            )
            &&& l.pts.len() == count
            &&& forall|h: int|
                0 <= h < count ==> (#[trigger] l.pts[h]).i == vertex_of(count, left, h)
            &&& fanned(l.pts, l.ring, triangulation(data, Seq::empty(), dim))
        }),
{
    let holes = Seq::<usize>::empty();
    let val = integer();
    let count = data.len() as int / dim;
    let closed = n < count;
    let at = corners(val, data, dim);
    let none = Seq::<Pt<Exact>>::empty();
    let l = outer_ring(data, holes, dim);
    let g = ear_grid(data, dim, count);
    lemma_convex_area(at, n, left, n);
    assert(loop_area(at, 0, count) == loop_area(at, 0, n)) by {
        if closed {
            lemma_cross(at(0), at(0));
            assert(walk_sum(by_area(), at, 0, count) == walk_sum(by_area(), at, 0, n) + by_area()(
                at(n - 1),
                at(n),
            ));
        }
    }
    lemma_loop(data, dim, 0, count);
    lemma_whole(0, loop_area(at, 0, count));
    assert(0int * dim == 0);
    assert(count <= usize::MAX) by {
        vstd::arithmetic::div_mod::lemma_div_nonincreasing(data.len() as int, dim);
    }
    let more = wound(data, dim, 0, count, true);
    assert(l.pts =~= more);
    assert forall|h: int| 0 <= h < count implies #[trigger] spot(val, l.pts, h) == at(
        vertex_of(count, left, h),
    ) by {
        assert(l.pts[h] == more[h]);
    }
    lemma_listed(none, data, dim, 0, count, true, count);
    assert(turns_found(val, l.pts)) by {
        assert forall|p: int, q: int, r: int|
            0 <= p < count && 0 <= q < count && 0 <= r < count && tri(
                spot(val, l.pts, p),
                spot(val, l.pts, q),
                spot(val, l.pts, r),
            ) > 0 implies (#[trigger] area(l.pts, p, q, r)).less_spec(zero::<Exact>())
            && !zero::<Exact>().at_most_spec(area(l.pts, p, q, r)) by {
            let (u, v, w) = (
                vertex_of(count, left, p),
                vertex_of(count, left, q),
                vertex_of(count, left, r),
            );
            lemma_vertex_coordinates(data, dim, u);
            lemma_vertex_coordinates(data, dim, v);
            lemma_vertex_coordinates(data, dim, w);
            lemma_corner_area(at(u).0, at(u).1, at(v).0, at(v).1, at(w).0, at(w).1);
            let t = tri(at(u), at(v), at(w));
            assert(spot(val, l.pts, p) == at(u));
            assert(spot(val, l.pts, q) == at(v));
            assert(spot(val, l.pts, r) == at(w));
            assert(l.pts[p] == more[p] && l.pts[q] == more[q] && l.pts[r] == more[r]);
            assert(area(l.pts, p, q, r) == whole(-t));
            lemma_whole(-t, 0);
            lemma_whole(0, -t);
        }
    }
    assert(coincide(l.pts, count - 1, 0) <==> closed) by {
        let (u, v) = (vertex_of(count, left, 0), vertex_of(count, left, count - 1));
        lemma_vertex_coordinates(data, dim, u);
        lemma_vertex_coordinates(data, dim, v);
        assert(l.pts[0] == more[0] && l.pts[count - 1] == more[count - 1]);
        lemma_whole(at(u).0, at(v).0);
        lemma_whole(at(u).1, at(v).1);
        lemma_whole(at(v).0, at(u).0);
        lemma_whole(at(v).1, at(u).1);
        if !closed && coincide(l.pts, count - 1, 0) {
            assert(at(0) == at(count - 1));
            lemma_cross(at(0), at(1));
            lemma_cross(at(0), at(0));
            let t = tri(at(0), at(1), at(count - 1));
            assert(t == 0);
        }
    }
    let r = l.ring;
    assert(r =~= Seq::new(
        n as nat,
        |k: int|
            if n < count {
                k
            } else if k == 0 {
                n - 1
            } else {
                k - 1
            },
    ));
    assert forall|i: int, j: int, k: int| 0 <= i < j < k < r.len() implies tri(
        spot(val, l.pts, #[trigger] r[i]),
        spot(val, l.pts, #[trigger] r[j]),
        spot(val, l.pts, #[trigger] r[k]),
    ) > 0 by {
        let (u, v, w) = (
            vertex_of(count, left, r[i]),
            vertex_of(count, left, r[j]),
            vertex_of(count, left, r[k]),
        );
        assert(spot(val, l.pts, r[i]) == at(u));
        assert(spot(val, l.pts, r[j]) == at(v));
        assert(spot(val, l.pts, r[k]) == at(w));
        lemma_tri_turned(at(u), at(v), at(w));
        lemma_tri_turned(at(v), at(w), at(u));
        lemma_tri_reversed(at(u), at(v), at(w));
        lemma_tri_reversed(at(v), at(w), at(u));
        lemma_tri_reversed(at(w), at(u), at(v));
        if left {
            if i == 0 && !closed {
                assert(tri(at(v), at(w), at(u)) > 0);
            } else {
                assert(tri(at(u), at(v), at(w)) > 0);
            }
        } else {
            if i == 0 && !closed {
                assert(tri(at(u), at(w), at(v)) < 0);
            } else if i == 0 {
                assert(u == n && at(u) == at(0));
                assert(tri(at(0), at(w), at(v)) < 0);
            } else {
                assert(tri(at(w), at(v), at(u)) < 0);
            }
        }
    }
    let ord = if hashed(g) {
        z_ranked(l.pts, r, g)
    } else {
        Seq::empty()
    };
    lemma_fan_clipped(val, l.pts, r, ord, g);
}

/// A convex polygon with integer coordinates is sliced into a fan from its last vertex but one, or
/// from its second vertex if it runs clockwise: triangle by triangle around the polygon, with the
/// corner that is cut off in the middle.
pub proof fn lemma_convex_triangles(data: Seq<Exact>, dim: int, left: bool, k: int)
    requires
        is_flat(data, Seq::empty(), dim),
        integral(data),
        data.len() as int / dim >= 3,
        convex_vertices(corners(integer(), data, dim), data.len() as int / dim, left),
        0 <= k < data.len() as int / dim - 2,
    ensures
        ({
            let n = data.len() as int / dim;
            let t = triangulation(data, Seq::empty(), dim);
            &&& t.len() == 3 * (n - 2)
            &&& left ==> t[3 * k] == n - 2 && t[3 * k + 1] == (k + n - 1) % n && t[3 * k + 2] == k
            &&& !left ==> t[3 * k] == 1 && t[3 * k + 1] == (n - k) % n && t[3 * k + 2] == n - 1 - k
        }),
{
    let n = data.len() as int / dim;
    let l = outer_ring(data, Seq::empty(), dim);
    lemma_convex_fan(data, dim, left, n);
    let r = l.ring;
    assert(fan_at(l.pts, r, triangulation(data, Seq::empty(), dim), k));
    assert(r.last() == n - 2 && r[k + 1] == k);
    assert(r[k] == (if k == 0 {
        n - 1
    } else {
        k - 1
    }));
    if k == 0 {
        assert((n - 1) % n == n - 1 && n % n == 0) by (nonlinear_arith)
            requires
                n >= 3,
        ;
    } else {
        assert((k + n - 1) % n == k - 1 && (n - k) % n == n - k) by (nonlinear_arith)
            requires
                0 < k < n,
        ;
    }
}

/// A convex polygon with integer coordinates that is closed by a vertex at the place of the first
/// is sliced into a fan from its last vertex but that one, or from its second vertex if it runs
/// clockwise; the vertex that closes it counts only if it runs clockwise, and then the first does
/// not.
pub proof fn lemma_closed_triangles(data: Seq<Exact>, dim: int, left: bool, k: int)
    requires
        is_flat(data, Seq::empty(), dim),
        integral(data),
        data.len() as int / dim >= 4,
        convex_vertices(corners(integer(), data, dim), data.len() as int / dim - 1, left),
        data[0].num == data[(data.len() as int / dim - 1) * dim].num,
        data[1].num == data[(data.len() as int / dim - 1) * dim + 1].num,
        0 <= k < data.len() as int / dim - 3,
    ensures
        ({
            let n = data.len() as int / dim - 1;
            let t = triangulation(data, Seq::empty(), dim);
            &&& t.len() == 3 * (n - 2)
            &&& left ==> t[3 * k] == n - 1 && t[3 * k + 1] == k && t[3 * k + 2] == k + 1
            &&& !left ==> t[3 * k] == 1 && t[3 * k + 1] == n - k && t[3 * k + 2] == n - 1 - k
        }),
{
    let n = data.len() as int / dim - 1;
    let l = outer_ring(data, Seq::empty(), dim);
    assert(corners(integer(), data, dim)(n) == corners(integer(), data, dim)(0)) by {
        assert(0int * dim == 0);
    }
    lemma_convex_fan(data, dim, left, n);
    let r = l.ring;
    assert(fan_at(l.pts, r, triangulation(data, Seq::empty(), dim), k));
    assert(r.last() == n - 1 && r[k + 1] == k + 1 && r[k] == k);
}

} // verus!
