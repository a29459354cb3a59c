//! What the areas and the deviation of polygons with integer coordinates depend on.
use vstd::prelude::*;
use crate::areas::{abs, by_area, lemma_by_area, lemma_tris_area, measure, tri, tris_area, Measure};
use crate::deviation::{are_triangles, deviation_spec, polygon_area};
use crate::exact::{fits, fraction, whole, Exact};
use crate::exact_areas::{
    integer, integral, lemma_bounded, lemma_loop, lemma_polygon, lemma_triangles,
    lemma_vertex_coordinates, lemma_whole, rings_countable, LIMIT, STEP,
};
use crate::exact_polygons::vertex_xy;
use crate::geometry::{signed_area_spec, zero};
use crate::hole_model::hole_end;
use crate::laws::lemma_permuted_multiset;
use crate::polygon_areas::{corners, lemma_walk_front, loop_area, loop_sum, net_area, walk_sum};
use crate::scalar::Scalar;
use crate::segments::{lemma_differences, lemma_tri};
use crate::triangulation::{is_flat, outer_count};
use crate::zsort::permuted;

verus! {

// ---------------------------------------------------------------------------------------------
// Signed areas
// ---------------------------------------------------------------------------------------------
/// What is measured along vertices backwards.
proof fn lemma_walk_back(
    m: Measure,
    at: spec_fn(int) -> (int, int),
    bt: spec_fn(int) -> (int, int),
    from: int,
    to: int,
    sum: int,
)
    requires
        measure(m),
        from < to,
        forall|v: int| from <= v < to ==> #[trigger] bt(v) == at(sum - v),
    ensures
        walk_sum(m, bt, from, to) == -walk_sum(m, at, sum - to + 1, sum - from + 1),
    decreases to - from,
{
    if to > from + 1 {
        lemma_walk_back(m, at, bt, from, to - 1, sum);
        lemma_walk_front(m, at, sum - to + 1, sum - from + 1);
        assert(bt(to - 2) == at(sum - to + 2) && bt(to - 1) == at(sum - to + 1));
        assert(m(at(sum - to + 2), at(sum - to + 1)) == -m(at(sum - to + 1), at(sum - to + 2)));
    }
}

/// What is measured along vertices that stand `by` places further on.
pub(crate) proof fn lemma_walk_shifted(
    m: Measure,
    at: spec_fn(int) -> (int, int),
    bt: spec_fn(int) -> (int, int),
    from: int,
    to: int,
    by: int,
)
    requires
        from < to,
        forall|v: int| from <= v < to ==> #[trigger] bt(v) == at(v + by),
    ensures
        walk_sum(m, bt, from, to) == walk_sum(m, at, from + by, to + by),
    decreases to - from,
{
    if to > from + 1 {
        lemma_walk_shifted(m, at, bt, from, to - 1, by);
        assert(bt(to - 2) == at(to - 2 + by) && bt(to - 1) == at(to - 1 + by));
    }
}

/// What is measured along vertices in two parts.
proof fn lemma_walk_parts(
    m: Measure,
    at: spec_fn(int) -> (int, int),
    from: int,
    mid: int,
    to: int,
)
    requires
        from < mid < to,
    ensures
        walk_sum(m, at, from, to) == walk_sum(m, at, from, mid) + m(at(mid - 1), at(mid))
            + walk_sum(m, at, mid, to),
    decreases to - mid,
{
    if to > mid + 1 {
        lemma_walk_parts(m, at, from, mid, to - 1);
    }
}

/// The vertices from `from` to `to` of the one polygon are those of the other, backwards.
pub open spec fn backwards(
    data: Seq<Exact>,
    other: Seq<Exact>,
    dim: int,
    from: int,
    to: int,
) -> bool {
    forall|v: int|
        from <= v < to ==> #[trigger] vertex_xy(other, dim, v) == vertex_xy(
            data,
            dim,
            from + to - 1 - v,
        )
}

/// The vertices from `from` to `to` of the one polygon are those of the other, seen from the one
/// `by` places further on.
pub open spec fn rotated(
    data: Seq<Exact>,
    other: Seq<Exact>,
    dim: int,
    from: int,
    to: int,
    by: int,
) -> bool {
    forall|v: int|
        from <= v < to ==> #[trigger] vertex_xy(other, dim, v) == vertex_xy(
            data,
            dim,
            if v + by < to {
                v + by
            } else {
                v + by - (to - from)
            },
        )
}

/// The signed area of a ring with integer coordinates that is run backwards is the same, negated.
pub proof fn lemma_area_backwards(
    data: Seq<Exact>,
    other: Seq<Exact>,
    dim: int,
    from: int,
    to: int,
)
    requires
        integral(data),
        integral(other),
        dim >= 2,
        0 <= from <= to <= data.len() as int / dim,
        to <= other.len() as int / dim,
        backwards(data, other, dim, from, to),
    ensures
        signed_area_spec(other, from * dim, to * dim, dim) == zero::<Exact>().minus_spec(
            signed_area_spec(data, from * dim, to * dim, dim),
        ),
{
    let at = corners(integer(), data, dim);
    let bt = corners(integer(), other, dim);
    let m = by_area();
    lemma_loop(data, dim, from, to);
    lemma_loop(other, dim, from, to);
    lemma_by_area();
    if from < to {
        assert forall|v: int| from <= v < to implies #[trigger] bt(v) == at(from + to - 1 - v) by {
            assert(vertex_xy(other, dim, v) == vertex_xy(data, dim, from + to - 1 - v));
        }
        lemma_walk_back(m, at, bt, from, to, from + to - 1);
        assert(bt(to - 1) == at(from) && bt(from) == at(to - 1));
        assert(m(at(from), at(to - 1)) == -m(at(to - 1), at(from)));
    }
    assert(loop_area(bt, from, to) == -loop_area(at, from, to));
    lemma_whole(0, loop_area(at, from, to));
}

/// The signed area of a ring with integer coordinates is the same wherever the ring starts.
pub proof fn lemma_area_rotated(
    data: Seq<Exact>,
    other: Seq<Exact>,
    dim: int,
    from: int,
    to: int,
    by: int,
)
    requires
        integral(data),
        integral(other),
        dim >= 2,
        0 <= from <= to <= data.len() as int / dim,
        to <= other.len() as int / dim,
        0 <= by < to - from,
        rotated(data, other, dim, from, to, by),
    ensures
        signed_area_spec(other, from * dim, to * dim, dim) == signed_area_spec(
            data,
            from * dim,
            to * dim,
            dim,
        ),
{
    let at = corners(integer(), data, dim);
    let bt = corners(integer(), other, dim);
    let m = by_area();
    let n = to - from;
    lemma_loop(data, dim, from, to);
    lemma_loop(other, dim, from, to);
    assert forall|v: int| from <= v < to implies #[trigger] bt(v) == at(
        if v + by < to {
            v + by
        } else {
            v + by - n
        },
    ) by {
        assert(vertex_xy(other, dim, v) == vertex_xy(
            data,
            dim,
            if v + by < to {
                v + by
            } else {
                v + by - n
            },
        ));
    }
    lemma_walk_shifted(m, at, bt, from, to - by, by);
    if by > 0 {
        lemma_walk_shifted(m, at, bt, to - by, to, by - n);
        lemma_walk_parts(m, bt, from, to - by, to);
        lemma_walk_parts(m, at, from, from + by, to);
        assert(bt(to - by - 1) == at(to - 1) && bt(to - by) == at(from));
        assert(bt(to - 1) == at(from + by - 1) && bt(from) == at(from + by));
    } else {
        assert(bt(to - 1) == at(to - 1) && bt(from) == at(from));
    }
    assert(loop_sum(m, bt, from, to) == loop_sum(m, at, from, to));
}

// ---------------------------------------------------------------------------------------------
// Deviation
// ---------------------------------------------------------------------------------------------
/// The area of triangles of moderate coordinates is bounded.
proof fn lemma_tris_bounded(at: spec_fn(int) -> (int, int), tris: Seq<usize>, count: int)
    requires
        forall|v: int| 0 <= v < count ==> -LIMIT <= (#[trigger] at(v)).0 <= LIMIT && -LIMIT <= at(
            v,
        ).1 <= LIMIT,
        are_triangles(tris, count),
    ensures
        0 <= tris_area(at, tris) <= (tris.len() as int / 3) * (2 * STEP),
    decreases tris.len(),
{
    if tris.len() >= 3 {
        let (a, b, c) = (at(tris[0] as int), at(tris[1] as int), at(tris[2] as int));
        let m = 2 * LIMIT;
        lemma_bounded(a.0 - c.0, b.1 - a.1, m, m);
        lemma_bounded(a.0 - b.0, c.1 - a.1, m, m);
        assert(m * m <= STEP) by (nonlinear_arith)
            requires
                m == 0x8000_0000,
        ;
        lemma_differences(a.0, c.0, b.1, a.1);
        lemma_differences(a.0, b.0, c.1, a.1);
        assert(tri(a, b, c) == (a.0 - c.0) * (b.1 - a.1) - (a.0 - b.0) * (c.1 - a.1));
        let rest = tris.skip(3);
        assert(are_triangles(rest, count)) by {
            assert forall|k: int| 0 <= k < rest.len() implies #[trigger] rest[k] < count by {
                assert(rest[k] == tris[k + 3]);
            }
        }
        lemma_tris_bounded(at, rest, count);
    }
}

/// The deviation of triangles from a polygon with integer coordinates: the difference of their
/// areas over that of the polygon, which is never below zero, and zero exactly if the areas agree.
/// A polygon without area agrees with triangles without area only.
pub proof fn lemma_deviation(data: Seq<Exact>, holes: Seq<usize>, dim: int, tris: Seq<usize>)
    requires
        is_flat(data, holes, dim),
        integral(data),
        rings_countable(holes, data.len() as int / dim),
        are_triangles(tris, data.len() as int / dim),
        tris.len() <= usize::MAX,
    ensures
        ({
            let at = corners(integer(), data, dim);
            let p = net_area(at, holes, data.len() as int / dim, holes.len() as int);
            let t = tris_area(at, tris);
            let d = deviation_spec(data, holes, dim, tris);
            &&& d == (if p == 0 && t == 0 {
                whole(0)
            } else {
                fraction(abs(t - p), abs(p))
            })
            &&& fits(abs(t - p))
            &&& fits(abs(p))
            &&& !d.less_spec(zero::<Exact>())
            &&& d.same_spec(zero::<Exact>()) <==> t == p
        }),
{
    let count = data.len() as int / dim;
    let at = corners(integer(), data, dim);
    let p = net_area(at, holes, count, holes.len() as int);
    let t = tris_area(at, tris);
    let d = deviation_spec(data, holes, dim, tris);
    let k = tris.len() as int / 3;
    let h = holes.len() as int;
    assert forall|v: int| 0 <= v < count implies -LIMIT <= (#[trigger] at(v)).0 <= LIMIT && -LIMIT
        <= at(v).1 <= LIMIT by {
        lemma_vertex_coordinates(data, dim, v);
    }
    lemma_tris_bounded(at, tris, count);
    assert(k * (2 * STEP) <= 0x5555_5555_5555_5555 * (2 * STEP)) by (nonlinear_arith)
        requires
            k <= 0x5555_5555_5555_5555,
            STEP == 0x4000_0000_0000_0000,
    ;
    lemma_polygon(data, holes, dim, h);
    lemma_triangles(data, dim, tris, k);
    assert(tris.take(3 * k) =~= tris);
    lemma_whole(p, 0);
    lemma_whole(t, 0);
    lemma_whole(t, p);
    lemma_whole(0, 0);
    let q = t - p;
    if p == 0 && t == 0 {
    } else {
        let e = whole(q).over_spec(whole(p));
        assert(whole(q).num * whole(p).den == q && whole(q).den * whole(p).num == p) by (
        nonlinear_arith)
            requires
                whole(q).num == q,
                whole(q).den == 1,
                whole(p).num == p,
                whole(p).den == 1,
        ;
        assert(e == fraction(q, p));
        assert(d == e.magnitude_spec());
        assert(d.num == abs(q) && d.den == abs(p));
        assert(d.num * whole(0).den == abs(q) && whole(0).num * d.den == 0) by (nonlinear_arith)
            requires
                whole(0).num == 0,
                whole(0).den == 1,
                d.num == abs(q),
        ;
    }
}

/// The areas of triangles, one by one.
spec fn areas_of(at: spec_fn(int) -> (int, int), tris: Seq<usize>) -> Seq<int> {
    Seq::new(
        tris.len() / 3,
        |k: int|
            abs(
                tri(
                    at(tris[3 * k] as int),
                    at(tris[3 * k + 1] as int),
                    at(tris[3 * k + 2] as int),
                ),
            ),
    )
}

/// The sum of numbers.
spec fn total(s: Seq<int>) -> int
    decreases s.len(),
{
    if s.len() == 0 {
        0
    } else {
        total(s.drop_last()) + s.last()
    }
}

/// Without one of the numbers their sum is less by it.
proof fn lemma_total_removed(s: Seq<int>, i: int)
    requires
        0 <= i < s.len(),
    ensures
        total(s) == total(s.remove(i)) + s[i],
    decreases s.len(),
{
    if i == s.len() - 1 {
        assert(s.remove(i) =~= s.drop_last());
    } else {
        lemma_total_removed(s.drop_last(), i);
        assert(s.remove(i).drop_last() =~= s.drop_last().remove(i));
        assert(s.remove(i).last() == s.last());
    }
}

/// The sum of numbers does not depend on their order.
proof fn lemma_total_permuted(s: Seq<int>, t: Seq<int>)
    requires
        s.to_multiset() == t.to_multiset(),
    ensures
        total(s) == total(t),
    decreases s.len(),
{
    broadcast use vstd::seq_lib::group_to_multiset_ensures;

    assert(s.to_multiset().len() == s.len() && t.to_multiset().len() == t.len());
    if s.len() > 0 {
        let n = s.len() - 1;
        assert(s.contains(s[n]));
        assert(t.to_multiset().contains(s[n]));
        assert(t.contains(s[n]));
        let j = choose|j: int| 0 <= j < t.len() && t[j] == s[n];
        vstd::seq_lib::to_multiset_remove(s, n);
        vstd::seq_lib::to_multiset_remove(t, j);
        lemma_total_permuted(s.remove(n), t.remove(j));
        lemma_total_removed(s, n);
        lemma_total_removed(t, j);
    }
}

/// The area of triangles is the sum of the areas of the triangles.
proof fn lemma_areas_of(at: spec_fn(int) -> (int, int), tris: Seq<usize>)
    requires
        tris.len() % 3 == 0,
    ensures
        tris_area(at, tris) == total(areas_of(at, tris)),
    decreases tris.len(),
{
    if tris.len() >= 3 {
        let n = tris.len() - 3;
        let s = tris.take(n);
        let t = tris.skip(n);
        assert(tris =~= s + t);
        lemma_tris_area(at, s, t);
        lemma_areas_of(at, s);
        assert(tris_area(at, t.skip(3)) == 0);
        let a = areas_of(at, tris);
        assert(a.drop_last() =~= areas_of(at, s)) by {
            assert forall|k: int| 0 <= k < areas_of(at, s).len() implies #[trigger] areas_of(
                at,
                s,
            )[k] == a[k] by {
                assert(s[3 * k] == tris[3 * k] && s[3 * k + 1] == tris[3 * k + 1] && s[3 * k + 2]
                    == tris[3 * k + 2]);
            }
        }
        assert(t[0] == tris[n] && t[1] == tris[n + 1] && t[2] == tris[n + 2]);
        assert(3 * (a.len() - 1) == n);
        assert(a.last() == tris_area(at, t));
    }
}

/// The three are the corners of a triangle, in any order.
pub open spec fn same_corners(
    a: (usize, usize, usize),
    b: (usize, usize, usize),
) -> bool {
    ||| b == a
    ||| b == (a.1, a.2, a.0)
    ||| b == (a.2, a.0, a.1)
    ||| b == (a.0, a.2, a.1)
    ||| b == (a.2, a.1, a.0)
    ||| b == (a.1, a.0, a.2)
}

/// The corners of triangle number `k`.
pub open spec fn corners_of(tris: Seq<usize>, k: int) -> (usize, usize, usize) {
    (tris[3 * k], tris[3 * k + 1], tris[3 * k + 2])
}

/// The triangles are the same, taken in the order that `perm` gives, and each with its corners in
/// any order.
pub open spec fn same_triangles(tris: Seq<usize>, other: Seq<usize>, perm: Seq<int>) -> bool {
    &&& tris.len() == other.len()
    &&& tris.len() % 3 == 0
    &&& perm.len() == tris.len() / 3
    &&& forall|k: int| 0 <= k < perm.len() ==> 0 <= #[trigger] perm[k] < perm.len()
    &&& perm.no_duplicates()
    &&& forall|k: int|
        0 <= k < perm.len() ==> same_corners(
            corners_of(tris, perm[k]),
            #[trigger] corners_of(other, k),
        )
}

/// The deviation depends neither on the order of the triangles nor on that of their corners.
pub proof fn lemma_deviation_reordered(
    data: Seq<Exact>,
    holes: Seq<usize>,
    dim: int,
    tris: Seq<usize>,
    other: Seq<usize>,
    perm: Seq<int>,
)
    requires
        is_flat(data, holes, dim),
        integral(data),
        rings_countable(holes, data.len() as int / dim),
        are_triangles(tris, data.len() as int / dim),
        are_triangles(other, data.len() as int / dim),
        tris.len() <= usize::MAX,
        same_triangles(tris, other, perm),
    ensures
        deviation_spec(data, holes, dim, other) == deviation_spec(data, holes, dim, tris),
{
    let at = corners(integer(), data, dim);
    let s = areas_of(at, tris);
    let t = areas_of(at, other);
    lemma_deviation(data, holes, dim, tris);
    lemma_deviation(data, holes, dim, other);
    lemma_areas_of(at, tris);
    lemma_areas_of(at, other);
    assert(t =~= permuted(s, perm)) by {
        assert forall|k: int| 0 <= k < t.len() implies #[trigger] t[k] == s[perm[k]] by {
            assert(0 <= perm[k] < perm.len());
            assert(same_corners(corners_of(tris, perm[k]), corners_of(other, k)));
            let c = corners_of(tris, perm[k]);
            let (x, y, z) = (at(c.0 as int), at(c.1 as int), at(c.2 as int));
            lemma_tri(x, y, z);
        }
    }
    lemma_permuted_multiset(s, perm);
    lemma_total_permuted(s, t);
}

/// The area of a polygon without data.
proof fn lemma_empty_area(data: Seq<Exact>, holes: Seq<usize>, dim: int, k: int)
    requires
        data.len() == 0,
        dim >= 0,
        k <= holes.len(),
        dim == 0 || forall|i: int| 0 <= i < holes.len() ==> #[trigger] holes[i] == 0,
    ensures
        polygon_area(data, holes, dim, k) == whole(0),
    decreases k,
{
    lemma_whole(0, 0);
    let count = if dim == 0 {
        0
    } else {
        data.len() as int / dim
    };
    assert(count == 0) by {
        if dim > 0 {
            assert(0int / dim == 0) by (nonlinear_arith)
                requires
                    dim > 0,
            ;
        }
    }
    assert(0 * dim == 0);
    assert(dim == 0 ==> outer_count(holes, count) * dim == 0) by (nonlinear_arith);
    if k > 0 {
        lemma_empty_area(data, holes, dim, k - 1);
        let end = hole_end(holes, count, k - 1);
        assert(dim == 0 ==> holes[k - 1] * dim == 0 && end * dim == 0) by (nonlinear_arith);
    }
}

/// No triangles do not deviate from a polygon without data.
pub proof fn lemma_nothing_deviates(data: Seq<Exact>, holes: Seq<usize>, dim: int)
    requires
        data.len() == 0,
        dim >= 0,
        dim == 0 || forall|i: int| 0 <= i < holes.len() ==> #[trigger] holes[i] == 0,
    ensures
        deviation_spec(data, holes, dim, Seq::empty()).num == 0,
        deviation_spec(data, holes, dim, Seq::empty()).den == 1,
{
    lemma_empty_area(data, holes, dim, holes.len() as int);
    lemma_whole(0, 0);
}

} // verus!
