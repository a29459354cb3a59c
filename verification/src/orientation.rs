//! Rings may run either way.
use vstd::prelude::*;
use crate::areas::by_area;
use crate::bounds::in_table;
use crate::exact::{whole, Exact};
use crate::exact_areas::{integer, integral, lemma_loop, lemma_whole};
use crate::exact_measures::{backwards, lemma_area_backwards, lemma_walk_shifted};
use crate::exact_polygons::{lemma_extent, vertex_xy};
use crate::exact_simple::{lemma_extent_covers, lemma_picked};
use crate::geometry::{signed_area_spec, zero};
use crate::hole_model::{
    closed_ring, hole_end, in_order, listed, merged_all, outline, queued, vertex_at, wound,
};
use crate::model::Pt;
use crate::polygon_areas::{corners, loop_area};
use crate::renaming::{
    in_tables, lemma_renamed_in_order, lemma_renamed_leftmost, lemma_renamed_merged_all,
    lemma_renamed_outline, lemma_renamed_sliced, lemma_renamed_swept, names, renamed, same_node,
    told_apart,
};
use crate::rings::{
    is_ring, lemma_in_order_apart, lemma_listed_ring, lemma_queued_rings, lemma_swept_ring,
};
use crate::scalar::Scalar;
use crate::triangulation::{
    ear_grid, extent, is_flat, lemma_triangulation, outer_count, outer_ring, single_ring,
    triangulation,
};

verus! {

/// The vertices from `from` to `to` of the second polygon are those of the first, and have their
/// own names.
pub open spec fn kept(
    data: Seq<Exact>,
    other: Seq<Exact>,
    dim: int,
    from: int,
    to: int,
    name: spec_fn(usize) -> usize,
) -> bool {
    forall|v: int|
        from <= v < to ==> #[trigger] vertex_xy(other, dim, v) == vertex_xy(data, dim, v) && name(
            v as usize,
        ) == v
}

/// The vertices from `from` to `to` of the second polygon are those of the first, backwards; each
/// is named by its place in the second polygon. Their area is not zero.
pub open spec fn reversed(
    data: Seq<Exact>,
    other: Seq<Exact>,
    dim: int,
    from: int,
    to: int,
    name: spec_fn(usize) -> usize,
) -> bool {
    &&& backwards(data, other, dim, from, to)
    &&& forall|v: int|
        #![trigger vertex_xy(data, dim, v)]
        from <= v < to ==> name(v as usize) == from + to - 1 - v
    &&& signed_area_spec(data, from * dim, to * dim, dim) != zero::<Exact>()
}

/// The ring runs as before, or the other way.
pub open spec fn either_way(
    data: Seq<Exact>,
    other: Seq<Exact>,
    dim: int,
    from: int,
    to: int,
    name: spec_fn(usize) -> usize,
) -> bool {
    kept(data, other, dim, from, to, name) || reversed(data, other, dim, from, to, name)
}

/// Each ring of the second polygon is that of the first, as it is or backwards; `name` gives the
/// places of its vertices, and no place twice.
pub open spec fn rings_either_way(
    data: Seq<Exact>,
    other: Seq<Exact>,
    holes: Seq<usize>,
    dim: int,
    name: spec_fn(usize) -> usize,
) -> bool {
    let count = data.len() as int / dim;
    &&& data.len() == other.len()
    &&& integral(data)
    &&& integral(other)
    &&& either_way(data, other, dim, 0, outer_count(holes, count), name)
    &&& forall|i: int|
        0 <= i < holes.len() ==> either_way(
            data,
            other,
            dim,
            (#[trigger] holes[i]) as int,
            hole_end(holes, count, i),
            name,
        )
    &&& forall|u: usize, v: usize|
        u < count && v < count && #[trigger] name(u) == #[trigger] name(v) ==> u == v
}

// ---------------------------------------------------------------------------------------------
// Reading rings
// ---------------------------------------------------------------------------------------------
/// The nodes of the second table are those of the first, of vertices with other names.
spec fn read_alike(
    pts: Seq<Pt<Exact>>,
    other: Seq<Pt<Exact>>,
    name: spec_fn(usize) -> usize,
    count: int,
) -> bool {
    &&& pts.len() == other.len()
    &&& forall|h: int|
        0 <= h < pts.len() ==> #[trigger] same_node(pts, other, name, h) && pts[h].i < count
}

/// Different vertices keep different names.
proof fn lemma_read_renamed(
    data: Seq<Exact>,
    other: Seq<Exact>,
    holes: Seq<usize>,
    dim: int,
    name: spec_fn(usize) -> usize,
    a: Seq<Pt<Exact>>,
    b: Seq<Pt<Exact>>,
)
    requires
        rings_either_way(data, other, holes, dim, name),
        read_alike(a, b, name, data.len() as int / dim),
    ensures
        renamed(a, b, name),
{
    assert forall|p: int, q: int|
        0 <= p < a.len() && 0 <= q < a.len() implies #[trigger] told_apart(a, name, p, q) by {
        assert(same_node(a, b, name, p) && same_node(a, b, name, q));
    }
}

/// A ring that is kept has the same area, and a reversed one an area of the other sign.
proof fn lemma_area_sign(
    data: Seq<Exact>,
    other: Seq<Exact>,
    dim: int,
    from: int,
    to: int,
    name: spec_fn(usize) -> usize,
)
    requires
        data.len() == other.len(),
        integral(data),
        integral(other),
        dim >= 2,
        0 <= from < to <= data.len() as int / dim,
        either_way(data, other, dim, from, to, name),
    ensures
        ({
            let a = zero::<Exact>().less_spec(signed_area_spec(data, from * dim, to * dim, dim));
            let b = zero::<Exact>().less_spec(signed_area_spec(other, from * dim, to * dim, dim));
            if kept(data, other, dim, from, to, name) {
                a == b
            } else {
                a != b
            }
        }),
{
    let (at, bt) = (corners(integer(), data, dim), corners(integer(), other, dim));
    lemma_loop(data, dim, from, to);
    lemma_loop(other, dim, from, to);
    let n = loop_area(at, from, to);
    lemma_whole(0, n);
    if kept(data, other, dim, from, to, name) {
        assert forall|v: int| from <= v < to implies #[trigger] bt(v) == at(v + 0) by {
            assert(vertex_xy(other, dim, v) == vertex_xy(data, dim, v));
        }
        lemma_walk_shifted(by_area(), at, bt, from, to, 0);
        assert(bt(to - 1) == at(to - 1 + 0) && bt(from) == at(from + 0));
    } else {
        lemma_area_backwards(data, other, dim, from, to);
        assert(n != 0);
        lemma_whole(0, -n);
    }
}

/// A ring is read alike.
proof fn lemma_read_listed(
    pts: Seq<Pt<Exact>>,
    others: Seq<Pt<Exact>>,
    name: spec_fn(usize) -> usize,
    data: Seq<Exact>,
    other: Seq<Exact>,
    dim: int,
    from: int,
    to: int,
    clockwise: bool,
)
    requires
        data.len() == other.len(),
        integral(data),
        integral(other),
        dim >= 2,
        read_alike(pts, others, name, data.len() as int / dim),
        0 <= from,
        0 <= to <= data.len() as int / dim,
        either_way(data, other, dim, from, to, name),
    ensures
        ({
            let a = listed(pts, data, dim, from, to, clockwise);
            let b = listed(others, other, dim, from, to, clockwise);
            &&& read_alike(a.pts, b.pts, name, data.len() as int / dim)
            &&& a.ring == b.ring
        }),
{
    let count = data.len() as int / dim;
    let (u, w) = (wound(data, dim, from, to, clockwise), wound(other, dim, from, to, clockwise));
    let (a, b) = (pts + u, others + w);
    let n = pts.len() as int;
    if from < to {
        lemma_area_sign(data, other, dim, from, to, name);
        let forward = clockwise == zero::<Exact>().less_spec(
            signed_area_spec(data, from * dim, to * dim, dim),
        );
        let same = kept(data, other, dim, from, to, name);
        assert(count <= data.len()) by {
            vstd::arithmetic::div_mod::lemma_div_nonincreasing(data.len() as int, dim);
        }
        assert forall|h: int| 0 <= h < a.len() implies #[trigger] same_node(a, b, name, h)
            && a[h].i < count by {
            if h < n {
                assert(same_node(pts, others, name, h));
            } else {
                let v = if forward {
                    from + (h - n)
                } else {
                    to - 1 - (h - n)
                };
                let t = if same {
                    v
                } else {
                    from + to - 1 - v
                };
                assert(a[h] == vertex_at(data, dim, v) && b[h] == vertex_at(other, dim, t));
                assert(vertex_xy(other, dim, t) == vertex_xy(data, dim, v));
                assert(name(v as usize) == t);
            }
        }
    } else {
        assert(a =~= pts && b =~= others);
    }
    if a.len() - n >= 2 {
        assert(same_node(a, b, name, a.len() - 1) && same_node(a, b, name, n));
    }
    assert(closed_ring(a, n) == closed_ring(b, n));
}

/// The holes are read alike.
proof fn lemma_read_queued(
    pts: Seq<Pt<Exact>>,
    others: Seq<Pt<Exact>>,
    name: spec_fn(usize) -> usize,
    data: Seq<Exact>,
    other: Seq<Exact>,
    dim: int,
    holes: Seq<usize>,
    m: int,
)
    requires
        is_flat(data, holes, dim),
        rings_either_way(data, other, holes, dim, name),
        read_alike(pts, others, name, data.len() as int / dim),
        m <= holes.len(),
    ensures
        ({
            let a = queued(pts, data, dim, holes, m);
            let b = queued(others, other, dim, holes, m);
            &&& read_alike(a.pts, b.pts, name, data.len() as int / dim)
            &&& a.holes == b.holes
        }),
    decreases m,
{
    if m > 0 {
        let count = data.len() as int / dim;
        lemma_read_queued(pts, others, name, data, other, dim, holes, m - 1);
        let a = queued(pts, data, dim, holes, m - 1);
        let b = queued(others, other, dim, holes, m - 1);
        let (from, to) = (holes[m - 1] as int, hole_end(holes, count, m - 1));
        vstd::arithmetic::div_mod::lemma_div_pos_is_pos(data.len() as int, dim);
        assert(0 <= to <= count);
        lemma_read_listed(a.pts, b.pts, name, data, other, dim, from, to, false);
        let l = listed(a.pts, data, dim, from, to, false);
        let c = listed(b.pts, other, dim, from, to, false);
        if l.ring.len() > 0 {
            assert(from < to);
            lemma_listed_ring(a.pts, data, dim, from, to, false);
            assert(0 <= l.ring[0] < l.pts.len());
            if l.ring.len() == 1 {
                let p = l.ring[0];
                let (x, y) = (
                    l.pts.update(p, Pt { steiner: true, ..l.pts[p] }),
                    c.pts.update(p, Pt { steiner: true, ..c.pts[p] }),
                );
                assert forall|h: int| 0 <= h < x.len() implies #[trigger] same_node(x, y, name, h)
                    && x[h].i < count by {
                    assert(same_node(l.pts, c.pts, name, h));
                }
            } else {
                lemma_read_renamed(data, other, holes, dim, name, l.pts, c.pts);
                lemma_renamed_leftmost(l.pts, c.pts, name, l.ring, l.ring.len() as int);
            }
        }
    }
}

// ---------------------------------------------------------------------------------------------
// The box
// ---------------------------------------------------------------------------------------------
/// The vertices at the sides of the box: left, below, right and above.
proof fn lemma_extent_attained(data: Seq<Exact>, dim: int, k: int) -> (at: (int, int, int, int))
    requires
        k >= 1,
    ensures
        0 <= at.0 < k && extent(data, dim, k).min_x == vertex_xy(data, dim, at.0).0,
        0 <= at.1 < k && extent(data, dim, k).min_y == vertex_xy(data, dim, at.1).1,
        0 <= at.2 < k && extent(data, dim, k).max_x == vertex_xy(data, dim, at.2).0,
        0 <= at.3 < k && extent(data, dim, k).max_y == vertex_xy(data, dim, at.3).1,
    decreases k,
{
    assert(0 * dim == 0) by (nonlinear_arith);
    if k == 1 {
        (0, 0, 0, 0)
    } else {
        let b = extent(data, dim, k - 1);
        let (x, y) = vertex_xy(data, dim, k - 1);
        let at = lemma_extent_attained(data, dim, k - 1);
        (
            if x.less_spec(b.min_x) {
                k - 1
            } else {
                at.0
            },
            if y.less_spec(b.min_y) {
                k - 1
            } else {
                at.1
            },
            if b.max_x.less_spec(x) {
                k - 1
            } else {
                at.2
            },
            if b.max_y.less_spec(y) {
                k - 1
            } else {
                at.3
            },
        )
    }
}

/// All vertices of the first polygon are vertices of the second.
spec fn among(
    data: Seq<Exact>,
    other: Seq<Exact>,
    dim: int,
    k: int,
    to: spec_fn(int) -> int,
) -> bool {
    forall|v: int|
        0 <= v < k ==> 0 <= #[trigger] to(v) < k && vertex_xy(other, dim, to(v)) == vertex_xy(
            data,
            dim,
            v,
        )
}

/// The box around vertices lies in the box around more of them.
proof fn lemma_box_within(
    data: Seq<Exact>,
    other: Seq<Exact>,
    dim: int,
    k: int,
    to: spec_fn(int) -> int,
)
    requires
        data.len() == other.len(),
        integral(data),
        integral(other),
        dim >= 2,
        1 <= k <= data.len() as int / dim,
        among(data, other, dim, k, to),
    ensures
        extent(other, dim, k).min_x.num <= extent(data, dim, k).min_x.num,
        extent(other, dim, k).min_y.num <= extent(data, dim, k).min_y.num,
        extent(other, dim, k).max_x.num >= extent(data, dim, k).max_x.num,
        extent(other, dim, k).max_y.num >= extent(data, dim, k).max_y.num,
{
    let at = lemma_extent_attained(data, dim, k);
    let (b, c) = (extent(data, dim, k), extent(other, dim, k));
    lemma_extent(data, dim, k);
    lemma_extent(other, dim, k);
    assert(0 <= to(at.0) < k && 0 <= to(at.1) < k && 0 <= to(at.2) < k && 0 <= to(at.3) < k);
    lemma_extent_covers(other, dim, k, to(at.0));
    lemma_extent_covers(other, dim, k, to(at.1));
    lemma_extent_covers(other, dim, k, to(at.2));
    lemma_extent_covers(other, dim, k, to(at.3));
    assert(b.min_x == whole(b.min_x.num as int) && b.min_y == whole(b.min_y.num as int) && b.max_x
        == whole(b.max_x.num as int) && b.max_y == whole(b.max_y.num as int));
    assert(c.min_x == whole(c.min_x.num as int) && c.min_y == whole(c.min_y.num as int) && c.max_x
        == whole(c.max_x.num as int) && c.max_y == whole(c.max_y.num as int));
    lemma_picked(c.min_x.num as int, b.min_x.num as int);
    lemma_picked(c.min_y.num as int, b.min_y.num as int);
    lemma_picked(b.max_x.num as int, c.max_x.num as int);
    lemma_picked(b.max_y.num as int, c.max_y.num as int);
}

/// The box around a ring does not depend on the way it runs.
proof fn lemma_same_extent(
    data: Seq<Exact>,
    other: Seq<Exact>,
    dim: int,
    k: int,
    name: spec_fn(usize) -> usize,
)
    requires
        data.len() == other.len(),
        integral(data),
        integral(other),
        dim >= 2,
        1 <= k <= data.len() as int / dim,
        either_way(data, other, dim, 0, k, name),
    ensures
        extent(other, dim, k) == extent(data, dim, k),
{
    let same = kept(data, other, dim, 0, k, name);
    let to = |v: int|
        if same {
            v
        } else {
            k - 1 - v
        };
    assert forall|v: int| 0 <= v < k implies 0 <= #[trigger] to(v) < k && vertex_xy(
        other,
        dim,
        to(v),
    ) == vertex_xy(data, dim, v) by {
        if same {
            assert(vertex_xy(other, dim, v) == vertex_xy(data, dim, v));
        } else {
            assert(vertex_xy(other, dim, k - 1 - v) == vertex_xy(data, dim, v));
        }
    }
    assert forall|v: int| 0 <= v < k implies 0 <= #[trigger] to(v) < k && vertex_xy(
        data,
        dim,
        to(v),
    ) == vertex_xy(other, dim, v) by {
        assert(vertex_xy(other, dim, v) == vertex_xy(data, dim, to(v)));
    }
    lemma_box_within(data, other, dim, k, to);
    lemma_box_within(other, data, dim, k, to);
    lemma_extent(data, dim, k);
    lemma_extent(other, dim, k);
}

// ---------------------------------------------------------------------------------------------
// The triangulation
// ---------------------------------------------------------------------------------------------
/// The triangulation does not depend on the way in which the rings run: where any of the rings of
/// a polygon with integer coordinates of moderate size, of an area that is not zero, are given
/// backwards, the triangles are the same, of the same vertices.
pub proof fn lemma_orientation(
    data: Seq<Exact>,
    other: Seq<Exact>,
    holes: Seq<usize>,
    dim: int,
    name: spec_fn(usize) -> usize,
)
    requires
        is_flat(data, holes, dim),
        rings_either_way(data, other, holes, dim, name),
    ensures
        triangulation(other, holes, dim) == names(triangulation(data, holes, dim), name),
{
    let count = data.len() as int / dim;
    let outer = outer_count(holes, count);
    vstd::arithmetic::div_mod::lemma_div_pos_is_pos(data.len() as int, dim);
    assert(0 <= outer <= count);
    let none = Seq::<Pt<Exact>>::empty();
    lemma_read_listed(none, none, name, data, other, dim, 0, outer, true);
    let (l, c) = (outer_ring(data, holes, dim), outer_ring(other, holes, dim));
    if data.len() > 0 && l.ring.len() > 2 {
        assert(outer > 0);
        lemma_listed_ring(none, data, dim, 0, outer, true);
        lemma_same_extent(data, other, dim, outer, name);
        lemma_read_single(data, other, holes, dim, name);
        let (u, w) = (single_ring(data, holes, dim), single_ring(other, holes, dim));
        lemma_renamed_sliced(u.pts, w.pts, name, u.ring, ear_grid(data, dim, outer));
    } else {
        assert(names(Seq::empty(), name) =~= Seq::<usize>::empty());
    }
}

/// The single ring of a polygon, whichever way its rings run.
proof fn lemma_read_single(
    data: Seq<Exact>,
    other: Seq<Exact>,
    holes: Seq<usize>,
    dim: int,
    name: spec_fn(usize) -> usize,
)
    requires
        is_flat(data, holes, dim),
        rings_either_way(data, other, holes, dim, name),
        read_alike(
            outer_ring(data, holes, dim).pts,
            outer_ring(other, holes, dim).pts,
            name,
            data.len() as int / dim,
        ),
        outer_ring(data, holes, dim).ring == outer_ring(other, holes, dim).ring,
        is_ring(
            outer_ring(data, holes, dim).ring,
            outer_ring(data, holes, dim).pts.len() as int,
        ),
    ensures
        ({
            let (u, w) = (single_ring(data, holes, dim), single_ring(other, holes, dim));
            &&& renamed(u.pts, w.pts, name)
            &&& u.ring == w.ring
            &&& is_ring(u.ring, u.pts.len() as int)
        }),
{
    let count = data.len() as int / dim;
    let (l, c) = (outer_ring(data, holes, dim), outer_ring(other, holes, dim));
    lemma_read_renamed(data, other, holes, dim, name, l.pts, c.pts);
    if holes.len() > 0 {
        let m = holes.len() as int;
        lemma_read_queued(l.pts, c.pts, name, data, other, dim, holes, m);
        let q = queued(l.pts, data, dim, holes, m);
        let r = queued(c.pts, other, dim, holes, m);
        let n = q.pts.len() as int;
        lemma_read_renamed(data, other, holes, dim, name, q.pts, r.pts);
        lemma_queued_rings(l.pts, data, dim, holes, m, l.ring);
        assert(in_tables(q.holes, n)) by {
            assert forall|j: int| 0 <= j < q.holes.len() implies in_table(#[trigger] q.holes[j], n)
                && q.holes[j].len() > 0 by {
                assert(is_ring(q.holes[j], n));
            }
        }
        lemma_renamed_in_order(q.pts, r.pts, name, q.holes);
        lemma_in_order_apart(q.pts, l.ring, q.holes, n);
        let s = in_order(q.pts, q.holes);
        assert(is_ring(l.ring, n)) by {
            assert forall|i: int| 0 <= i < l.ring.len() implies 0 <= #[trigger] l.ring[i] < n by {}
        }
        lemma_renamed_outline(q.pts, r.pts, name, l.ring, count);
        let (o, w) = (outline(q.pts, l.ring, count), outline(r.pts, l.ring, count));
        assert(o.ring == l.ring && o.pts == q.pts);
        lemma_renamed_merged_all(o, w, name, s, s.len() as int);
        let (a, b) = (merged_all(o, s, s.len() as int), merged_all(w, s, s.len() as int));
        lemma_renamed_swept(a.pts, b.pts, name, a.ring, 0);
        lemma_swept_ring(a.pts, a.ring, 0, a.pts.len() as int);
    }
}

/// A polygon without holes that is given backwards has the same triangles, of the same vertices,
/// which are counted from the other end.
pub proof fn lemma_backwards(data: Seq<Exact>, other: Seq<Exact>, dim: int)
    requires
        is_flat(data, Seq::empty(), dim),
        data.len() == other.len(),
        integral(data),
        integral(other),
        backwards(data, other, dim, 0, data.len() as int / dim),
        signed_area_spec(data, 0, (data.len() as int / dim) * dim, dim) != zero::<Exact>(),
    ensures
        ({
            let count = data.len() as int / dim;
            let (s, t) = (
                triangulation(data, Seq::empty(), dim),
                triangulation(other, Seq::empty(), dim),
            );
            &&& t.len() == s.len()
            &&& forall|k: int| 0 <= k < s.len() ==> #[trigger] t[k] == count - 1 - s[k]
        }),
{
    let count = data.len() as int / dim;
    let none = Seq::<usize>::empty();
    assert(count <= data.len()) by {
        vstd::arithmetic::div_mod::lemma_div_nonincreasing(data.len() as int, dim);
    }
    let name = |v: usize| (count - 1 - v) as usize;
    assert(0 * dim == 0) by (nonlinear_arith);
    assert(reversed(data, other, dim, 0, count, name));
    lemma_orientation(data, other, none, dim, name);
    let s = triangulation(data, none, dim);
    lemma_triangulation(data, none, dim);
    assert forall|k: int| 0 <= k < s.len() implies #[trigger] triangulation(other, none, dim)[k]
        == count - 1 - s[k] by {
        assert(s[k] < count);
    }
}

} // verus!
