//! Diagonals split simple rings into simple rings.
use vstd::prelude::*;
use crate::areas::tri;
use crate::diagonals::{
    in_sight, inner_diagonal, interior, lemma_edge_away, lemma_half_tri, lemma_inner_by_middle,
    lemma_inner_in_sight, lemma_left_of, no_three_in_line, not_neighbours, weigh,
};
use crate::model::before;
use crate::segments::{apart, lemma_tri, on, under};
use crate::simple::{
    ear, early, facing, late, left_handed, lemma_corners_differ, lemma_cut, lemma_early_simple,
    lemma_edges_apart, lemma_either_way, lemma_has_lowest, lemma_late_at, lemma_late_simple,
    lemma_lowest_turn, lemma_reversed_at, lemma_reversed_simple, lemma_seen_at, lemma_seen_ear,
    lemma_seen_left_handed, place, seen_at, simple,
};
use crate::tiling::lemma_reversed_winding;
use crate::winding::{
    lemma_passes_back, lemma_seen, near, next, passes, passings, prev, wedge, winding,
};
use crate::zooming::{lemma_zoom_under, lemma_zoom_winding, lemma_zoomed_at, zoom, zoomed};

verus! {

/// The passings of the early part of a ring.
proof fn lemma_early_passings(p: Seq<(int, int)>, q: (int, int), j: int, k: int)
    requires
        0 <= k <= j < p.len(),
    ensures
        passings(early(p, j), q, k) == passings(p, q, k),
    decreases k,
{
    if k > 0 {
        lemma_early_passings(p, q, j, k - 1);
        assert(next(early(p, j), k - 1) == p[k] && next(p, k - 1) == p[k]);
    }
}

/// The passings of the late part of a ring.
proof fn lemma_late_passings(p: Seq<(int, int)>, q: (int, int), j: int, k: int)
    requires
        2 <= j < p.len() - 1,
        0 <= k <= p.len() - j,
    ensures
        passings(late(p, j), q, k + 1) == passes(p[0], p[j], q) + passings(p, q, j + k) - passings(
            p,
            q,
            j,
        ),
    decreases k,
{
    lemma_late_at(p, j, 1);
    if k > 0 {
        lemma_late_passings(p, q, j, k - 1);
        lemma_late_at(p, j, k);
    } else {
        assert(passings(late(p, j), q, 0) == 0);
    }
}

/// A ring runs around a point as its two parts together do.
pub(crate) proof fn lemma_parts_winding(p: Seq<(int, int)>, j: int, q: (int, int))
    requires
        2 <= j < p.len() - 1,
    ensures
        winding(p, q) == winding(early(p, j), q) + winding(late(p, j), q),
{
    let n = p.len() as int;
    lemma_early_passings(p, q, j, j);
    lemma_late_passings(p, q, j, n - j);
    lemma_late_at(p, j, 1);
    assert(next(early(p, j), j) == p[0]);
    lemma_passes_back(p[0], p[j], q);
}

/// The winding near the first corner of a ring, towards a corner that it sees, tells which way the
/// two parts run that the diagonal between them cuts off.
proof fn lemma_sides(p: Seq<(int, int)>, j: int)
    requires
        simple(p),
        facing(p, j),
    ensures
        simple(early(p, j)),
        simple(late(p, j)),
        near(p, 0, p[j]) == (if left_handed(late(p, j)) {
            1int
        } else {
            0
        }) - (if left_handed(early(p, j)) {
            0int
        } else {
            1
        }),
{
    let n = p.len() as int;
    let (e, l) = (early(p, j), late(p, j));
    let (v, w) = (p[0], p[j]);
    lemma_early_simple(p, j);
    lemma_late_simple(p, j);
    lemma_parts_winding(p, j, v);
    lemma_late_at(p, j, 1);
    lemma_left_of(l, 0);
    let b = e.reverse();
    lemma_reversed_simple(e);
    lemma_either_way(e);
    lemma_reversed_at(e, j);
    lemma_left_of(b, j);
    lemma_reversed_winding(e, v);
    lemma_tri(v, w, w);
    assert(e[0] == v && next(e, 0) == p[1] && prev(e, 0) == w);
    assert(b[j] == v && next(b, j) == w && prev(b, j) == p[1]);
    assert(next(p, 0) == p[1] && prev(p, 0) == p[n - 1]);
    assert(near(l, 0, w) == winding(l, v) + wedge(v, w, w) - wedge(v, w, p[n - 1]));
    assert(near(b, j, w) == winding(b, v) + wedge(v, w, w) - wedge(v, w, p[1]));
    assert(near(p, 0, w) == winding(p, v) + wedge(v, w, p[1]) - wedge(v, w, p[n - 1]));
    assert(wedge(v, w, w) == 0);
}

/// The winding around the middle of a diagonal is that near its ends, in its direction.
proof fn lemma_middle_near(p: Seq<(int, int)>, j: int)
    requires
        simple(p),
        no_three_in_line(p),
        in_sight(p, 0, j),
        2 <= j < p.len() - 1,
    ensures
        winding(zoomed(p, 2), weigh(p[0], p[j], 1, 1)) == near(p, 0, p[j]),
{
    let n = p.len() as int;
    let z = zoomed(p, 2);
    let q = weigh(p[0], p[j], 1, 1);
    let (v, w) = (p[0], p[j]);
    assert(not_neighbours(p, 0, j));
    lemma_zoomed_at(p, 2, 0);
    lemma_corners_differ(p, 0, j);
    assert(weigh(v, w, 2, 0) == z[0]);
    assert forall|k: int|
        0 <= k < z.len() && k != 0 && k != before(0, z.len() as int) implies apart(
        #[trigger] z[k],
        next(z, k),
        z[0],
        q,
    ) by {
        lemma_edge_away(p, 0, j, k, 2, (2, 0), (1, 1));
    }
    lemma_seen(z, 0, q);
    lemma_zoom_winding(p, 2, v);
    let (x, y) = (p[1], p[n - 1]);
    assert(next(p, 0) == x && prev(p, 0) == y);
    lemma_half_tri(v, w, x);
    lemma_half_tri(v, w, y);
    lemma_zoom_under(2, v, x);
    lemma_zoom_under(2, x, v);
    lemma_zoom_under(2, v, y);
    lemma_zoom_under(2, y, v);
    assert(under(z[0], q) == under(v, w));
    assert(wedge(z[0], q, zoom(x, 2)) == wedge(v, w, x));
    assert(wedge(z[0], q, zoom(y, 2)) == wedge(v, w, y));
}

/// Two corners that see each other face each other if no three corners lie on one line.
proof fn lemma_sight_facing(p: Seq<(int, int)>, j: int)
    requires
        no_three_in_line(p),
        in_sight(p, 0, j),
        2 <= j < p.len() - 1,
    ensures
        facing(p, j),
{
    assert forall|k: int| 1 <= k < p.len() && k != j implies !on(p[0], p[j], #[trigger] p[k]) by {
        assert(tri(p[0], p[j], p[k]) != 0);
    }
}

/// A diagonal whose points are inside a ring that runs counterclockwise splits it into two such
/// rings.
pub proof fn lemma_split(p: Seq<(int, int)>, j: int)
    requires
        left_handed(p),
        no_three_in_line(p),
        2 <= j < p.len() - 1,
        inner_diagonal(p, 0, j),
    ensures
        left_handed(early(p, j)),
        left_handed(late(p, j)),
{
    assert(not_neighbours(p, 0, j));
    lemma_inner_in_sight(p, 0, j);
    lemma_sight_facing(p, j);
    lemma_sides(p, j);
    lemma_middle_near(p, j);
    assert(interior(p, 2, weigh(p[0], p[j], 1, 1)));
}

/// The side of an ear that is no edge of the ring is a diagonal whose points are inside.
pub proof fn lemma_ear_diagonal(p: Seq<(int, int)>)
    requires
        left_handed(p),
        no_three_in_line(p),
        p.len() >= 4,
        ear(p, 1),
    ensures
        inner_diagonal(p, 0, 2),
{
    let n = p.len() as int;
    let s = seen_at(p, 1);
    lemma_seen_left_handed(p, 1);
    lemma_seen_ear(p, 1, 0);
    assert(place(0, 1, n) == 1);
    lemma_cut(s);
    let d = s.drop_first();
    assert forall|k: int| 0 <= k < n - 1 implies #[trigger] d[k] == p[place(k + 1, 1, n)] by {
        lemma_seen_at(p, 1, k + 1);
    }
    assert(d[n - 2] == p[0] && d[0] == p[2]);
    assert forall|m: int|
        0 <= m < n && m != 0 && m != before(0, n) && m != 2 && m != before(2, n) implies apart(
        #[trigger] p[m],
        next(p, m),
        p[0],
        p[2],
    ) by {
        let k = m - 2;
        assert(d[k] == p[m] && next(d, k) == next(p, m));
        assert(next(d, n - 2) == p[2]);
        lemma_edges_apart(d, k, n - 2);
    }
    assert(in_sight(p, 0, 2));
    assert(not_neighbours(p, 0, 2));
    lemma_sight_facing(p, 2);
    lemma_sides(p, 2);
    lemma_middle_near(p, 2);
    let (e, l) = (early(p, 2), late(p, 2));
    assert(l =~= seen_at(d, n - 2)) by {
        assert forall|k: int| 0 <= k < n - 1 implies l[k] == #[trigger] seen_at(d, n - 2)[k] by {
            lemma_seen_at(d, n - 2, k);
            if k > 0 {
                lemma_late_at(p, 2, k);
            }
        }
    }
    lemma_seen_left_handed(d, n - 2);
    lemma_triangle_handed(e);
    lemma_inner_by_middle(p, 0, 2);
}

/// A triangle that turns left runs counterclockwise.
proof fn lemma_triangle_handed(e: Seq<(int, int)>)
    requires
        simple(e),
        e.len() == 3,
        tri(e[0], e[1], e[2]) > 0,
    ensures
        left_handed(e),
{
    let m = lemma_has_lowest(e, 3);
    lemma_tri(e[0], e[1], e[2]);
    lemma_tri(e[1], e[2], e[0]);
    lemma_lowest_turn(e, m);
}

} // verus!
