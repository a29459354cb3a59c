//! Weakly simple rings with integer coordinates are sliced completely.
use vstd::prelude::*;
use crate::areas::{spot, tri};
use crate::bounds::{in_table, lemma_turned_in};
use crate::diagonals::{in_angle, lemma_weigh_on, off_ring, weigh};
use crate::exact::Exact;
use crate::exact_areas::{integer, lemma_whole};
use crate::exact_diagonals::{
    lemma_angle_found, lemma_corner, lemma_meeting_found, lemma_middle_inside, lemma_turn_found,
};
use crate::exact_simple::lemma_moderate_places;
use crate::exact_splitting::{lemma_split_found, lemma_split_turn};
use crate::fresh_index::{moderate_node, moderate_table};
use crate::geometry::{hashed, zero, Grid};
use crate::meeting::{lemma_crossing_means, lemma_meeting};
use crate::model::{
    after, area, before, bridged, clippable, clipped, coincide, curable, cured, degenerate,
    edge_meets, far_part, first_split, halved, healed, intersects_polygon_spec, lemma_first_split,
    near_part, obstructs, pred, sliced, splittable, succ, swept, turned, turned_to, uncrossed, Pt,
    Sliced,
};
use crate::scalar::Scalar;
use crate::segments::{lemma_tri, on};
use crate::sight::{lemma_beside_edge, lemma_part_apart, lemma_same_direction};
use crate::simple::{early, late, lemma_late_at, lemma_seen_at, place, seen_at, uncrossing};
use crate::simple_polygons::{found_inside, spots};
use crate::weak::{
    edge_clear, faces, in_turn, lemma_bend, lemma_clear, lemma_faced_point, lemma_ground_bound,
    lemma_no_turns, lemma_prev_differ, lemma_sight_line, lemma_weak_zoom, lemma_zoom_turns,
    off_rays, weakly_left, weakly_simple,
};
use crate::weak_cuts::{
    cuttable, lemma_facing_end, lemma_other_corner, lemma_weak_cut, lemma_weak_seen, uncrossed_by,
};
use crate::weak_ears::{
    enclosed, lemma_inner_corner, lemma_inner_cuttable, lemma_weak_diagonal, lemma_weak_ear, vacant,
};
use crate::winding::{next, prev, winding};
use crate::zooming::{lemma_zoom_crossing, lemma_zoom_under, lemma_zoomed_at, zoomed};

verus! {

// ---------------------------------------------------------------------------------------------
// The middle of a diagonal
// ---------------------------------------------------------------------------------------------
/// A diagonal is one magnified.
proof fn lemma_zoom_cuttable(p: Seq<(int, int)>, j: int, k: int)
    requires
        k > 0,
        cuttable(p, j),
    ensures
        cuttable(zoomed(p, k), j),
{
    let z = zoomed(p, k);
    lemma_zoomed_at(p, k, 0);
    lemma_zoomed_at(p, k, j);
    lemma_zoom_under(k, p[0], p[j]);
    lemma_zoom_turns(k, p[0], next(p, 0), p[j], prev(p, 0));
    lemma_zoom_turns(k, p[j], next(p, j), p[0], prev(p, j));
    assert forall|l: int| 0 <= l < z.len() implies #[trigger] uncrossed_by(z, l, z[0], z[j]) by {
        lemma_zoomed_at(p, k, l);
        assert(uncrossed_by(p, l, p[0], p[j]));
        lemma_zoom_crossing(k, p[l], next(p, l), p[0], p[j]);
    }
}

/// An edge has nothing to do with what is between the ends of a diagonal.
#[verifier::spinoff_prover]
proof fn lemma_off_diagonal(p: Seq<(int, int)>, j: int, m: (int, int), k: int)
    requires
        weakly_simple(p),
        cuttable(p, j),
        on(p[0], p[j], m),
        m != p[0],
        m != p[j],
        0 <= k < p.len(),
    ensures
        edge_clear(p, k, p[0], m),
        !on(p[k], next(p, k), m),
{
    let n = p.len() as int;
    let (a, b) = (p[0], p[j]);
    let l = after(k, n);
    let (u, v) = (p[k], p[l]);
    lemma_bend(p, k);
    lemma_tri(a, b, a);
    lemma_tri(a, b, b);
    assert(on(a, b, a));
    assert(prev(p, l) == u && next(p, k) == v);
    lemma_facing_end(p, 0, j);
    lemma_facing_end(p, j, 0);
    assert(!(u == a && v == b)) by {
        if u == a && k != 0 {
            lemma_other_corner(p, 0, k, j);
        }
    }
    assert(!(u == b && v == a)) by {
        if u == b && k != j {
            lemma_other_corner(p, j, k, 0);
        }
    }
    if u == a || v == a {
        let (c, i) = if u == a {
            (v, l)
        } else {
            (u, k)
        };
        assert(tri(p[0], p[j], p[i]) != 0);
        lemma_beside_edge(a, c, a, b, m, m);
    } else if u == b || v == b {
        let (c, i) = if u == b {
            (v, l)
        } else {
            (u, k)
        };
        assert(tri(p[0], p[j], p[i]) != 0);
        lemma_beside_edge(b, c, a, b, a, m);
        lemma_beside_edge(b, c, a, b, m, a);
    } else {
        assert(uncrossed_by(p, k, a, b));
        assert(tri(p[k], p[l], p[0]) != 0);
        assert(tri(p[k], p[l], p[j]) != 0);
        assert(tri(p[0], p[j], p[k]) != 0);
        assert(tri(p[0], p[j], p[l]) != 0);
        lemma_clear(u, v, a, b);
        lemma_part_apart(u, v, a, b, a, m);
    }
}

/// A ring runs once around what is between the ends of a diagonal.
pub(crate) proof fn lemma_along_diagonal(p: Seq<(int, int)>, j: int, m: (int, int))
    requires
        weakly_left(p),
        cuttable(p, j),
        on(p[0], p[j], m),
        m != p[0],
        m != p[j],
    ensures
        off_ring(p, m),
        winding(p, m) == 1,
{
    let n = p.len() as int;
    let (a, b) = (p[0], p[j]);
    assert forall|k: int| 0 <= k < n implies #[trigger] edge_clear(p, k, a, m) by {
        lemma_off_diagonal(p, j, m, k);
    }
    assert forall|k: int| 0 <= k < n implies !on(#[trigger] p[k], next(p, k), m) by {
        lemma_off_diagonal(p, j, m, k);
    }
    lemma_sight_line(p, a, m);
    assert forall|k: int| 0 <= k < n implies #[trigger] p[k] != m by {
        lemma_tri(p[k], next(p, k), p[k]);
        assert(!on(p[k], next(p, k), m));
    }
    lemma_no_turns(p, m, a, n);
    assert(off_rays(p, 0, m)) by {
        assert forall|k: int| 0 <= k < p.len() && #[trigger] p[k] == p[0] implies tri(
            p[0],
            next(p, k),
            m,
        ) != 0 && tri(p[0], prev(p, k), m) != 0 by {
            lemma_bend(p, k);
            if k == 0 {
                lemma_facing_end(p, 0, j);
            } else {
                lemma_other_corner(p, 0, k, j);
            }
            let (x, y) = (after(k, n), before(k, n));
            assert(tri(p[0], p[j], p[x]) != 0);
            assert(tri(p[0], p[j], p[y]) != 0);
            lemma_same_direction(a, b, m, p[x]);
            lemma_same_direction(a, b, m, p[y]);
            lemma_tri(a, m, p[x]);
            lemma_tri(a, m, p[y]);
        }
    }
    assert(faces(p, 0, m)) by {
        reveal(in_turn);
        lemma_same_direction(a, b, m, next(p, 0));
        lemma_same_direction(a, b, m, prev(p, 0));
        lemma_tri(a, m, next(p, 0));
        lemma_tri(a, m, prev(p, 0));
        lemma_tri(a, b, next(p, 0));
        lemma_tri(a, b, prev(p, 0));
    }
    lemma_faced_point(p, 0, m);
}

// ---------------------------------------------------------------------------------------------
// Diagonals as they are found
// ---------------------------------------------------------------------------------------------
/// All nodes have integer coordinates of moderate size, and those of vertices that are in use are
/// of the same vertex exactly if they are at the same place.
pub open spec fn sound_table(pts: Seq<Pt<Exact>>, used: spec_fn(usize) -> bool) -> bool {
    &&& moderate_table(pts)
    &&& forall|h: int, k: int|
        0 <= h < pts.len() && 0 <= k < pts.len() && used((#[trigger] pts[h]).i) && used(
            (#[trigger] pts[k]).i,
        ) ==> (pts[h].i == pts[k].i <==> spot(integer(), pts, h) == spot(integer(), pts, k))
}

/// The ring is of nodes of the table, of vertices that are in use.
pub open spec fn ring_used(
    pts: Seq<Pt<Exact>>,
    used: spec_fn(usize) -> bool,
    r: Seq<int>,
) -> bool {
    forall|k: int|
        0 <= k < r.len() ==> 0 <= (#[trigger] r[k]) < pts.len() && used(pts[r[k]].i)
}

/// A ring that has no nodes but those of another.
pub(crate) proof fn lemma_nodes_used(
    pts: Seq<Pt<Exact>>,
    used: spec_fn(usize) -> bool,
    r: Seq<int>,
    s: Seq<int>,
)
    requires
        ring_used(pts, used, r),
        forall|h: int| #[trigger] s.contains(h) ==> r.contains(h),
    ensures
        ring_used(pts, used, s),
{
    assert forall|k: int| 0 <= k < s.len() implies 0 <= (#[trigger] s[k]) < pts.len() && used(
        pts[s[k]].i,
    ) by {
        assert(s.contains(s[k]));
        let j = choose|j: int| 0 <= j < r.len() && r[j] == s[k];
        assert(0 <= r[j] < pts.len());
    }
}

/// A ring seen from another node has the same nodes.
pub(crate) proof fn lemma_turned_to_used(
    pts: Seq<Pt<Exact>>,
    used: spec_fn(usize) -> bool,
    r: Seq<int>,
    m: int,
)
    requires
        ring_used(pts, used, r),
        0 <= m < r.len(),
    ensures
        ring_used(pts, used, turned_to(r, m)),
{
    let s = turned_to(r, m);
    assert forall|k: int| 0 <= k < s.len() implies 0 <= (#[trigger] s[k]) < pts.len() && used(
        pts[s[k]].i,
    ) by {
        assert(s[k] == r[place(k, m, r.len() as int)]);
    }
}

/// The ring turned has the same nodes.
proof fn lemma_turned_nodes(r: Seq<int>)
    requires
        r.len() > 0,
    ensures
        forall|h: int| #[trigger] turned(r).contains(h) ==> r.contains(h),
{
    let t = turned(r);
    let n = r.len() as int;
    assert forall|h: int| #[trigger] t.contains(h) implies r.contains(h) by {
        let k = choose|k: int| 0 <= k < t.len() && t[k] == h;
        assert(t[k] == r[after(k, n)]);
    }
}

/// Nodes of a ring are of the same vertex exactly if they are at the same place.
proof fn lemma_same_vertex(
    pts: Seq<Pt<Exact>>,
    r: Seq<int>,
    a: int,
    b: int,
    used: spec_fn(usize) -> bool,
)
    requires
        sound_table(pts, used),
        ring_used(pts, used, r),
        0 <= a < r.len(),
        0 <= b < r.len(),
    ensures
        pts[r[a]].i == pts[r[b]].i <==> spots(integer(), pts, r)[a] == spots(integer(), pts, r)[b],
        coincide(pts, r[a], r[b]) <==> spots(integer(), pts, r)[a] == spots(integer(), pts, r)[b],
{
    let p = spots(integer(), pts, r);
    assert(0 <= r[a] < pts.len() && 0 <= r[b] < pts.len());
    lemma_corner(pts, r, a);
    lemma_corner(pts, r, b);
    lemma_whole(p[a].0, p[b].0);
    lemma_whole(p[a].1, p[b].1);
}

/// A corner that faces a point has it in its angle, and the other way round if the point is not in
/// line with its neighbours.
pub(crate) proof fn lemma_faces_angle(p: Seq<(int, int)>, i: int, d: (int, int))
    requires
        tri(prev(p, i), p[i], next(p, i)) != 0,
    ensures
        faces(p, i, d) ==> in_angle(p, i, d),
        in_angle(p, i, d) && tri(p[i], next(p, i), d) != 0 && tri(p[i], prev(p, i), d) != 0
            ==> faces(p, i, d),
{
    reveal(in_turn);
    lemma_tri(prev(p, i), p[i], next(p, i));
    lemma_tri(p[i], next(p, i), d);
    lemma_tri(p[i], prev(p, i), d);
    lemma_tri(p[i], prev(p, i), next(p, i));
}

/// A valid diagonal from the first node leads to a corner that it faces and that faces it.
#[verifier::spinoff_prover]
proof fn lemma_valid_faces(pts: Seq<Pt<Exact>>, r: Seq<int>, j: int, used: spec_fn(usize) -> bool)
    requires
        sound_table(pts, used),
        ring_used(pts, used, r),
        weakly_left(spots(integer(), pts, r)),
        2 <= j < r.len() - 1,
        splittable(pts, r, j),
    ensures
        ({
            let p = spots(integer(), pts, r);
            p[0] != p[j] && faces(p, 0, p[j]) && faces(p, j, p[0])
        }),
{
    let n = r.len() as int;
    let p = spots(integer(), pts, r);
    lemma_same_vertex(pts, r, 0, j, used);
    lemma_same_vertex(pts, r, 1, j, used);
    assert(succ(r, 0) == r[1] && pred(r, 0) == r[n - 1] && pred(r, j) == r[j - 1]);
    lemma_angle_found(pts, r, 0, j);
    lemma_angle_found(pts, r, j, 0);
    lemma_turn_found(pts, r, n - 1, 0, j - 1);
    lemma_turn_found(pts, r, 0, j - 1, j);
    lemma_bend(p, 0);
    lemma_bend(p, j);
    lemma_faces_angle(p, 0, p[j]);
    lemma_faces_angle(p, j, p[0]);
    assert(next(p, 0) == p[1] && prev(p, 0) == p[n - 1]);
    assert(next(p, j) == p[j + 1] && prev(p, j) == p[j - 1]);
    lemma_tri(p[n - 1], p[0], p[0]);
    lemma_tri(p[0], p[0], p[j]);
    assert(tri(p[0], p[1], p[j]) != 0);
    assert(next(p, n - 1) == p[0]);
    assert(p[n - 1] != p[j]) by {
        if p[n - 1] == p[j] {
            assert(p[j - 1] != p[0]);
            assert(tri(p[j], p[j - 1], p[0]) != 0);
            lemma_prev_differ(p, n - 1, j);
            assert(p[j + 1] != p[0]);
            assert(tri(p[j], p[j + 1], p[0]) != 0);
            lemma_other_corner(p, j, n - 1, 0);
        }
    }
    assert(tri(p[0], p[n - 1], p[j]) != 0);
    assert(faces(p, 0, p[j]));
    assert(p[j + 1] != p[0]) by {
        if p[j + 1] == p[0] {
            assert(prev(p, j + 1) == p[j]);
            lemma_other_corner(p, 0, j + 1, j);
        }
    }
    assert(p[j - 1] != p[0]) by {
        if p[j - 1] == p[0] {
            assert(next(p, j - 1) == p[j]);
            lemma_other_corner(p, 0, j - 1, j);
        }
    }
    assert(tri(p[j], p[j + 1], p[0]) != 0);
    assert(tri(p[j], p[j - 1], p[0]) != 0);
}

/// A ring can be split along a diagonal exactly if it can be cut there.
#[verifier::spinoff_prover]
proof fn lemma_weak_splittable(
    pts: Seq<Pt<Exact>>,
    r: Seq<int>,
    j: int,
    used: spec_fn(usize) -> bool,
)
    requires
        sound_table(pts, used),
        ring_used(pts, used, r),
        weakly_left(spots(integer(), pts, r)),
        2 <= j < r.len() - 1,
    ensures
        splittable(pts, r, j) <==> cuttable(spots(integer(), pts, r), j),
{
    let n = r.len() as int;
    let p = spots(integer(), pts, r);
    lemma_same_vertex(pts, r, 0, j, used);
    assert forall|k: int| 0 <= k < n && p[0] != p[j] implies (edge_meets(pts, r, j, k)
        <==> p[k] != p[0] && next(p, k) != p[0] && p[k] != p[j] && next(p, k) != p[j]
        && !#[trigger] uncrossed_by(p, k, p[0], p[j])) by {
        lemma_edge_judged(pts, r, j, k, used);
    }
    if splittable(pts, r, j) {
        lemma_valid_faces(pts, r, j, used);
        assert forall|k: int| 0 <= k < n implies #[trigger] uncrossed_by(p, k, p[0], p[j]) by {
            assert(!edge_meets(pts, r, j, k));
            let (u, v) = (p[k], next(p, k));
            lemma_tri(u, v, u);
            lemma_tri(u, v, v);
        }
    }
    if cuttable(p, j) {
        lemma_facing_end(p, 0, j);
        lemma_facing_end(p, j, 0);
        lemma_same_vertex(pts, r, 1, j, used);
        assert(succ(r, 0) == r[1] && pred(r, j) == r[j - 1]);
        lemma_angle_found(pts, r, 0, j);
        lemma_angle_found(pts, r, j, 0);
        lemma_bend(p, 0);
        lemma_bend(p, j);
        lemma_faces_angle(p, 0, p[j]);
        lemma_faces_angle(p, j, p[0]);
        assert(next(p, 0) == p[1] && prev(p, j) == p[j - 1]);
        lemma_turn_found(pts, r, 0, j - 1, j);
        assert(tri(p[0], p[j - 1], p[j]) != 0);
        assert(!intersects_polygon_spec(pts, r, j)) by {
            if intersects_polygon_spec(pts, r, j) {
                let k = choose|k: int| 0 <= k < r.len() && edge_meets(pts, r, j, k);
                assert(uncrossed_by(p, k, p[0], p[j]));
            }
        }
        let z = zoomed(p, 2);
        let m = weigh(p[0], p[j], 1, 1);
        lemma_weak_zoom(p, 2);
        lemma_zoom_cuttable(p, j, 2);
        lemma_weigh_on(p[0], p[j], 1, 1);
        lemma_zoomed_at(p, 2, 0);
        lemma_zoomed_at(p, 2, j);
        assert(m != z[0] && m != z[j]);
        lemma_along_diagonal(z, j, m);
        lemma_middle_inside(pts, r, j);
    }
}

/// Whether an edge meets a diagonal is found by whether it crosses it.
proof fn lemma_edge_judged(
    pts: Seq<Pt<Exact>>,
    r: Seq<int>,
    j: int,
    k: int,
    used: spec_fn(usize) -> bool,
)
    requires
        sound_table(pts, used),
        ring_used(pts, used, r),
        weakly_simple(spots(integer(), pts, r)),
        0 < j < r.len(),
        0 <= k < r.len(),
        spots(integer(), pts, r)[0] != spots(integer(), pts, r)[j],
    ensures
        ({
            let p = spots(integer(), pts, r);
            edge_meets(pts, r, j, k) <==> p[k] != p[0] && next(p, k) != p[0] && p[k] != p[j]
                && next(p, k) != p[j] && !uncrossed_by(p, k, p[0], p[j])
        }),
{
    let n = r.len() as int;
    let p = spots(integer(), pts, r);
    let m = after(k, n);
    lemma_meeting_found(pts, r, j, k);
    lemma_same_vertex(pts, r, k, 0, used);
    lemma_same_vertex(pts, r, m, 0, used);
    lemma_same_vertex(pts, r, k, j, used);
    lemma_same_vertex(pts, r, m, j, used);
    lemma_bend(p, k);
    if p[k] != p[0] && p[m] != p[0] && p[k] != p[j] && p[m] != p[j] {
        assert(tri(p[k], p[m], p[0]) != 0);
        assert(tri(p[k], p[m], p[j]) != 0);
        assert(tri(p[0], p[j], p[k]) != 0);
        assert(tri(p[0], p[j], p[m]) != 0);
        if uncrossed_by(p, k, p[0], p[j]) {
            lemma_clear(p[k], p[m], p[0], p[j]);
        }
    }
}

// ---------------------------------------------------------------------------------------------
// Ears as they are found
// ---------------------------------------------------------------------------------------------
/// The triangle of a node that is clipped is empty, and a ring of three nodes is clipped.
#[verifier::spinoff_prover]
proof fn lemma_weak_clippable(
    pts: Seq<Pt<Exact>>,
    r: Seq<int>,
    ord: Seq<int>,
    g: Grid<Exact>,
)
    requires
        moderate_table(pts),
        in_table(r, pts.len() as int),
        weakly_left(spots(integer(), pts, r)),
        !hashed(g),
    ensures
        clippable(pts, r, ord, g) ==> vacant(spots(integer(), pts, r), 0),
        r.len() == 3 ==> clippable(pts, r, ord, g),
{
    let n = r.len() as int;
    let val = integer();
    let p = spots(val, pts, r);
    let (a, b, c) = (r[n - 1], r[0], r[1]);
    lemma_moderate_places(pts);
    assert(0 <= a < pts.len() && 0 <= b < pts.len() && 0 <= c < pts.len());
    assert(prev(p, 0) == p[n - 1] && next(p, 0) == p[1]);
    assert(p[n - 1] == spot(val, pts, a) && p[0] == spot(val, pts, b) && p[1] == spot(val, pts, c));
    assert(area(pts, a, b, c).less_spec(zero::<Exact>()) <==> tri(p[n - 1], p[0], p[1]) > 0);
    if clippable(pts, r, ord, g) {
        assert forall|k: int| 0 <= k < n implies !#[trigger] enclosed(p, 0, p[k]) by {
            if enclosed(p, 0, p[k]) {
                let j = lemma_inner_corner(p, 0, k);
                lemma_tri(p[n - 1], p[0], p[0]);
                lemma_tri(p[0], p[1], p[1]);
                lemma_tri(p[n - 1], p[0], p[n - 1]);
                assert(2 <= j < n - 1);
                let h = r[j];
                assert(0 <= h < pts.len() && 0 <= r[j - 1] < pts.len() && 0 <= r[j + 1]
                    < pts.len());
                assert(pred(r, j) == r[j - 1] && succ(r, j) == r[j + 1]);
                assert(prev(p, j) == p[j - 1] && next(p, j) == p[j + 1]);
                assert(p[j] == spot(val, pts, h));
                assert(found_inside(pts, a, b, c, h));
                assert(zero::<Exact>().at_most_spec(area(pts, r[j - 1], h, r[j + 1])));
                assert(obstructs(pts, r, j));
            }
        }
    }
    if n == 3 {
        let m = lemma_ground_bound(p);
        assert(p[m] == p[m]);
        lemma_tri(p[0], p[1], p[2]);
    }
}

// ---------------------------------------------------------------------------------------------
// Nothing is dropped or cured
// ---------------------------------------------------------------------------------------------
/// No node of a weakly simple ring is degenerate, nor are edges of it cured.
proof fn lemma_weak_sound(pts: Seq<Pt<Exact>>, r: Seq<int>)
    requires
        moderate_table(pts),
        in_table(r, pts.len() as int),
        weakly_simple(spots(integer(), pts, r)),
    ensures
        !degenerate(pts, r),
        !curable(pts, r),
{
    let n = r.len() as int;
    let p = spots(integer(), pts, r);
    lemma_bend(p, 0);
    assert(next(p, 0) == p[1] && prev(p, 0) == p[n - 1]);
    lemma_corner(pts, r, 0);
    lemma_corner(pts, r, 1);
    lemma_whole(p[0].0, p[1].0);
    lemma_whole(p[0].1, p[1].1);
    lemma_turn_found(pts, r, n - 1, 0, 1);
    if n >= 4 {
        lemma_corner(pts, r, n - 1);
        lemma_corner(pts, r, 2);
        lemma_crossing_means(p[n - 1], p[0], p[1], p[2]);
        lemma_meeting(p[n - 1], p[0], p[1], p[2]);
        assert(next(p, n - 1) == p[0] && next(p, 1) == p[2]);
        assert(uncrossing(p, n - 1, 1));
    }
}

/// The ring turned by one node.
pub(crate) proof fn lemma_weak_turned(pts: Seq<Pt<Exact>>, r: Seq<int>)
    requires
        in_table(r, pts.len() as int),
        weakly_left(spots(integer(), pts, r)),
    ensures
        in_table(turned(r), pts.len() as int),
        weakly_left(spots(integer(), pts, turned(r))),
        turned(r).len() == r.len(),
{
    let p = spots(integer(), pts, r);
    assert(spots(integer(), pts, turned(r)) =~= seen_at(p, 1));
    lemma_weak_seen(p, 1);
    lemma_turned_in(r, pts.len() as int);
}

/// Sweeping a weakly simple ring drops nothing.
pub(crate) proof fn lemma_weak_swept(pts: Seq<Pt<Exact>>, r: Seq<int>, checked: nat)
    requires
        moderate_table(pts),
        in_table(r, pts.len() as int),
        weakly_left(spots(integer(), pts, r)),
    ensures
        swept(pts, r, checked).len() == r.len(),
        forall|h: int| #[trigger] swept(pts, r, checked).contains(h) ==> r.contains(h),
        in_table(swept(pts, r, checked), pts.len() as int),
        weakly_left(spots(integer(), pts, swept(pts, r, checked))),
    decreases r.len() - checked,
{
    lemma_weak_sound(pts, r);
    lemma_weak_turned(pts, r);
    lemma_turned_nodes(r);
    if checked + 1 < r.len() {
        lemma_weak_swept(pts, turned(r), checked + 1);
    }
}

/// Nothing is cut off from a weakly simple ring as an intersection.
proof fn lemma_weak_uncrossed(pts: Seq<Pt<Exact>>, r: Seq<int>, passed: nat)
    requires
        moderate_table(pts),
        in_table(r, pts.len() as int),
        weakly_left(spots(integer(), pts, r)),
    ensures
        uncrossed(pts, r, passed).tris.len() == 0,
        uncrossed(pts, r, passed).ring.len() == r.len(),
        forall|h: int| #[trigger] uncrossed(pts, r, passed).ring.contains(h) ==> r.contains(h),
        in_table(uncrossed(pts, r, passed).ring, pts.len() as int),
        weakly_left(spots(integer(), pts, uncrossed(pts, r, passed).ring)),
    decreases r.len() - passed,
{
    lemma_weak_sound(pts, r);
    lemma_weak_turned(pts, r);
    lemma_turned_nodes(r);
    if passed + 1 < r.len() {
        lemma_weak_uncrossed(pts, turned(r), passed + 1);
    }
}

// ---------------------------------------------------------------------------------------------
// Slicing
// ---------------------------------------------------------------------------------------------
/// What a weakly simple ring is sliced into is complete, with as many triangles as there can be,
/// and leaves a sound table.
pub open spec fn all_sliced(
    pts: Seq<Pt<Exact>>,
    r: Seq<int>,
    used: spec_fn(usize) -> bool,
    s: Sliced<Exact>,
) -> bool {
    &&& s.complete
    &&& s.tris.len() == 3 * (r.len() - 2)
    &&& sound_table(s.pts, used)
    &&& pts.is_prefix_of(s.pts)
}

/// A weakly simple ring with integer coordinates of moderate size that runs counterclockwise is
/// sliced completely.
pub(crate) proof fn lemma_weak_sliced(
    pts: Seq<Pt<Exact>>,
    r: Seq<int>,
    g: Grid<Exact>,
    used: spec_fn(usize) -> bool,
)
    requires
        sound_table(pts, used),
        ring_used(pts, used, r),
        weakly_left(spots(integer(), pts, r)),
        !hashed(g),
    ensures
        all_sliced(pts, r, used, sliced(pts, r, g)),
    decreases r.len(), 3int, 0int,
{
    lemma_weak_clipped(pts, r, Seq::empty(), 0, false, g, used);
}

/// What is left of a weakly simple ring is sliced completely.
#[verifier::spinoff_prover]
proof fn lemma_weak_clipped(
    pts: Seq<Pt<Exact>>,
    r: Seq<int>,
    ord: Seq<int>,
    passed: nat,
    cured_once: bool,
    g: Grid<Exact>,
    used: spec_fn(usize) -> bool,
)
    requires
        sound_table(pts, used),
        ring_used(pts, used, r),
        r.len() == 2 || weakly_left(spots(integer(), pts, r)),
        !hashed(g),
    ensures
        all_sliced(pts, r, used, clipped(pts, r, ord, passed, cured_once, g)),
    decreases
            r.len(),
            (if cured_once {
                1int
            } else {
                2int
            }),
            r.len() - passed,
{
    let n = r.len() as int;
    let p = spots(integer(), pts, r);
    if n > 2 {
        lemma_weak_clippable(pts, r, ord, g);
        lemma_weak_turned(pts, r);
        lemma_turned_nodes(r);
        lemma_nodes_used(pts, used, r, turned(r));
        if clippable(pts, r, ord, g) {
            let d = r.drop_first();
            assert(spots(integer(), pts, d) =~= p.drop_first());
            assert forall|k: int| 0 <= k < d.len() implies 0 <= #[trigger] d[k] < pts.len() && used(
                pts[d[k]].i,
            ) by {
                assert(d[k] == r[k + 1]);
            }
            if n >= 4 {
                lemma_weak_ear(p);
            }
            lemma_weak_clipped(pts, d, ord, 0, cured_once, g, used);
        } else if passed + 1 < n {
            lemma_weak_clipped(pts, turned(r), ord, passed + 1, cured_once, g, used);
        } else {
            let f = swept(pts, turned(r), 0);
            lemma_weak_swept(pts, turned(r), 0);
            lemma_nodes_used(pts, used, turned(r), f);
            if !cured_once {
                let c = cured(pts, f);
                lemma_weak_uncrossed(pts, f, 0);
                lemma_nodes_used(pts, used, f, c.ring);
                lemma_weak_clipped(pts, c.ring, ord, 0, true, g, used);
                let rest = clipped(pts, c.ring, ord, 0, true, g);
                assert(c.tris + rest.tris =~= rest.tris);
            } else {
                lemma_weak_halved(pts, f, g, used);
            }
        }
    }
}

/// A part of a ring keeps its nodes when it is healed.
pub(crate) proof fn lemma_weak_healed(pts: Seq<Pt<Exact>>, t: Seq<int>)
    requires
        moderate_table(pts),
        in_table(t, pts.len() as int),
        weakly_left(spots(integer(), pts, t)),
    ensures
        healed(pts, t) == turned(t),
        in_table(healed(pts, t), pts.len() as int),
        healed(pts, t).len() == t.len(),
        weakly_left(spots(integer(), pts, healed(pts, t))),
{
    lemma_weak_sound(pts, t);
    lemma_weak_turned(pts, t);
    lemma_weak_sound(pts, turned(t));
}

/// Doubling two nodes keeps a table sound.
pub(crate) proof fn lemma_sound_bridged(
    pts: Seq<Pt<Exact>>,
    a: int,
    b: int,
    used: spec_fn(usize) -> bool,
)
    requires
        sound_table(pts, used),
        0 <= a < pts.len(),
        0 <= b < pts.len(),
    ensures
        sound_table(bridged(pts, a, b), used),
        pts.is_prefix_of(bridged(pts, a, b)),
{
    let n = pts.len() as int;
    let all = bridged(pts, a, b);
    let f = |h: int|
        if h < n {
            h
        } else if h == n {
            a
        } else {
            b
        };
    assert forall|h: int| 0 <= h < all.len() implies 0 <= f(h) < n && (#[trigger] all[h]).i
        == pts[f(h)].i && spot(integer(), all, h) == spot(integer(), pts, f(h)) && moderate_node(
        all[h],
    ) by {
        assert(moderate_node(pts[f(h)]));
    }
    assert forall|h: int, k: int|
        0 <= h < all.len() && 0 <= k < all.len() && used((#[trigger] all[h]).i) && used(
            (#[trigger] all[k]).i,
        ) implies (all[h].i == all[k].i <==> spot(integer(), all, h) == spot(
        integer(),
        all,
        k,
    )) by {
        assert(pts[f(h)].i == pts[f(k)].i <==> spot(integer(), pts, f(h)) == spot(
            integer(),
            pts,
            f(k),
        ));
    }
}

/// The parts of a ring that is split, as corners.
proof fn lemma_part_spots(pts: Seq<Pt<Exact>>, s: Seq<int>, j: int)
    requires
        in_table(s, pts.len() as int),
        2 <= j < s.len() - 1,
    ensures
        ({
            let n = pts.len() as int;
            let q = spots(integer(), pts, s);
            let all = bridged(pts, s[0], s[j]);
            let (near, far) = (near_part(s, j), far_part(s, j, n));
            &&& in_table(near, n + 2)
            &&& in_table(far, n + 2)
            &&& spots(integer(), all, near) == late(q, j)
            &&& spots(integer(), all, far) == seen_at(early(q, j), j)
            &&& near.len() + far.len() == s.len() + 2
        }),
{
    let n = pts.len() as int;
    let q = spots(integer(), pts, s);
    let all = bridged(pts, s[0], s[j]);
    let (near, far) = (near_part(s, j), far_part(s, j, n));
    let (a, b) = (spots(integer(), all, near), spots(integer(), all, far));
    assert(0 <= s[0] < n && 0 <= s[j] < n);
    assert forall|k: int| 0 <= k < near.len() implies 0 <= #[trigger] near[k] < n + 2 && a[k]
        == late(q, j)[k] by {
        let m = if k == 0 {
            0
        } else {
            k + j - 1
        };
        assert(near[k] == s[m] && 0 <= s[m] < n);
        if k > 0 {
            lemma_late_at(q, j, k);
        }
    }
    assert(a =~= late(q, j));
    let e = early(q, j);
    assert forall|k: int| 0 <= k < far.len() implies 0 <= #[trigger] far[k] < n + 2 && b[k]
        == seen_at(e, j)[k] by {
        lemma_seen_at(e, j, k);
        if k >= 2 {
            assert(far[k] == s[k - 1] && 0 <= s[k - 1] < n);
        }
    }
    assert(b =~= seen_at(e, j));
}

/// A weakly simple ring of at least four nodes is split where it can be cut.
proof fn lemma_weak_split(pts: Seq<Pt<Exact>>, r: Seq<int>, used: spec_fn(usize) -> bool)
    requires
        sound_table(pts, used),
        ring_used(pts, used, r),
        weakly_left(spots(integer(), pts, r)),
        r.len() >= 4,
    ensures
        first_split(pts, r, r.len() as int) matches Some((s, j)) && s.len() == r.len() && 2 <= j
            < s.len() - 1 && ring_used(pts, used, s) && weakly_left(spots(integer(), pts, s))
            && cuttable(spots(integer(), pts, s), j),
{
    let n = r.len() as int;
    let p = spots(integer(), pts, r);
    let (a, b) = lemma_weak_diagonal(p);
    let k = lemma_inner_cuttable(p, a, b);
    lemma_weak_turned_to(pts, r, a);
    lemma_turned_to_used(pts, used, r, a);
    lemma_weak_splittable(pts, turned_to(r, a), k, used);
    lemma_split_found(pts, r, n, a, k);
    let m = lemma_split_turn(pts, r, n);
    let (s, j) = first_split(pts, r, n)->0;
    lemma_first_split(pts, r, n);
    lemma_weak_turned_to(pts, r, m);
    lemma_turned_to_used(pts, used, r, m);
    lemma_weak_splittable(pts, s, j, used);
}

/// The parts of a weakly simple ring that is split, healed.
proof fn lemma_weak_parts(pts: Seq<Pt<Exact>>, s: Seq<int>, j: int, used: spec_fn(usize) -> bool)
    requires
        sound_table(pts, used),
        ring_used(pts, used, s),
        weakly_left(spots(integer(), pts, s)),
        cuttable(spots(integer(), pts, s), j),
    ensures
        ({
            let all = bridged(pts, s[0], s[j]);
            let u = healed(all, near_part(s, j));
            let v = healed(all, far_part(s, j, pts.len() as int));
            &&& sound_table(all, used)
            &&& pts.is_prefix_of(all)
            &&& ring_used(all, used, u)
            &&& ring_used(all, used, v)
            &&& weakly_left(spots(integer(), all, u))
            &&& weakly_left(spots(integer(), all, v))
            &&& u.len() + v.len() == s.len() + 2
            &&& u.len() < s.len()
            &&& v.len() < s.len()
        }),
{
    let q = spots(integer(), pts, s);
    let all = bridged(pts, s[0], s[j]);
    let (near, far) = (near_part(s, j), far_part(s, j, pts.len() as int));
    assert(0 <= s[0] < pts.len() && 0 <= s[j] < pts.len());
    lemma_weak_cut(q, j);
    lemma_sound_bridged(pts, s[0], s[j], used);
    lemma_part_spots(pts, s, j);
    lemma_weak_seen(early(q, j), j);
    lemma_weak_healed(all, near);
    lemma_weak_healed(all, far);
    let n = pts.len() as int;
    assert forall|k: int| 0 <= k < near.len() implies 0 <= (#[trigger] near[k]) < all.len() && used(
        all[near[k]].i,
    ) by {
        let m = if k == 0 {
            0
        } else {
            k + j - 1
        };
        assert(near[k] == s[m] && 0 <= s[m] < n);
        assert(all[s[m]] == pts[s[m]]);
    }
    assert forall|k: int| 0 <= k < far.len() implies 0 <= (#[trigger] far[k]) < all.len() && used(
        all[far[k]].i,
    ) by {
        if k >= 2 {
            assert(far[k] == s[k - 1] && 0 <= s[k - 1] < n);
            assert(all[s[k - 1]] == pts[s[k - 1]]);
        }
    }
    lemma_turned_nodes(near);
    lemma_turned_nodes(far);
    lemma_nodes_used(all, used, near, turned(near));
    lemma_nodes_used(all, used, far, turned(far));
}

/// A ring is the same in a table that more nodes have been added to.
pub(crate) proof fn lemma_prefix_spots(pts: Seq<Pt<Exact>>, more: Seq<Pt<Exact>>, r: Seq<int>)
    requires
        pts.is_prefix_of(more),
        in_table(r, pts.len() as int),
    ensures
        in_table(r, more.len() as int),
        spots(integer(), more, r) == spots(integer(), pts, r),
{
    assert(pts.len() <= more.len());
    assert forall|i: int| 0 <= i < r.len() implies spot(integer(), more, #[trigger] r[i]) == spot(
        integer(),
        pts,
        r[i],
    ) by {
        assert(0 <= r[i] < pts.len());
        assert(more[r[i]] == pts[r[i]]);
    }
    assert(spots(integer(), more, r) =~= spots(integer(), pts, r));
}

/// A weakly simple ring of at least four nodes is split along a diagonal, and its parts are sliced
/// completely.
proof fn lemma_weak_halved(
    pts: Seq<Pt<Exact>>,
    r: Seq<int>,
    g: Grid<Exact>,
    used: spec_fn(usize) -> bool,
)
    requires
        sound_table(pts, used),
        ring_used(pts, used, r),
        weakly_left(spots(integer(), pts, r)),
        r.len() >= 4,
        !hashed(g),
    ensures
        all_sliced(pts, r, used, halved(pts, r, g)),
    decreases r.len(), 0int, 0int,
{
    lemma_weak_split(pts, r, used);
    let (s, j) = first_split(pts, r, r.len() as int)->0;
    lemma_weak_parts(pts, s, j, used);
    let all = bridged(pts, s[0], s[j]);
    let u = healed(all, near_part(s, j));
    let v = healed(all, far_part(s, j, pts.len() as int));
    lemma_weak_sliced(all, u, g, used);
    let one = sliced(all, u, g);
    lemma_prefix_spots(all, one.pts, v);
    assert forall|k: int| 0 <= k < v.len() implies 0 <= (#[trigger] v[k]) < one.pts.len() && used(
        one.pts[v[k]].i,
    ) by {
        assert(0 <= v[k] < all.len());
        assert(all[v[k]] == one.pts[v[k]]);
    }
    lemma_weak_sliced(one.pts, v, g, used);
    let two = sliced(one.pts, v, g);
    assert(pts.is_prefix_of(two.pts)) by {
        assert forall|h: int| 0 <= h < pts.len() implies pts[h] == two.pts[h] by {
            assert(pts[h] == all[h]);
            assert(all[h] == one.pts[h]);
            assert(one.pts[h] == two.pts[h]);
        }
    }
}

/// A weakly simple ring, seen from another node.
pub(crate) proof fn lemma_weak_turned_to(pts: Seq<Pt<Exact>>, r: Seq<int>, m: int)
    requires
        in_table(r, pts.len() as int),
        weakly_left(spots(integer(), pts, r)),
        0 <= m < r.len(),
    ensures
        in_table(turned_to(r, m), pts.len() as int),
        spots(integer(), pts, turned_to(r, m)) == seen_at(spots(integer(), pts, r), m),
        weakly_left(spots(integer(), pts, turned_to(r, m))),
{
    let n = r.len() as int;
    let p = spots(integer(), pts, r);
    let s = turned_to(r, m);
    assert(spots(integer(), pts, s) =~= seen_at(p, m));
    lemma_weak_seen(p, m);
    assert forall|k: int| 0 <= k < s.len() implies 0 <= #[trigger] s[k] < pts.len() by {
        assert(s[k] == r[place(k, m, n)]);
    }
}

} // verus!
