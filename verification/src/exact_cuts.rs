//! Ears and diagonals of rings with integer coordinates, however they run.
use vstd::prelude::*;
use crate::areas::tri;
use crate::diagonals::{in_angle, off_ring, weigh};
use crate::exact::Exact;
use crate::exact_areas::integer;
use crate::exact_diagonals::{
    lemma_angle_found, lemma_corner, lemma_meeting_found, lemma_middle_inside, lemma_turn_found,
};
use crate::exact_simple::lemma_moderate_places;
use crate::fresh_index::{lemma_order, moderate_node, moderate_table};
use crate::geometry::{hashed, Grid};
use crate::meeting::{lemma_apart_means, share_point};
use crate::model::{
    after, clippable, coincide, edge_meets, intersects_polygon_spec, is_ear_spec, obstructs, pred,
    succ, valid_diagonal, Pt,
};
use crate::rings::is_ring;
use crate::simple_polygons::{found_inside, spots};
use crate::winding::{inside, winding};
use crate::zooming::zoomed;

verus! {

/// The first node of a ring, however that runs, is cut off as an ear exactly if the ring turns left
/// there, and no other node but its neighbours lies in their triangle, unless it lies at the node
/// before it or the ring turns left there too.
pub proof fn lemma_ear_found(pts: Seq<Pt<Exact>>, r: Seq<int>, ord: Seq<int>, g: Grid<Exact>)
    requires
        moderate_table(pts),
        is_ring(r, pts.len() as int),
        r.len() >= 3,
        !hashed(g),
    ensures
        ({
            let p = spots(integer(), pts, r);
            let n = r.len() as int;
            let (a, b, c) = (p[n - 1], p[0], p[1]);
            clippable(pts, r, ord, g) <==> tri(a, b, c) > 0 && forall|k: int|
                2 <= k < n - 1 ==> #[trigger] p[k] == a || tri(p[k - 1], p[k], p[k + 1]) > 0 || tri(
                    a,
                    b,
                    p[k],
                ) < 0 || tri(b, c, p[k]) < 0 || tri(c, a, p[k]) < 0
        }),
{
    let p = spots(integer(), pts, r);
    let n = r.len() as int;
    let (a, b, c) = (p[n - 1], p[0], p[1]);
    lemma_moderate_places(pts);
    lemma_turn_found(pts, r, n - 1, 0, 1);
    assert(0 <= r[n - 1] < pts.len() && 0 <= r[0] < pts.len() && 0 <= r[1] < pts.len());
    if tri(a, b, c) > 0 {
        assert forall|k: int| 2 <= k < n - 1 implies (obstructs(pts, r, k) <==> !(#[trigger] p[k]
            == a || tri(p[k - 1], p[k], p[k + 1]) > 0 || tri(a, b, p[k]) < 0 || tri(b, c, p[k]) < 0
            || tri(c, a, p[k]) < 0)) by {
            assert(0 <= r[k] < pts.len() && 0 <= r[k - 1] < pts.len() && 0 <= r[k + 1] < pts.len());
            lemma_turn_found(pts, r, k - 1, k, k + 1);
            assert(found_inside(pts, r[n - 1], r[0], r[1], r[k]) <==> inside(a, b, c, p[k]) && a
                != p[k]);
            assert(pred(r, k) == r[k - 1] && succ(r, k) == r[k + 1]);
        }
        if is_ear_spec(pts, r) {
            assert forall|k: int| 2 <= k < n - 1 implies #[trigger] p[k] == a || tri(
                p[k - 1],
                p[k],
                p[k + 1],
            ) > 0 || tri(a, b, p[k]) < 0 || tri(b, c, p[k]) < 0 || tri(c, a, p[k]) < 0 by {
                assert(!obstructs(pts, r, k));
            }
        } else {
            let k = choose|k: int| 2 <= k < n - 1 && obstructs(pts, r, k);
            assert(p[k] == p[k]);
        }
    }
}

/// A diagonal from the first node of a ring, however that runs, whose middle is not on the ring, or
/// of no length between nodes at which the ring turns right, is valid exactly if its end is not the
/// vertex next to its start, and no edge without their vertices has a point in common with it, and
/// it is of no length or both ends lie in each other's angles, not all on one line with the nodes
/// before them, and the ring runs an odd number of times around its middle.
pub proof fn lemma_diagonal_found(pts: Seq<Pt<Exact>>, r: Seq<int>, j: int)
    requires
        moderate_table(pts),
        is_ring(r, pts.len() as int),
        2 <= j < r.len() - 1,
        ({
            let p = spots(integer(), pts, r);
            let n = r.len() as int;
            ||| off_ring(zoomed(p, 2), weigh(p[0], p[j], 1, 1))
            ||| p[0] == p[j] && tri(p[n - 1], p[0], p[1]) < 0 && tri(p[j - 1], p[j], p[j + 1]) < 0
        }),
    ensures
        ({
            let p = spots(integer(), pts, r);
            let n = r.len() as int;
            let touch = p[0] == p[j] && tri(p[n - 1], p[0], p[1]) < 0 && tri(
                p[j - 1],
                p[j],
                p[j + 1],
            ) < 0;
            valid_diagonal(pts, r, j) <==> {
                &&& pts[r[1]].i != pts[r[j]].i
                &&& forall|k: int|
                    #![trigger r[k]]
                    0 <= k < n ==> {
                        let m = if k + 1 == n {
                            0
                        } else {
                            k + 1
                        };
                        ||| pts[r[k]].i == pts[r[0]].i || pts[r[k]].i == pts[r[j]].i
                        ||| pts[r[m]].i == pts[r[0]].i || pts[r[m]].i == pts[r[j]].i
                        ||| !share_point(p[k], p[m], p[0], p[j])
                    }
                &&& touch || {
                    &&& in_angle(p, 0, p[j])
                    &&& in_angle(p, j, p[0])
                    &&& tri(p[n - 1], p[0], p[j - 1]) != 0 || tri(p[0], p[j - 1], p[j]) != 0
                    &&& winding(zoomed(p, 2), weigh(p[0], p[j], 1, 1)) % 2 != 0
                }
            }
        }),
{
    let p = spots(integer(), pts, r);
    let n = r.len() as int;
    lemma_corner(pts, r, 0);
    lemma_corner(pts, r, j);
    lemma_angle_found(pts, r, 0, j);
    lemma_angle_found(pts, r, j, 0);
    lemma_turn_found(pts, r, n - 1, 0, 1);
    lemma_turn_found(pts, r, j - 1, j, j + 1);
    lemma_turn_found(pts, r, n - 1, 0, j - 1);
    lemma_turn_found(pts, r, 0, j - 1, j);
    if off_ring(zoomed(p, 2), weigh(p[0], p[j], 1, 1)) {
        lemma_middle_inside(pts, r, j);
    }
    assert(pred(r, 0) == r[n - 1] && succ(r, 0) == r[1] && pred(r, j) == r[j - 1] && succ(r, j)
        == r[j + 1]);
    assert(0 <= r[0] < pts.len() && 0 <= r[j] < pts.len());
    assert(moderate_node(pts[r[0]]) && moderate_node(pts[r[j]]));
    lemma_order(pts[r[0]].x, pts[r[j]].x);
    lemma_order(pts[r[0]].y, pts[r[j]].y);
    assert(coincide(pts, r[0], r[j]) <==> p[0] == p[j]);
    let clear = |k: int|
        {
            let m = if k + 1 == n {
                0
            } else {
                k + 1
            };
            ||| pts[r[k]].i == pts[r[0]].i || pts[r[k]].i == pts[r[j]].i
            ||| pts[r[m]].i == pts[r[0]].i || pts[r[m]].i == pts[r[j]].i
            ||| !share_point(p[k], p[m], p[0], p[j])
        };
    assert forall|k: int| #![trigger r[k]] 0 <= k < n implies (edge_meets(pts, r, j, k) <==> !clear(
        k,
    )) by {
        let m = after(k, n);
        lemma_meeting_found(pts, r, j, k);
        lemma_corner(pts, r, k);
        lemma_apart_means(p[k], p[m], p[0], p[j]);
    }
    if intersects_polygon_spec(pts, r, j) {
        let k = choose|k: int| 0 <= k < r.len() && edge_meets(pts, r, j, k);
        assert(r[k] == r[k]);
        assert(!clear(k));
    } else {
        assert forall|k: int| #![trigger r[k]] 0 <= k < n implies clear(k) by {
            assert(!edge_meets(pts, r, j, k));
        }
    }
}

} // verus!
