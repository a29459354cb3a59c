//! Rings with integer coordinates: what sweeping leaves of them, and what is cut off where their
//! edges cross.
use vstd::prelude::*;
use crate::areas::tri;
use crate::diagonals::in_angle;
use crate::exact::Exact;
use crate::exact_areas::integer;
use crate::exact_diagonals::{lemma_angle_found, lemma_corner, lemma_turn_found};
use crate::fresh_index::{lemma_order, moderate_node, moderate_table};
use crate::laws::lemma_swept_fixpoint;
use crate::meeting::{cross_inside, lemma_meeting};
use crate::model::{
    curable, cured, degenerate, lemma_uncrossed_len, swept, turned, turned_to, uncrossed, Pt,
};
use crate::rings::{is_ring, lemma_swept_ring, lemma_turned_to_ring, lemma_uncrossed_ring};
use crate::scaling::lemma_shortcut_ring;
use crate::segments::lemma_differences;
use crate::simple::seen_at;
use crate::simple_polygons::spots;
use crate::tips::{lemma_swept_whole, lemma_uncrossed_whole};

verus! {

// ---------------------------------------------------------------------------------------------
// Sweeping
// ---------------------------------------------------------------------------------------------
/// The first node of a ring is dropped exactly if it is no Steiner point and lies at the next one
/// or on a line with both neighbours.
pub(crate) proof fn lemma_degenerate_found(pts: Seq<Pt<Exact>>, r: Seq<int>)
    requires
        moderate_table(pts),
        is_ring(r, pts.len() as int),
        r.len() >= 2,
    ensures
        ({
            let p = spots(integer(), pts, r);
            degenerate(pts, r) <==> !pts[r[0]].steiner && (p[0] == p[1] || tri(
                p.last(),
                p[0],
                p[1],
            ) == 0)
        }),
{
    let n = r.len() as int;
    assert(0 <= r[0] < pts.len() && 0 <= r[1] < pts.len());
    assert(moderate_node(pts[r[0]]) && moderate_node(pts[r[1]]));
    lemma_order(pts[r[0]].x, pts[r[1]].x);
    lemma_order(pts[r[0]].y, pts[r[1]].y);
    lemma_turn_found(pts, r, n - 1, 0, 1);
}

/// Of the nodes that sweeping leaves none but Steiner points lies at the next one, or on a line
/// with both neighbours.
pub proof fn lemma_swept_bent(pts: Seq<Pt<Exact>>, r: Seq<int>, j: int)
    requires
        moderate_table(pts),
        is_ring(r, pts.len() as int),
        0 <= j < swept(pts, r, 0).len(),
        swept(pts, r, 0).len() >= 2,
    ensures
        ({
            let s = swept(pts, r, 0);
            let n = s.len() as int;
            let a = pts[s[if j == 0 {
                n - 1
            } else {
                j - 1
            }]];
            let b = pts[s[j]];
            let c = pts[s[if j == n - 1 {
                0
            } else {
                j + 1
            }]];
            b.steiner || {
                &&& b.x.num != c.x.num || b.y.num != c.y.num
                &&& (b.x.num - a.x.num) * (c.y.num - b.y.num) != (b.y.num - a.y.num) * (c.x.num
                    - b.x.num)
            }
        }),
{
    let s = swept(pts, r, 0);
    let n = s.len() as int;
    let t = turned_to(s, j);
    lemma_swept_ring(pts, r, 0, pts.len() as int);
    lemma_turned_to_ring(s, j, pts.len() as int);
    lemma_swept_fixpoint(pts, r, j);
    lemma_degenerate_found(pts, t);
    let p = spots(integer(), pts, t);
    let (a, b, c) = (p[n - 1], p[0], p[1]);
    lemma_differences(b.0, a.0, c.1, b.1);
    lemma_differences(b.1, a.1, c.0, b.0);
}

/// Sweeping drops nothing of a ring whose nodes differ from the next ones, and lie on no lines with
/// both neighbours.
pub proof fn lemma_swept_whole_ring(pts: Seq<Pt<Exact>>, r: Seq<int>)
    requires
        moderate_table(pts),
        is_ring(r, pts.len() as int),
        r.len() >= 2,
        forall|j: int|
            #![trigger r[j]]
            0 <= j < r.len() ==> {
                let p = seen_at(spots(integer(), pts, r), j);
                p[0] != p[1] && tri(p.last(), p[0], p[1]) != 0
            },
    ensures
        swept(pts, r, 0).len() == r.len(),
        forall|k: int| 0 <= k < r.len() ==> swept(pts, r, 0).contains(#[trigger] r[k]),
{
    assert forall|j: int| 0 <= j < r.len() implies !#[trigger] degenerate(pts, turned_to(r, j)) by {
        assert(0 <= r[j] < pts.len());
        lemma_turned_to_ring(r, j, pts.len() as int);
        lemma_degenerate_found(pts, turned_to(r, j));
        assert(spots(integer(), pts, turned_to(r, j)) =~= seen_at(spots(integer(), pts, r), j));
    }
    assert(turned_to(r, 0) =~= r);
    lemma_swept_lap(pts, r, 0);
    assert forall|k: int| 0 <= k < r.len() implies swept(pts, r, 0).contains(#[trigger] r[k]) by {
        assert(r.contains(r[k]));
        lemma_swept_whole(pts, r, 0, r[k]);
    }
}

/// A lap over a ring without degenerate nodes drops nothing.
proof fn lemma_swept_lap(pts: Seq<Pt<Exact>>, r: Seq<int>, m: int)
    requires
        0 <= m < r.len(),
        forall|j: int| 0 <= j < r.len() ==> !#[trigger] degenerate(pts, turned_to(r, j)),
    ensures
        swept(pts, turned_to(r, m), m as nat).len() == r.len(),
    decreases r.len() - m,
{
    let t = turned_to(r, m);
    if m + 1 < r.len() {
        assert(turned(t) =~= turned_to(r, m + 1));
        lemma_swept_lap(pts, r, m + 1);
    }
}

// ---------------------------------------------------------------------------------------------
// Crossing edges
// ---------------------------------------------------------------------------------------------
/// The edges before and after the first edge of the ring cross, and their far ends lie in each
/// other's angles.
pub open spec fn crossed(p: Seq<(int, int)>) -> bool {
    let n = p.len() as int;
    &&& n >= 4
    &&& cross_inside(p[n - 1], p[0], p[1], p[2])
    &&& in_angle(p, n - 1, p[2])
    &&& in_angle(p, 2, p[n - 1])
}

/// Crossing edges are found.
proof fn lemma_crossed_found(pts: Seq<Pt<Exact>>, r: Seq<int>)
    requires
        moderate_table(pts),
        is_ring(r, pts.len() as int),
    ensures
        curable(pts, r) <==> crossed(spots(integer(), pts, r)),
{
    let n = r.len() as int;
    if n >= 4 {
        let p = spots(integer(), pts, r);
        lemma_corner(pts, r, n - 1);
        lemma_corner(pts, r, 0);
        lemma_corner(pts, r, 1);
        lemma_corner(pts, r, 2);
        lemma_meeting(p[n - 1], p[0], p[1], p[2]);
        lemma_angle_found(pts, r, n - 1, 2);
        lemma_angle_found(pts, r, 2, n - 1);
    }
}

/// Where the edges around an edge of the ring cross, and they do around none before it, the first
/// triangle that curing cuts off is that of the edge and the far end of the edge after it, and the
/// ends of the edge are gone.
pub proof fn lemma_cut_off(pts: Seq<Pt<Exact>>, r: Seq<int>, m: int)
    requires
        moderate_table(pts),
        is_ring(r, pts.len() as int),
        0 <= m < r.len(),
        crossed(seen_at(spots(integer(), pts, r), m)),
        forall|k: int| 0 <= k < m ==> !#[trigger] crossed(seen_at(spots(integer(), pts, r), k)),
    ensures
        ({
            let c = cured(pts, r);
            let n = r.len() as int;
            &&& c.tris.len() >= 3
            &&& c.tris[0] == pts[r[(m + n - 1) % n]].i
            &&& c.tris[1] == pts[r[m]].i
            &&& c.tris[2] == pts[r[(m + 2) % n]].i
            &&& !c.ring.contains(r[m])
            &&& !c.ring.contains(r[(m + 1) % n])
        }),
{
    let n = r.len() as int;
    let t = turned_to(r, m);
    let rest = t.subrange(3, n).push(t[2]);
    let u = uncrossed(pts, r, 0);
    assert(turned_to(r, 0) =~= r);
    lemma_lap_to(pts, r, 0, m);
    lemma_turned_to_ring(r, m, pts.len() as int);
    lemma_shortcut_ring(t, pts.len() as int);
    lemma_uncrossed_ring(pts, rest, 1, pts.len() as int);
    lemma_swept_ring(pts, u.ring, 0, pts.len() as int);
    assert(n >= 4);
    assert(t[0] == r[m]);
    assert((m + n - 1) % n == (if m == 0 {
        n - 1
    } else {
        m - 1
    }) && (m + 1) % n == (if m + 1 < n {
        m + 1
    } else {
        m + 1 - n
    }) && (m + 2) % n == (if m + 2 < n {
        m + 2
    } else {
        m + 2 - n
    })) by (nonlinear_arith)
        requires
            0 <= m < n,
            n >= 4,
    ;
    assert(t[n - 1] == r[(m + n - 1) % n] && t[1] == r[(m + 1) % n] && t[2] == r[(m + 2) % n]);
    assert forall|h: int| #[trigger] rest.contains(h) implies h != t[0] && h != t[1] by {
        let k = choose|k: int| 0 <= k < rest.len() && rest[k] == h;
        if k < n - 3 {
            assert(rest[k] == t[k + 3]);
        } else {
            assert(rest[k] == t[2]);
        }
    }
    let w = uncrossed(pts, rest, 1);
    assert(u.ring == w.ring);
    if swept(pts, u.ring, 0).contains(t[0]) {
        assert(u.ring.contains(t[0]));
        assert(rest.contains(t[0]));
    }
    if swept(pts, u.ring, 0).contains(t[1]) {
        assert(u.ring.contains(t[1]));
        assert(rest.contains(t[1]));
    }
}

/// A lap passes over edges around which none cross.
#[verifier::rlimit(30)]
proof fn lemma_lap_to(pts: Seq<Pt<Exact>>, r: Seq<int>, k: int, m: int)
    requires
        moderate_table(pts),
        is_ring(r, pts.len() as int),
        0 <= k <= m < r.len(),
        crossed(seen_at(spots(integer(), pts, r), m)),
        forall|i: int| 0 <= i < m ==> !#[trigger] crossed(seen_at(spots(integer(), pts, r), i)),
    ensures
        ({
            let t = turned_to(r, m);
            let w = uncrossed(pts, t.subrange(3, r.len() as int).push(t[2]), 1);
            let u = uncrossed(pts, turned_to(r, k), k as nat);
            &&& u.tris == seq![pts[t.last()].i, pts[t[0]].i, pts[t[2]].i] + w.tris
            &&& u.ring == w.ring
        }),
    decreases m - k,
{
    let t = turned_to(r, k);
    lemma_turned_to_ring(r, k, pts.len() as int);
    lemma_crossed_found(pts, t);
    assert(spots(integer(), pts, t) =~= seen_at(spots(integer(), pts, r), k));
    if k < m {
        assert(turned(t) =~= turned_to(r, k + 1));
        lemma_lap_to(pts, r, k + 1, m);
    }
}

/// Where the edges around no edge of the ring cross, curing cuts nothing off and drops nothing.
pub proof fn lemma_nothing_to_cut(pts: Seq<Pt<Exact>>, r: Seq<int>)
    requires
        moderate_table(pts),
        is_ring(r, pts.len() as int),
        forall|k: int|
            0 <= k < r.len() ==> !#[trigger] crossed(seen_at(spots(integer(), pts, r), k)),
    ensures
        cured(pts, r).tris.len() == 0,
        cured(pts, r).ring.len() == r.len(),
        forall|k: int| 0 <= k < r.len() ==> cured(pts, r).ring.contains(#[trigger] r[k]),
{
    assert(turned_to(r, 0) =~= r);
    lemma_whole_lap(pts, r, 0);
    lemma_uncrossed_len(pts, r, 0);
    assert forall|k: int| 0 <= k < r.len() implies cured(pts, r).ring.contains(#[trigger] r[k]) by {
        assert(r.contains(r[k]));
        lemma_uncrossed_whole(pts, r, 0, r[k]);
    }
}

/// A lap over a ring around none of whose edges others cross cuts nothing off.
proof fn lemma_whole_lap(pts: Seq<Pt<Exact>>, r: Seq<int>, k: int)
    requires
        moderate_table(pts),
        is_ring(r, pts.len() as int),
        0 <= k < r.len(),
        forall|i: int|
            0 <= i < r.len() ==> !#[trigger] crossed(seen_at(spots(integer(), pts, r), i)),
    ensures
        uncrossed(pts, turned_to(r, k), k as nat).tris.len() == 0,
    decreases r.len() - k,
{
    let t = turned_to(r, k);
    lemma_turned_to_ring(r, k, pts.len() as int);
    lemma_crossed_found(pts, t);
    assert(spots(integer(), pts, t) =~= seen_at(spots(integer(), pts, r), k));
    if k + 1 < r.len() {
        assert(turned(t) =~= turned_to(r, k + 1));
        lemma_whole_lap(pts, r, k + 1);
    }
}

} // verus!
