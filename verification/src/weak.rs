//! Rings that may touch themselves at corners and run back along their edges: linking holes into a
//! simple ring makes it such a ring.
use vstd::prelude::*;
use crate::areas::tri;
use crate::model::{after, before};
use crate::segments::{
    apart, crossing, lemma_four, lemma_side, lemma_signs, lemma_tri, on, side, under,
};
use crate::simple::{lemma_below, uncrossing};
use crate::winding::{
    change, changes, lemma_apart_swapped, lemma_change, lemma_in_angle, lemma_off_angle,
    lemma_passings, lemma_wedge, near, next, prev, wedge, winding, winding_left,
};
use crate::zooming::{
    lemma_zoom_crossing, lemma_zoom_tri, lemma_zoom_under, lemma_zoomed_at, zoom, zoomed,
};

verus! {

// ---------------------------------------------------------------------------------------------
// Directions
// ---------------------------------------------------------------------------------------------
/// Seen from `o`, the points `a`, `b` and `c` follow each other counterclockwise.
#[verifier::opaque]
pub open spec fn in_turn(o: (int, int), a: (int, int), b: (int, int), c: (int, int)) -> bool {
    ||| tri(o, a, b) > 0 && tri(o, b, c) > 0
    ||| tri(o, b, c) > 0 && tri(o, c, a) > 0
    ||| tri(o, c, a) > 0 && tri(o, a, b) > 0
}

/// Three directions follow each other one way or the other.
pub(crate) proof fn lemma_turns(o: (int, int), a: (int, int), b: (int, int), c: (int, int))
    requires
        tri(o, a, b) != 0,
        tri(o, b, c) != 0,
        tri(o, a, c) != 0,
    ensures
        in_turn(o, a, b, c) == in_turn(o, b, c, a),
        in_turn(o, a, b, c) == in_turn(o, c, a, b),
        in_turn(o, a, b, c) == !in_turn(o, a, c, b),
        in_turn(o, a, b, c) == !in_turn(o, c, b, a),
        in_turn(o, a, b, c) == !in_turn(o, b, a, c),
{
    reveal(in_turn);
    lemma_tri(o, a, b);
    lemma_tri(o, b, c);
    lemma_tri(o, a, c);
}

/// Nothing lies between a direction and another right at one of them.
pub(crate) proof fn lemma_turn_ends(o: (int, int), a: (int, int), b: (int, int))
    requires
        tri(o, a, b) != 0,
    ensures
        !in_turn(o, a, a, b),
        !in_turn(o, a, b, b),
{
    reveal(in_turn);
    lemma_tri(o, a, b);
    lemma_tri(o, a, a);
    lemma_tri(o, b, b);
}

/// Of directions that follow each other, those in between do so as well.
#[verifier::spinoff_prover]
pub(crate) proof fn lemma_turns_follow(
    o: (int, int),
    a: (int, int),
    b: (int, int),
    c: (int, int),
    e: (int, int),
)
    requires
        tri(o, a, b) != 0,
        tri(o, a, c) != 0,
        tri(o, a, e) != 0,
        tri(o, b, c) != 0,
        tri(o, b, e) != 0,
        tri(o, c, e) != 0,
        in_turn(o, a, b, c),
        in_turn(o, a, c, e),
    ensures
        in_turn(o, a, b, e),
        in_turn(o, b, c, e),
{
    reveal(in_turn);
    lemma_four(side(o, e), o, a, b, c);
    lemma_side(o, e, o);
    lemma_side(o, e, a);
    lemma_side(o, e, b);
    lemma_side(o, e, c);
    lemma_tri(o, e, o);
    lemma_tri(o, a, e);
    lemma_tri(o, b, e);
    lemma_tri(o, c, e);
    lemma_tri(o, a, b);
    lemma_tri(o, a, c);
    lemma_tri(o, b, c);
    let (ab, ac, ae, bc, be, ce) = (
        tri(o, a, b),
        tri(o, a, c),
        tri(o, a, e),
        tri(o, b, c),
        tri(o, b, e),
        tri(o, c, e),
    );
    lemma_signs(tri(a, b, c), 0);
    lemma_signs(bc, tri(o, e, a));
    lemma_signs(ac, tri(o, e, b));
    lemma_signs(ab, tri(o, e, c));
}

// ---------------------------------------------------------------------------------------------
// Corners
// ---------------------------------------------------------------------------------------------
/// The corner at place `i` faces the point: seen from the corner, it lies to the left of the ring.
pub open spec fn faces(p: Seq<(int, int)>, i: int, d: (int, int)) -> bool {
    in_turn(p[i], next(p, i), d, prev(p, i))
}

/// No three corners at different places lie on one line.
pub open spec fn scattered(p: Seq<(int, int)>) -> bool {
    forall|a: int, b: int, c: int|
        0 <= a < p.len() && 0 <= b < p.len() && 0 <= c < p.len() && p[a] != p[b] && p[b] != p[c]
            && p[a] != p[c] ==> #[trigger] tri(p[a], p[b], p[c]) != 0
}

/// The ring does not stay at the corner at place `i`, nor turn back there.
pub open spec fn bent(p: Seq<(int, int)>, i: int) -> bool {
    p[i] != next(p, i) && p[i] != prev(p, i) && prev(p, i) != next(p, i)
}

/// The corners at places `i` and `j`, which are the same point, get along: the first faces neither
/// neighbour of the second, and they have different points next.
pub open spec fn sharing(p: Seq<(int, int)>, i: int, j: int) -> bool {
    &&& !faces(p, i, next(p, j))
    &&& !faces(p, i, prev(p, j))
    &&& next(p, i) != next(p, j)
}

/// The ring is weakly simple: no two edges cross, and where it comes back to a point, it keeps to
/// one side of itself. No three of its points lie on one line.
pub open spec fn weakly_simple(p: Seq<(int, int)>) -> bool {
    &&& p.len() >= 3
    &&& scattered(p)
    &&& forall|i: int| 0 <= i < p.len() ==> #[trigger] bent(p, i)
    &&& forall|i: int, j: int|
        0 <= i < p.len() && 0 <= j < p.len() ==> #[trigger] uncrossing(p, i, j)
    &&& forall|i: int, j: int|
        0 <= i < p.len() && 0 <= j < p.len() && i != j && p[i] == p[j] ==> #[trigger] sharing(
            p,
            i,
            j,
        )
}

/// Corners at one point come from different points.
pub(crate) proof fn lemma_prev_differ(p: Seq<(int, int)>, i: int, j: int)
    requires
        weakly_simple(p),
        0 <= i < p.len(),
        0 <= j < p.len(),
        i != j,
        p[i] == p[j],
    ensures
        prev(p, i) != prev(p, j),
        next(p, i) != next(p, j),
{
    let n = p.len() as int;
    assert(sharing(p, i, j));
    let (k, l) = (before(i, n), before(j, n));
    if prev(p, i) == prev(p, j) {
        assert(k != l);
        assert(next(p, k) == p[i] && next(p, l) == p[j]);
        assert(sharing(p, k, l));
    }
}

/// At a corner the ring turns.
pub(crate) proof fn lemma_bend(p: Seq<(int, int)>, i: int)
    requires
        weakly_simple(p),
        0 <= i < p.len(),
    ensures
        bent(p, i),
        tri(prev(p, i), p[i], next(p, i)) != 0,
        tri(p[i], next(p, i), prev(p, i)) != 0,
        tri(p[i], prev(p, i), next(p, i)) != 0,
{
    let n = p.len() as int;
    assert(bent(p, i));
    assert(tri(p[before(i, n)], p[i], p[after(i, n)]) != 0);
    lemma_tri(prev(p, i), p[i], next(p, i));
}

/// The corners at one point face a point at most once.
pub(crate) proof fn lemma_faces_once(p: Seq<(int, int)>, i: int, j: int, d: (int, int))
    requires
        weakly_simple(p),
        0 <= i < p.len(),
        0 <= j < p.len(),
        i != j,
        p[i] == p[j],
        faces(p, i, d),
        tri(p[i], next(p, i), d) != 0,
        tri(p[i], prev(p, i), d) != 0,
        tri(p[j], next(p, j), d) != 0,
        tri(p[j], prev(p, j), d) != 0,
    ensures
        !faces(p, j, d),
{
    let n = p.len() as int;
    if faces(p, j, d) {
        let o = p[i];
        let (a, b, c, e) = (next(p, i), prev(p, i), next(p, j), prev(p, j));
        lemma_bend(p, i);
        lemma_bend(p, j);
        lemma_prev_differ(p, i, j);
        assert(sharing(p, i, j) && sharing(p, j, i));
        assert(tri(p[i], p[after(i, n)], p[after(j, n)]) != 0);
        lemma_tri(o, a, d);
        lemma_tri(o, b, d);
        lemma_tri(o, c, d);
        lemma_tri(o, e, d);
        lemma_tri(o, a, b);
        lemma_tri(o, a, c);
        // from c over a to d, and on to e
        assert(in_turn(o, c, a, d)) by {
            lemma_turns(o, a, d, b);
            if c == b {
            } else {
                assert(tri(p[i], p[before(i, n)], p[after(j, n)]) != 0);
                lemma_tri(o, b, c);
                lemma_turns(o, a, c, b);
                lemma_turns(o, b, a, d);
                lemma_turns_follow(o, b, c, a, d);
            }
        }
        if a != e {
            assert(tri(p[i], p[after(i, n)], p[before(j, n)]) != 0);
            lemma_tri(o, c, e);
            lemma_turns_follow(o, c, a, d, e);
        } else {
            lemma_turns(o, c, d, e);
            lemma_turns(o, c, a, d);
        }
    }
}

/// At most one of the corners at a point turns right.
pub(crate) proof fn lemma_reflex_once(p: Seq<(int, int)>, i: int, j: int)
    requires
        weakly_simple(p),
        0 <= i < p.len(),
        0 <= j < p.len(),
        i != j,
        p[i] == p[j],
        tri(prev(p, i), p[i], next(p, i)) < 0,
    ensures
        tri(prev(p, j), p[j], next(p, j)) > 0,
{
    reveal(in_turn);
    let n = p.len() as int;
    let o = p[i];
    lemma_bend(p, i);
    lemma_bend(p, j);
    assert(sharing(p, i, j) && sharing(p, j, i));
    assert(tri(p[i], p[after(i, n)], p[after(j, n)]) != 0);
    lemma_tri(prev(p, i), o, next(p, i));
    lemma_tri(prev(p, j), o, next(p, j));
    lemma_tri(o, next(p, i), next(p, j));
}

// ---------------------------------------------------------------------------------------------
// What corners add to windings
// ---------------------------------------------------------------------------------------------
/// What a corner at `o`, from `v` to `n`, adds to the winding around points near it in the
/// direction of `d`, compared to that around `o`.
pub open spec fn turn_of(v: (int, int), o: (int, int), n: (int, int), d: (int, int)) -> int {
    wedge(o, d, n) - wedge(o, d, v)
}

/// What a corner adds in the directions that it does not face.
pub open spec fn turn_away(v: (int, int), o: (int, int), n: (int, int)) -> int {
    (if under(o, n) {
        1int
    } else {
        0
    }) - 1 - wedge(o, n, v)
}

/// A corner adds one more in the directions that it faces than in others.
#[verifier::spinoff_prover]
pub(crate) proof fn lemma_turn_of(
    v: (int, int),
    o: (int, int),
    n: (int, int),
    d: (int, int),
)
    requires
        tri(v, o, n) != 0,
        d != o,
        tri(o, n, d) != 0,
        tri(o, v, d) != 0,
    ensures
        turn_of(v, o, n, d) == turn_away(v, o, n) + if in_turn(o, n, d, v) {
            1int
        } else {
            0
        },
{
    reveal(in_turn);
    lemma_tri(v, o, n);
    lemma_tri(o, n, d);
    lemma_tri(o, v, d);
    lemma_tri(o, n, v);
    lemma_tri(o, n, n);
    lemma_tri(o, v, v);
    let p = seq![v, o, n];
    let q = seq![n, o, v];
    assert(prev(p, 1) == v && p[1] == o && next(p, 1) == n);
    assert(prev(q, 1) == n && q[1] == o && next(q, 1) == v);
    assert(near(p, 1, d) == winding(p, o) + turn_of(v, o, n, d));
    assert(near(q, 1, d) == winding(q, o) + turn_of(n, o, v, d));
    assert(winding_left(p, 1) == winding(p, o) + turn_away(v, o, n) + 1);
    assert(winding_left(q, 1) == winding(q, o) + turn_away(n, o, v) + 1);
    if tri(v, o, n) > 0 {
        if tri(o, n, d) > 0 && tri(o, d, v) > 0 {
            lemma_in_angle(p, 1, d);
        } else {
            lemma_off_angle(p, 1, d);
        }
    } else {
        assert(tri(n, o, v) > 0);
        if tri(o, v, d) > 0 && tri(o, d, n) > 0 {
            lemma_in_angle(q, 1, d);
        } else {
            lemma_off_angle(q, 1, d);
        }
        assert(v != o && n != o) by {
            lemma_tri(v, v, n);
            lemma_tri(v, n, n);
        }
        assert(turn_away(v, o, n) == -turn_away(n, o, v) - 1);
    }
}

/// What a corner adds in the directions of its neighbours.
pub(crate) proof fn lemma_turn_along(v: (int, int), o: (int, int), n: (int, int))
    requires
        tri(v, o, n) != 0,
    ensures
        turn_of(v, o, n, n) == turn_away(v, o, n) + if under(o, n) {
            0int
        } else {
            1
        },
        turn_of(v, o, n, v) == turn_away(v, o, n) + if under(o, v) {
            1int
        } else {
            0
        },
{
    lemma_tri(v, o, n);
    lemma_tri(o, n, n);
    lemma_tri(o, v, v);
    lemma_tri(o, n, v);
    lemma_tri(v, v, n);
    lemma_tri(v, n, n);
}

/// What the first `k` corners of a ring that are at `o` add in the direction of `d`.
pub open spec fn turns_at(p: Seq<(int, int)>, o: (int, int), d: (int, int), k: int) -> int
    decreases k,
{
    if k <= 0 {
        0
    } else {
        turns_at(p, o, d, k - 1) + if p[k - 1] == o {
            turn_of(prev(p, k - 1), o, next(p, k - 1), d)
        } else {
            0
        }
    }
}

/// What the first `k` corners of a ring that are at `o` add where they face nothing.
pub open spec fn turns_away(p: Seq<(int, int)>, o: (int, int), k: int) -> int
    decreases k,
{
    if k <= 0 {
        0
    } else {
        turns_away(p, o, k - 1) + if p[k - 1] == o {
            turn_away(prev(p, k - 1), o, next(p, k - 1))
        } else {
            0
        }
    }
}

/// The winding around points near `o` that no corner there faces.
pub open spec fn ground(p: Seq<(int, int)>, o: (int, int)) -> int {
    winding(p, o) + turns_away(p, o, p.len() as int)
}

/// How much more than away from it the corner at place `j` adds, if it is one of the first `k` and
/// at `o`.
pub(crate) open spec fn turn_more(
    p: Seq<(int, int)>,
    o: (int, int),
    d: (int, int),
    k: int,
    j: int,
) -> int {
    if 0 <= j < k && p[j] == o {
        turn_of(prev(p, j), o, next(p, j), d) - turn_away(prev(p, j), o, next(p, j))
    } else {
        0
    }
}

/// What corners add in a direction that at most two of them have to do with.
pub(crate) proof fn lemma_turns_at(
    p: Seq<(int, int)>,
    o: (int, int),
    d: (int, int),
    k: int,
    a: int,
    b: int,
)
    requires
        0 <= k <= p.len(),
        a != b,
        forall|j: int|
            0 <= j < p.len() && j != a && j != b ==> #[trigger] turn_more(
                p,
                o,
                d,
                p.len() as int,
                j,
            ) == 0,
    ensures
        turns_at(p, o, d, k) == turns_away(p, o, k) + turn_more(p, o, d, k, a) + turn_more(
            p,
            o,
            d,
            k,
            b,
        ),
    decreases k,
{
    if k > 0 {
        lemma_turns_at(p, o, d, k - 1, a, b);
        assert(k - 1 != a && k - 1 != b ==> turn_more(p, o, d, p.len() as int, k - 1) == 0);
    }
}

/// If corners add more in a direction than away from it, one of them does.
pub(crate) proof fn lemma_turns_more(
    p: Seq<(int, int)>,
    o: (int, int),
    d: (int, int),
    k: int,
) -> (j: int)
    requires
        0 <= k <= p.len(),
        turns_at(p, o, d, k) > turns_away(p, o, k),
    ensures
        0 <= j < k,
        p[j] == o,
        turn_more(p, o, d, p.len() as int, j) > 0,
    decreases k,
{
    let l = k - 1;
    if p[l] == o && turn_more(p, o, d, p.len() as int, l) > 0 {
        l
    } else {
        lemma_turns_more(p, o, d, k - 1)
    }
}

// ---------------------------------------------------------------------------------------------
// Along a segment
// ---------------------------------------------------------------------------------------------
/// The edge is apart from the segment, or ends where that does.
pub open spec fn clear_of(u: (int, int), v: (int, int), q: (int, int), w: (int, int)) -> bool {
    apart(u, v, q, w) || u == q || u == w || v == q || v == w
}

/// The edge at place `i` is clear of the segment.
pub open spec fn edge_clear(p: Seq<(int, int)>, i: int, q: (int, int), w: (int, int)) -> bool {
    p[i] != next(p, i) && clear_of(p[i], next(p, i), q, w)
}

/// What an edge that ends at the place `k` adds, if that is an end of the segment.
spec fn ended(p: Seq<(int, int)>, q: (int, int), w: (int, int), k: int) -> int {
    let i = if k < p.len() {
        k
    } else {
        0
    };
    (if p[i] == q {
        wedge(q, w, prev(p, i))
    } else {
        0
    }) - (if p[i] == w {
        wedge(w, q, prev(p, i))
    } else {
        0
    })
}

/// The changes of the first `k` edges along a segment upwards.
#[verifier::spinoff_prover]
proof fn lemma_changes(p: Seq<(int, int)>, q: (int, int), w: (int, int), k: int)
    requires
        p.len() >= 2,
        under(q, w),
        0 <= k <= p.len(),
        forall|i: int| 0 <= i < p.len() ==> #[trigger] edge_clear(p, i, q, w),
    ensures
        changes(p, q, w, k) == turns_at(p, w, q, k) - turns_at(p, q, w, k) + ended(p, q, w, k)
            - ended(p, q, w, 0),
    decreases k,
{
    let n = p.len() as int;
    if k > 0 {
        let i = k - 1;
        lemma_changes(p, q, w, i);
        let (u, v) = (p[i], next(p, i));
        assert(edge_clear(p, i, q, w));
        let j = after(i, n);
        assert(prev(p, j) == u && p[j] == v);
        if apart(u, v, q, w) && u != q && u != w && v != q && v != w {
            lemma_change(u, v, q, w);
        }
        lemma_wedge(q, w, u);
        lemma_wedge(q, w, v);
        lemma_wedge(w, q, u);
        lemma_wedge(w, q, v);
        lemma_tri(q, w, w);
        lemma_tri(w, q, q);
        assert(change(u, v, q, w) == (if u == q {
            -wedge(q, w, v)
        } else {
            0
        }) + (if v == q {
            wedge(q, w, u)
        } else {
            0
        }) + (if u == w {
            wedge(w, q, v)
        } else {
            0
        }) - (if v == w {
            wedge(w, q, u)
        } else {
            0
        }));
    }
}

/// Along a segment that all edges are clear of, the winding is the same at both ends.
pub(crate) proof fn lemma_sight_line(p: Seq<(int, int)>, q: (int, int), w: (int, int))
    requires
        p.len() >= 2,
        q != w,
        forall|i: int| 0 <= i < p.len() ==> #[trigger] edge_clear(p, i, q, w),
    ensures
        winding(p, q) + turns_at(p, q, w, p.len() as int) == winding(p, w) + turns_at(
            p,
            w,
            q,
            p.len() as int,
        ),
{
    let n = p.len() as int;
    if under(q, w) {
        lemma_changes(p, q, w, n);
        lemma_passings(p, q, w, n);
    } else {
        assert forall|i: int| 0 <= i < p.len() implies #[trigger] edge_clear(p, i, w, q) by {
            assert(edge_clear(p, i, q, w));
            lemma_apart_swapped(p[i], next(p, i), q, w);
        }
        lemma_changes(p, w, q, n);
        lemma_passings(p, w, q, n);
    }
}

/// No corner is at a place, so none adds anything there.
pub(crate) proof fn lemma_no_turns(p: Seq<(int, int)>, o: (int, int), d: (int, int), k: int)
    requires
        0 <= k <= p.len(),
        forall|j: int| 0 <= j < p.len() ==> #[trigger] p[j] != o,
    ensures
        turns_at(p, o, d, k) == 0,
        turns_away(p, o, k) == 0,
    decreases k,
{
    if k > 0 {
        lemma_no_turns(p, o, d, k - 1);
        assert(p[k - 1] != o);
    }
}

// ---------------------------------------------------------------------------------------------
// Around a ring
// ---------------------------------------------------------------------------------------------
/// Segments that do not cross are apart if none of their ends are on one line.
pub(crate) proof fn lemma_clear(u: (int, int), v: (int, int), q: (int, int), w: (int, int))
    requires
        tri(u, v, q) != 0,
        tri(u, v, w) != 0,
        tri(q, w, u) != 0,
        tri(q, w, v) != 0,
        !crossing(u, v, q, w),
    ensures
        apart(u, v, q, w),
{
}

/// An edge is clear of another edge.
pub(crate) proof fn lemma_edge_clear(p: Seq<(int, int)>, k: int, i: int)
    requires
        weakly_simple(p),
        0 <= k < p.len(),
        0 <= i < p.len(),
    ensures
        clear_of(p[k], next(p, k), p[i], next(p, i)),
{
    let n = p.len() as int;
    let (u, v, q, w) = (p[k], next(p, k), p[i], next(p, i));
    assert(bent(p, k) && bent(p, i));
    if u != q && u != w && v != q && v != w {
        assert(uncrossing(p, k, i));
        let (l, j) = (after(k, n), after(i, n));
        assert(tri(p[k], p[l], p[i]) != 0);
        assert(tri(p[k], p[l], p[j]) != 0);
        assert(tri(p[i], p[j], p[k]) != 0);
        assert(tri(p[i], p[j], p[l]) != 0);
    }
}

/// The corners at one point add nothing more in a direction that they do not face.
pub(crate) proof fn lemma_not_faced(p: Seq<(int, int)>, j: int, d: (int, int))
    requires
        weakly_simple(p),
        0 <= j < p.len(),
        d != p[j],
        tri(p[j], next(p, j), d) != 0,
        tri(p[j], prev(p, j), d) != 0,
    ensures
        turn_more(p, p[j], d, p.len() as int, j) == if faces(p, j, d) {
            1int
        } else {
            0
        },
{
    lemma_bend(p, j);
    lemma_turn_of(prev(p, j), p[j], next(p, j), d);
}

/// The corners at the start of an edge, in its direction.
proof fn lemma_start_turns(p: Seq<(int, int)>, i: int, j: int)
    requires
        weakly_simple(p),
        0 <= i < p.len(),
        j == -1 || (0 <= j < p.len() && p[j] == p[i] && prev(p, j) == next(p, i)),
        j == -1 ==> forall|k: int|
            0 <= k < p.len() && p[k] == p[i] ==> prev(p, k) != #[trigger] next(p, i),
    ensures
        turns_at(p, p[i], next(p, i), p.len() as int) == turns_away(p, p[i], p.len() as int) + (
        if under(p[i], next(p, i)) {
            0int
        } else {
            1
        }) + (if j >= 0 && under(p[i], next(p, i)) {
            1int
        } else {
            0
        }),
{
    let n = p.len() as int;
    let (v, w) = (p[i], next(p, i));
    lemma_bend(p, i);
    assert(i != j);
    assert forall|k: int| 0 <= k < n && k != i && k != j implies #[trigger] turn_more(
        p,
        v,
        w,
        n,
        k,
    ) == 0 by {
        if p[k] == v {
            lemma_prev_differ(p, k, i);
            if j >= 0 {
                lemma_prev_differ(p, k, j);
            }
            assert(prev(p, k) != w);
            lemma_bend(p, k);
            assert(tri(p[k], p[after(k, n)], p[after(i, n)]) != 0);
            assert(tri(p[k], p[before(k, n)], p[after(i, n)]) != 0);
            lemma_not_faced(p, k, w);
            assert(sharing(p, k, i));
        }
    }
    lemma_turns_at(p, v, w, n, i, j);
    lemma_turn_along(prev(p, i), v, w);
    if j >= 0 {
        lemma_bend(p, j);
        lemma_turn_along(prev(p, j), v, next(p, j));
    }
}

/// The corners at the end of an edge, back along it.
proof fn lemma_end_turns(p: Seq<(int, int)>, i: int, j: int)
    requires
        weakly_simple(p),
        0 <= i < p.len(),
        j == -1 || (0 <= j < p.len() && p[j] == p[i] && next(p, j) == prev(p, i)),
        j == -1 ==> forall|k: int|
            0 <= k < p.len() && p[k] == p[i] ==> next(p, k) != #[trigger] prev(p, i),
    ensures
        turns_at(p, p[i], prev(p, i), p.len() as int) == turns_away(p, p[i], p.len() as int) + (
        if under(p[i], prev(p, i)) {
            1int
        } else {
            0
        }) + (if j >= 0 && !under(p[i], prev(p, i)) {
            1int
        } else {
            0
        }),
{
    let n = p.len() as int;
    let (v, w) = (p[i], prev(p, i));
    lemma_bend(p, i);
    assert(i != j);
    assert forall|k: int| 0 <= k < n && k != i && k != j implies #[trigger] turn_more(
        p,
        v,
        w,
        n,
        k,
    ) == 0 by {
        if p[k] == v {
            lemma_prev_differ(p, k, i);
            if j >= 0 {
                lemma_prev_differ(p, k, j);
            }
            assert(next(p, k) != w);
            lemma_bend(p, k);
            assert(tri(p[k], p[after(k, n)], p[before(i, n)]) != 0);
            assert(tri(p[k], p[before(k, n)], p[before(i, n)]) != 0);
            lemma_not_faced(p, k, w);
            assert(sharing(p, k, i));
        }
    }
    lemma_turns_at(p, v, w, n, i, j);
    lemma_turn_along(w, v, next(p, i));
    if j >= 0 {
        lemma_bend(p, j);
        lemma_turn_along(prev(p, j), v, next(p, j));
    }
}

/// The winding where nothing is faced is the same at both ends of an edge.
#[verifier::spinoff_prover]
proof fn lemma_ground_step(p: Seq<(int, int)>, i: int)
    requires
        weakly_simple(p),
        0 <= i < p.len(),
    ensures
        ground(p, p[i]) == ground(p, next(p, i)),
{
    let n = p.len() as int;
    let l = after(i, n);
    let (v, w) = (p[i], p[l]);
    lemma_bend(p, i);
    assert(prev(p, l) == v);
    assert forall|k: int| 0 <= k < p.len() implies #[trigger] edge_clear(p, k, v, w) by {
        assert(bent(p, k));
        lemma_edge_clear(p, k, i);
    }
    lemma_sight_line(p, v, w);
    if exists|k: int| 0 <= k < n && p[k] == w && #[trigger] next(p, k) == v {
        let k = choose|k: int| 0 <= k < n && p[k] == w && #[trigger] next(p, k) == v;
        let j = after(k, n);
        assert(prev(p, j) == w);
        lemma_start_turns(p, i, j);
        lemma_end_turns(p, l, k);
    } else {
        assert forall|k: int| 0 <= k < p.len() && p[k] == p[i] implies prev(p, k)
            != #[trigger] next(p, i) by {
            let b = before(k, n);
            assert(next(p, b) == p[k]);
        }
        lemma_start_turns(p, i, -1);
        lemma_end_turns(p, l, -1);
    }
}

/// The winding where nothing is faced is the same all along a ring.
pub(crate) proof fn lemma_ground_along(p: Seq<(int, int)>, i: int)
    requires
        weakly_simple(p),
        0 <= i < p.len(),
    ensures
        ground(p, p[i]) == ground(p, p[0]),
    decreases i,
{
    if i > 0 {
        lemma_ground_along(p, i - 1);
        lemma_ground_step(p, i - 1);
    }
}

/// A corner that no other comes below.
proof fn lemma_bottom(p: Seq<(int, int)>, k: int) -> (m: int)
    requires
        1 <= k <= p.len(),
    ensures
        0 <= m < k,
        forall|j: int| 0 <= j < k ==> p[m] == #[trigger] p[j] || under(p[m], p[j]),
    decreases k,
{
    if k == 1 {
        0
    } else {
        let m = lemma_bottom(p, k - 1);
        if p[m] == p[k - 1] || under(p[m], p[k - 1]) {
            m
        } else {
            assert forall|j: int| 0 <= j < k implies p[k - 1] == #[trigger] p[j] || under(
                p[k - 1],
                p[j],
            ) by {
                if j < k - 1 {
                    assert(p[m] == p[j] || under(p[m], p[j]));
                }
            }
            k - 1
        }
    }
}

/// What the first corners at a point add where they face nothing, if at most one adds anything.
proof fn lemma_turns_away(p: Seq<(int, int)>, o: (int, int), k: int, a: int)
    requires
        0 <= k <= p.len(),
        forall|j: int|
            0 <= j < p.len() && j != a && #[trigger] p[j] == o ==> turn_away(
                prev(p, j),
                o,
                next(p, j),
            ) == 0,
    ensures
        turns_away(p, o, k) == if 0 <= a < k && p[a] == o {
            turn_away(prev(p, a), o, next(p, a))
        } else {
            0
        },
    decreases k,
{
    if k > 0 {
        lemma_turns_away(p, o, k - 1, a);
        assert(p[k - 1] == p[k - 1]);
    }
}

/// A lowest corner, and what it tells: where nothing is faced, a weakly simple ring does not run
/// around points at all, or once clockwise if it turns right at a lowest corner.
pub(crate) proof fn lemma_ground_bound(p: Seq<(int, int)>) -> (m: int)
    requires
        weakly_simple(p),
    ensures
        0 <= m < p.len(),
        forall|j: int| 0 <= j < p.len() ==> p[m] == #[trigger] p[j] || under(p[m], p[j]),
        ground(p, p[0]) == 0 || ground(p, p[0]) == -1,
        ground(p, p[0]) == 0 <==> forall|j: int|
            0 <= j < p.len() && #[trigger] p[j] == p[m] ==> tri(prev(p, j), p[j], next(p, j)) > 0,
{
    let n = p.len() as int;
    let m = lemma_bottom(p, n);
    let o = p[m];
    lemma_ground_along(p, m);
    lemma_below(p, o, n);
    assert forall|j: int| 0 <= j < n && #[trigger] p[j] == o implies turn_away(
        prev(p, j),
        o,
        next(p, j),
    ) == (if tri(prev(p, j), p[j], next(p, j)) > 0 {
        0int
    } else {
        -1
    }) by {
        lemma_bend(p, j);
        let (v, w) = (p[before(j, n)], p[after(j, n)]);
        assert(under(o, v) && under(o, w));
        lemma_tri(v, o, w);
    }
    if exists|j: int|
        0 <= j < n && #[trigger] p[j] == o && tri(prev(p, j), p[j], next(p, j)) <= 0 {
        let a = choose|j: int|
            0 <= j < n && #[trigger] p[j] == o && tri(prev(p, j), p[j], next(p, j)) <= 0;
        lemma_bend(p, a);
        assert forall|j: int| 0 <= j < n && j != a && #[trigger] p[j] == o implies turn_away(
            prev(p, j),
            o,
            next(p, j),
        ) == 0 by {
            lemma_reflex_once(p, a, j);
        }
        lemma_turns_away(p, o, n, a);
    } else {
        lemma_turns_away(p, o, n, -1);
    }
    m
}

/// The ring is weakly simple and runs counterclockwise: it runs once around what its corners face.
pub open spec fn weakly_left(p: Seq<(int, int)>) -> bool {
    weakly_simple(p) && ground(p, p[0]) == 0
}

/// No corner at the same point as the one at place `i` has a neighbour in line with the point.
pub open spec fn off_rays(p: Seq<(int, int)>, i: int, d: (int, int)) -> bool {
    forall|k: int|
        0 <= k < p.len() && #[trigger] p[k] == p[i] ==> tri(p[i], next(p, k), d) != 0 && tri(
            p[i],
            prev(p, k),
            d,
        ) != 0
}

/// What the corners at one point add in the direction of a point that one of them faces.
pub(crate) proof fn lemma_faced_point(p: Seq<(int, int)>, i: int, d: (int, int))
    requires
        weakly_simple(p),
        0 <= i < p.len(),
        d != p[i],
        faces(p, i, d),
        off_rays(p, i, d),
    ensures
        turns_at(p, p[i], d, p.len() as int) == turns_away(p, p[i], p.len() as int) + 1,
{
    let n = p.len() as int;
    assert forall|k: int| 0 <= k < n && k != i && k != -1 implies #[trigger] turn_more(
        p,
        p[i],
        d,
        n,
        k,
    ) == 0 by {
        if p[k] == p[i] {
            lemma_faces_once(p, i, k, d);
            lemma_not_faced(p, k, d);
        }
    }
    lemma_turns_at(p, p[i], d, n, i, -1);
    assert(p[i] == p[i]);
    lemma_not_faced(p, i, d);
}

// ---------------------------------------------------------------------------------------------
// Magnified
// ---------------------------------------------------------------------------------------------
/// Directions follow each other as they do magnified.
pub(crate) proof fn lemma_zoom_turns(
    k: int,
    o: (int, int),
    a: (int, int),
    b: (int, int),
    c: (int, int),
)
    requires
        k > 0,
    ensures
        in_turn(zoom(o, k), zoom(a, k), zoom(b, k), zoom(c, k)) == in_turn(o, a, b, c),
{
    reveal(in_turn);
    lemma_zoom_tri(k, o, a, b);
    lemma_zoom_tri(k, o, b, c);
    lemma_zoom_tri(k, o, c, a);
}

/// A weakly simple ring is so magnified.
#[verifier::spinoff_prover]
pub(crate) proof fn lemma_weak_zoom(p: Seq<(int, int)>, k: int)
    requires
        k > 0,
        weakly_simple(p),
    ensures
        weakly_simple(zoomed(p, k)),
        weakly_left(p) ==> weakly_left(zoomed(p, k)),
{
    let n = p.len() as int;
    let z = zoomed(p, k);
    assert forall|a: int, b: int, c: int|
        0 <= a < n && 0 <= b < n && 0 <= c < n && z[a] != z[b] && z[b] != z[c] && z[a]
            != z[c] implies #[trigger] tri(z[a], z[b], z[c]) != 0 by {
        assert(tri(p[a], p[b], p[c]) != 0);
        lemma_zoom_tri(k, p[a], p[b], p[c]);
    }
    assert forall|i: int| 0 <= i < n implies #[trigger] bent(z, i) by {
        assert(bent(p, i));
        lemma_zoomed_at(p, k, i);
        lemma_zoom_under(k, p[i], next(p, i));
        lemma_zoom_under(k, p[i], prev(p, i));
        lemma_zoom_under(k, prev(p, i), next(p, i));
    }
    assert forall|i: int, j: int| 0 <= i < n && 0 <= j < n implies #[trigger] uncrossing(
        z,
        i,
        j,
    ) by {
        assert(uncrossing(p, i, j));
        lemma_zoomed_at(p, k, i);
        lemma_zoomed_at(p, k, j);
        lemma_zoom_crossing(k, p[i], next(p, i), p[j], next(p, j));
    }
    assert forall|i: int, j: int|
        0 <= i < n && 0 <= j < n && i != j && z[i] == z[j] implies #[trigger] sharing(z, i, j) by {
        lemma_zoomed_at(p, k, i);
        lemma_zoomed_at(p, k, j);
        lemma_zoom_under(k, p[i], p[j]);
        assert(sharing(p, i, j));
        lemma_zoom_under(k, next(p, i), next(p, j));
        lemma_zoom_turns(k, p[i], next(p, i), next(p, j), prev(p, i));
        lemma_zoom_turns(k, p[i], next(p, i), prev(p, j), prev(p, i));
    }
    if weakly_left(p) {
        let l = lemma_ground_bound(p);
        let m = lemma_ground_bound(z);
        assert(p[l] == p[m]) by {
            assert(z[m] == z[l] || under(z[m], z[l]));
            assert(p[l] == p[m] || under(p[l], p[m]));
            lemma_zoom_under(k, p[m], p[l]);
        }
        assert forall|j: int| 0 <= j < n && #[trigger] z[j] == z[m] implies tri(
            prev(z, j),
            z[j],
            next(z, j),
        ) > 0 by {
            lemma_zoomed_at(p, k, j);
            lemma_zoom_under(k, p[j], p[m]);
            assert(p[j] == p[l]);
            lemma_zoom_tri(k, prev(p, j), p[j], next(p, j));
        }
    }
}

/// In a direction that no neighbour is in, the corners at one point add at most one more than away
/// from it.
pub(crate) proof fn lemma_faced_or_not(p: Seq<(int, int)>, i: int, d: (int, int))
    requires
        weakly_simple(p),
        0 <= i < p.len(),
        d != p[i],
        off_rays(p, i, d),
    ensures
        turns_at(p, p[i], d, p.len() as int) <= turns_away(p, p[i], p.len() as int) + 1,
{
    let n = p.len() as int;
    if exists|k: int| 0 <= k < n && #[trigger] p[k] == p[i] && faces(p, k, d) {
        let k = choose|k: int| 0 <= k < n && #[trigger] p[k] == p[i] && faces(p, k, d);
        lemma_faced_point(p, k, d);
    } else {
        assert forall|k: int| 0 <= k < n && k != -1 && k != -2 implies #[trigger] turn_more(
            p,
            p[i],
            d,
            n,
            k,
        ) == 0 by {
            if p[k] == p[i] {
                lemma_not_faced(p, k, d);
            }
        }
        lemma_turns_at(p, p[i], d, n, -1, -2);
    }
}

/// In the direction of an edge that runs downwards, the corners at its start add one more than away
/// from what they face.
pub(crate) proof fn lemma_falling_turns(p: Seq<(int, int)>, i: int)
    requires
        weakly_simple(p),
        0 <= i < p.len(),
        !under(p[i], next(p, i)),
    ensures
        turns_at(p, p[i], next(p, i), p.len() as int) == turns_away(p, p[i], p.len() as int) + 1,
{
    let n = p.len() as int;
    if exists|j: int| 0 <= j < n && #[trigger] p[j] == p[i] && prev(p, j) == next(p, i) {
        let j = choose|j: int| 0 <= j < n && #[trigger] p[j] == p[i] && prev(p, j) == next(p, i);
        lemma_start_turns(p, i, j);
    } else {
        lemma_start_turns(p, i, -1);
    }
}

} // verus!
