//! How a ring is sliced: ear by ear, and what is tried with rings without ears, in what order.
use vstd::prelude::*;
use crate::geometry::{hashed, Grid};
use crate::model::{
    bridged, clippable, clipped, curable, cured, degenerate, far_part, first_diagonal, first_split,
    halved, healed, near_part, sliced, splittable, swept, triangle, turned, turned_to, uncrossed,
    z_ranked, Pt,
};
use crate::scalar::Scalar;

verus! {

/// The ring has no ear, wherever it is seen from, and no node that a sweep drops.
pub open spec fn earless<C: Scalar>(pts: Seq<Pt<C>>, r: Seq<int>, g: Grid<C>) -> bool {
    let ord = if hashed(g) {
        z_ranked(pts, r, g)
    } else {
        Seq::empty()
    };
    &&& r.len() >= 3
    &&& forall|j: int| 0 <= j < r.len() ==> !clippable(pts, #[trigger] turned_to(r, j), ord, g)
    &&& forall|j: int| 0 <= j < r.len() ==> !degenerate(pts, #[trigger] turned_to(r, j))
}

/// Turning on from place `k`, to the start after a whole lap.
proof fn lemma_turned_on(r: Seq<int>, k: int)
    requires
        0 <= k < r.len(),
    ensures
        turned(turned_to(r, k)) == (if k + 1 < r.len() {
            turned_to(r, k + 1)
        } else {
            r
        }),
        turned_to(r, 0) == r,
{
    assert(turned_to(r, 0) =~= r);
    if k + 1 < r.len() {
        assert(turned(turned_to(r, k)) =~= turned_to(r, k + 1));
    } else {
        assert(turned(turned_to(r, k)) =~= r);
    }
}

/// Turning passes over nodes that are no ears.
proof fn lemma_passed_over<C: Scalar>(
    pts: Seq<Pt<C>>,
    r: Seq<int>,
    ord: Seq<int>,
    g: Grid<C>,
    k: int,
    m: int,
)
    requires
        r.len() >= 3,
        0 <= k <= m < r.len(),
        forall|j: int| 0 <= j < m ==> !clippable(pts, #[trigger] turned_to(r, j), ord, g),
    ensures
        clipped(pts, turned_to(r, k), ord, k as nat, false, g) == clipped(
            pts,
            turned_to(r, m),
            ord,
            m as nat,
            false,
            g,
        ),
    decreases m - k,
{
    if k < m {
        lemma_turned_on(r, k);
        assert(!clippable(pts, turned_to(r, k), ord, g));
        lemma_passed_over(pts, r, ord, g, k + 1, m);
    }
}

/// The first ear that is met is cut off: its triangle is that of the node before it, the ear and
/// the node after it. Then follow the triangles of the ring without it, seen from the node after
/// it.
pub proof fn lemma_first_ear<C: Scalar>(pts: Seq<Pt<C>>, r: Seq<int>, g: Grid<C>, m: int)
    requires
        !hashed(g),
        r.len() >= 3,
        0 <= m < r.len(),
        clippable(pts, turned_to(r, m), Seq::empty(), g),
        forall|j: int|
            0 <= j < m ==> !clippable(pts, #[trigger] turned_to(r, j), Seq::empty(), g),
    ensures
        ({
            let n = r.len() as int;
            let rest = Seq::new((n - 1) as nat, |k: int| r[(m + 1 + k) % n]);
            &&& sliced(pts, r, g).tris == seq![
                pts[r[(m + n - 1) % n]].i,
                pts[r[m]].i,
                pts[r[(m + 1) % n]].i,
            ] + sliced(pts, rest, g).tris
            &&& sliced(pts, r, g).complete == sliced(pts, rest, g).complete
        }),
{
    let n = r.len() as int;
    let t = turned_to(r, m);
    let rest = Seq::new((n - 1) as nat, |k: int| r[(m + 1 + k) % n]);
    lemma_turned_on(r, 0);
    lemma_passed_over(pts, r, Seq::empty(), g, 0, m);
    assert forall|k: int| 0 <= k < n implies #[trigger] t[k] == r[(m + k) % n] by {
        assert((m + k) % n == (if m + k < n {
            m + k
        } else {
            m + k - n
        })) by (nonlinear_arith)
            requires
                0 <= m < n,
                0 <= k < n,
        ;
    }
    assert(t.drop_first() =~= rest) by {
        assert forall|k: int| 0 <= k < n - 1 implies #[trigger] t.drop_first()[k] == rest[k] by {
            assert(t[k + 1] == r[(m + (k + 1)) % n]);
            assert(m + (k + 1) == m + 1 + k);
        }
    }
    assert(t.last() == t[n - 1] && t[n - 1] == r[(m + (n - 1)) % n]);
    assert(m + (n - 1) == m + n - 1);
    assert(t[0] == r[m] && t[1] == r[(m + 1) % n]);
    assert(triangle(pts, t.last(), t[0], t[1]) =~= seq![
        pts[r[(m + n - 1) % n]].i,
        pts[r[m]].i,
        pts[r[(m + 1) % n]].i,
    ]);
}

/// A ring without ears is swept, and sliced on if that drops a node.
pub proof fn lemma_swept_first<C: Scalar>(pts: Seq<Pt<C>>, r: Seq<int>, g: Grid<C>)
    requires
        !hashed(g),
        r.len() >= 3,
        forall|j: int|
            0 <= j < r.len() ==> !clippable(pts, #[trigger] turned_to(r, j), Seq::empty(), g),
        swept(pts, r, 0).len() < r.len(),
    ensures
        sliced(pts, r, g) == sliced(pts, swept(pts, r, 0), g),
{
    let n = r.len() as int;
    lemma_turned_on(r, 0);
    lemma_passed_over(pts, r, Seq::empty(), g, 0, n - 1);
    lemma_turned_on(r, n - 1);
    assert(!clippable(pts, turned_to(r, n - 1), Seq::empty(), g));
}

/// A sweep that drops nothing ends where it started.
proof fn lemma_sweep<C: Scalar>(pts: Seq<Pt<C>>, r: Seq<int>, k: int)
    requires
        0 <= k < r.len(),
        forall|j: int| 0 <= j < r.len() ==> !degenerate(pts, #[trigger] turned_to(r, j)),
    ensures
        swept(pts, turned_to(r, k), k as nat) == r,
    decreases r.len() - k,
{
    lemma_turned_on(r, k);
    assert(!degenerate(pts, turned_to(r, k)));
    if k + 1 < r.len() {
        lemma_sweep(pts, r, k + 1);
    }
}

/// A lap that cuts nothing off ends where it started.
proof fn lemma_uncut<C: Scalar>(pts: Seq<Pt<C>>, r: Seq<int>, k: int)
    requires
        0 <= k < r.len(),
        forall|j: int| 0 <= j < r.len() ==> !curable(pts, #[trigger] turned_to(r, j)),
    ensures
        uncrossed(pts, turned_to(r, k), k as nat).ring == r,
        uncrossed(pts, turned_to(r, k), k as nat).tris.len() == 0,
    decreases r.len() - k,
{
    lemma_turned_on(r, k);
    assert(!curable(pts, turned_to(r, k)));
    if k + 1 < r.len() {
        lemma_uncut(pts, r, k + 1);
    }
}

/// A lap over a ring without ears ends where it started.
proof fn lemma_lap<C: Scalar>(
    pts: Seq<Pt<C>>,
    r: Seq<int>,
    ord: Seq<int>,
    cured_once: bool,
    g: Grid<C>,
    k: int,
)
    requires
        r.len() >= 3,
        0 <= k < r.len(),
        forall|j: int| 0 <= j < r.len() ==> !clippable(pts, #[trigger] turned_to(r, j), ord, g),
        forall|j: int| 0 <= j < r.len() ==> !degenerate(pts, #[trigger] turned_to(r, j)),
    ensures
        ({
            let s = clipped(pts, turned_to(r, k), ord, k as nat, cured_once, g);
            let c = cured(pts, r);
            let rest = clipped(pts, c.ring, ord, 0, true, g);
            &&& !cured_once ==> s.tris == c.tris + rest.tris && s.pts == rest.pts && s.complete == (
            c.tris.len() == 0 && rest.complete)
            &&& cured_once ==> s == halved(pts, r, g)
        }),
    decreases r.len() - k,
{
    lemma_turned_on(r, k);
    assert(!clippable(pts, turned_to(r, k), ord, g));
    if k + 1 < r.len() {
        lemma_lap(pts, r, ord, cured_once, g, k + 1);
    } else {
        lemma_turned_on(r, 0);
        lemma_sweep(pts, r, 0);
    }
}

/// What is cut off of a ring without ears where its edges cross comes first.
pub proof fn lemma_cured_first<C: Scalar>(pts: Seq<Pt<C>>, r: Seq<int>, g: Grid<C>)
    requires
        earless(pts, r, g),
    ensures
        ({
            let (s, c) = (sliced(pts, r, g).tris, cured(pts, r).tris);
            &&& c.len() <= s.len()
            &&& forall|k: int| 0 <= k < c.len() ==> #[trigger] s[k] == c[k]
        }),
{
    let ord = if hashed(g) {
        z_ranked(pts, r, g)
    } else {
        Seq::empty()
    };
    lemma_turned_on(r, 0);
    lemma_lap(pts, r, ord, false, g, 0);
}

/// A ring without ears and crossing edges is split or given up.
proof fn lemma_to_be_split<C: Scalar>(pts: Seq<Pt<C>>, r: Seq<int>, g: Grid<C>)
    requires
        earless(pts, r, g),
        forall|j: int| 0 <= j < r.len() ==> !curable(pts, #[trigger] turned_to(r, j)),
    ensures
        sliced(pts, r, g).tris == halved(pts, r, g).tris,
        sliced(pts, r, g).complete == halved(pts, r, g).complete,
{
    let ord = if hashed(g) {
        z_ranked(pts, r, g)
    } else {
        Seq::empty()
    };
    lemma_turned_on(r, 0);
    lemma_lap(pts, r, ord, false, g, 0);
    lemma_uncut(pts, r, 0);
    assert(cured(pts, r).ring == r);
    lemma_lap(pts, r, ord, true, g, 0);
    assert(cured(pts, r).tris + halved(pts, r, g).tris =~= halved(pts, r, g).tris);
}

/// A diagonal is looked for from each node in turn, to each other node in turn.
proof fn lemma_first_found<C: Scalar>(pts: Seq<Pt<C>>, r: Seq<int>, from: int, j: int)
    requires
        2 <= from <= j < r.len() - 1,
        splittable(pts, r, j),
        forall|i: int| from <= i < j ==> !splittable(pts, r, i),
    ensures
        first_diagonal(pts, r, from) == Some(j),
    decreases j - from,
{
    if from < j {
        assert(!splittable(pts, r, from));
        lemma_first_found(pts, r, from + 1, j);
    }
}

/// Where no diagonal is valid, none is found.
proof fn lemma_none_found<C: Scalar>(pts: Seq<Pt<C>>, r: Seq<int>, from: int)
    requires
        2 <= from,
        forall|i: int| from <= i < r.len() - 1 ==> !splittable(pts, r, i),
    ensures
        first_diagonal(pts, r, from) is None,
    decreases r.len() - from,
{
    if from < r.len() - 1 {
        assert(!splittable(pts, r, from));
        lemma_none_found(pts, r, from + 1);
    }
}

/// No node before place `m` has a diagonal.
spec fn none_before<C: Scalar>(pts: Seq<Pt<C>>, r: Seq<int>, m: int) -> bool {
    forall|k: int, i: int|
        0 <= k < m && 2 <= i < r.len() - 1 ==> !#[trigger] splittable(pts, turned_to(r, k), i)
}

/// The search for a split passes over nodes without diagonals.
proof fn lemma_search<C: Scalar>(pts: Seq<Pt<C>>, r: Seq<int>, k: int, m: int)
    requires
        0 <= k <= m <= r.len(),
        r.len() > 0,
        none_before(pts, r, m),
    ensures
        first_split(
            pts,
            if k < r.len() {
                turned_to(r, k)
            } else {
                r
            },
            r.len() - k,
        ) == first_split(
            pts,
            if m < r.len() {
                turned_to(r, m)
            } else {
                r
            },
            r.len() - m,
        ),
    decreases m - k,
{
    if k < m {
        lemma_turned_on(r, k);
        lemma_none_found(pts, turned_to(r, k), 2);
        lemma_search(pts, r, k + 1, m);
    }
}

/// A ring without ears, crossing edges and diagonals gives no triangle, and so is not sliced
/// completely.
pub proof fn lemma_given_up<C: Scalar>(pts: Seq<Pt<C>>, r: Seq<int>, g: Grid<C>)
    requires
        earless(pts, r, g),
        forall|j: int| 0 <= j < r.len() ==> !curable(pts, #[trigger] turned_to(r, j)),
        forall|k: int, i: int|
            0 <= k < r.len() && 2 <= i < r.len() - 1 ==> !#[trigger] splittable(
                pts,
                turned_to(r, k),
                i,
            ),
    ensures
        sliced(pts, r, g).tris.len() == 0,
        !sliced(pts, r, g).complete,
{
    lemma_to_be_split(pts, r, g);
    lemma_turned_on(r, 0);
    lemma_search(pts, r, 0, r.len() as int);
}

/// A ring without ears and crossing edges is split along the first diagonal, searched for from each
/// node in turn: first come the triangles of the part that leads from the end of the diagonal back
/// to its start, then those of the part between them, which has nodes of its own at both ends. Each
/// part is healed at the diagonal.
pub proof fn lemma_split_in_two<C: Scalar>(
    pts: Seq<Pt<C>>,
    r: Seq<int>,
    g: Grid<C>,
    m: int,
    j: int,
)
    requires
        earless(pts, r, g),
        forall|j: int| 0 <= j < r.len() ==> !curable(pts, #[trigger] turned_to(r, j)),
        0 <= m < r.len(),
        2 <= j < r.len() - 1,
        splittable(pts, turned_to(r, m), j),
        forall|i: int| 2 <= i < j ==> !#[trigger] splittable(pts, turned_to(r, m), i),
        forall|k: int, i: int|
            0 <= k < m && 2 <= i < r.len() - 1 ==> !#[trigger] splittable(pts, turned_to(r, k), i),
    ensures
        ({
            let s = turned_to(r, m);
            let n = pts.len() as int;
            let all = pts.push(Pt { steiner: false, ..pts[s[0]] }).push(
                Pt { steiner: false, ..pts[s[j]] },
            );
            let near = Seq::new(
                (s.len() - j + 1) as nat,
                |k: int|
                    if k == 0 {
                        s[0]
                    } else {
                        s[j + k - 1]
                    },
            );
            let far = Seq::new(
                (j + 1) as nat,
                |k: int|
                    if k == 0 {
                        n + 1
                    } else if k == 1 {
                        n
                    } else {
                        s[k - 1]
                    },
            );
            let one = sliced(all, healed(all, near), g);
            let two = sliced(one.pts, healed(all, far), g);
            &&& sliced(pts, r, g).tris == one.tris + two.tris
            &&& sliced(pts, r, g).complete == (one.complete && two.complete)
        }),
{
    let s = turned_to(r, m);
    let n = pts.len() as int;
    lemma_to_be_split(pts, r, g);
    lemma_turned_on(r, 0);
    lemma_search(pts, r, 0, m);
    lemma_first_found(pts, s, 2, j);
    assert(first_split(pts, r, r.len() as int) == Some((s, j)));
    let near = Seq::new(
        (s.len() - j + 1) as nat,
        |k: int|
            if k == 0 {
                s[0]
            } else {
                s[j + k - 1]
            },
    );
    let far = Seq::new(
        (j + 1) as nat,
        |k: int|
            if k == 0 {
                n + 1
            } else if k == 1 {
                n
            } else {
                s[k - 1]
            },
    );
    assert(near =~= near_part(s, j));
    assert(far =~= far_part(s, j, n));
    assert(bridged(pts, s[0], s[j]) == pts.push(Pt { steiner: false, ..pts[s[0]] }).push(
        Pt { steiner: false, ..pts[s[j]] },
    ));
}

} // verus!
