//! Searching ears by z-order changes no result: the nodes that are passed over cannot obstruct.
use vstd::prelude::*;
use crate::bounds::{in_table, lemma_sliced};
use crate::geometry::{hashed, interleave, spread, Grid};
use crate::model::{
    after, bridged, clippable, clipped, cured, ear_max_z, ear_min_z, far_part, first_split, halved,
    healed, is_ear_hashed_spec, is_ear_spec, lemma_cured_len, lemma_first_split, lemma_healed_len,
    lemma_swept_len, met, met_above, met_below, near_part, obstructs, sliced, swept, turned,
    uncrossed, z_at, z_ranked, Pt,
};
use crate::rings::{
    is_ring, lemma_dropped_ring, lemma_first_split_ring, lemma_healed_nodes, lemma_healed_ring,
    lemma_listed_ring, lemma_parts_rings, lemma_swept_ring, lemma_turned_ring, lemma_uncrossed_ring,
    lemma_without_holes_ring,
};
use crate::scalar::Scalar;
use crate::triangulation::{ear_grid, is_flat, outer_count, outer_ring, single_ring, triangulation};
use crate::zsort::{
    lemma_distinct_is_onto, lemma_stable_order_exists, precedes, stable_order, z_keys,
};

verus! {

// ---------------------------------------------------------------------------------------------
// The curve
// ---------------------------------------------------------------------------------------------
/// The last column and row of the grid.
pub const LAST_CELL: i32 = 32767;

/// Spreading the bits of a column keeps the order of columns, and leaves the odd places empty.
proof fn lemma_spread(a: i32, b: i32)
    requires
        0 <= a <= b <= LAST_CELL,
    ensures
        0 <= spread(a) <= spread(b) <= 0x15555555,
{
    assert(0 <= spread(a) && spread(a) <= spread(b) && spread(b) <= 0x15555555) by (bit_vector)
        requires
            0 <= a,
            a <= b,
            b <= 32767,
    ;
}

/// The places of columns and rows on the curve do not interfere.
proof fn lemma_interleave(x: i32, y: i32)
    requires
        0 <= x <= LAST_CELL,
        0 <= y <= LAST_CELL,
    ensures
        interleave(x, y) == spread(x) + 2 * spread(y),
{
    assert(interleave(x, y) == spread(x) + 2 * spread(y)) by (bit_vector)
        requires
            0 <= x,
            x <= 32767,
            0 <= y,
            y <= 32767,
    ;
}

/// On the z-order curve a cell comes after every cell to its lower left.
pub proof fn lemma_curve_monotone(x1: i32, y1: i32, x2: i32, y2: i32)
    requires
        0 <= x1 <= x2 <= LAST_CELL,
        0 <= y1 <= y2 <= LAST_CELL,
    ensures
        0 <= interleave(x1, y1) <= interleave(x2, y2) < 0x4000_0000,
{
    lemma_spread(x1, x2);
    lemma_spread(y1, y2);
    lemma_interleave(x1, y1);
    lemma_interleave(x2, y2);
}

/// The place of a cell on the z-order curve has the bits of its column and its row in turn, those
/// of the column first.
pub proof fn lemma_curve_bits(x: i32, y: i32, k: u32)
    requires
        0 <= x <= 32767,
        0 <= y <= 32767,
        k < 15,
    ensures
        ({
            let z = interleave(x, y) as u32;
            &&& 0 <= interleave(x, y) < 0x4000_0000
            &&& (z >> ((2 * k) as u32)) & 1 == (x as u32 >> k) & 1
            &&& (z >> ((2 * k + 1) as u32)) & 1 == (y as u32 >> k) & 1
        }),
{
    let z = interleave(x, y);
    assert(0 <= z && z < 0x4000_0000 && (z as u32 >> ((2 * k) as u32)) & 1 == (x as u32 >> k) & 1
        && (z as u32 >> ((2 * k + 1) as u32)) & 1 == (y as u32 >> k) & 1) by (bit_vector)
        requires
            0 <= x,
            x <= 32767,
            0 <= y,
            y <= 32767,
            k < 15,
            z == interleave(x, y),
    ;
}

// ---------------------------------------------------------------------------------------------
// The search
// ---------------------------------------------------------------------------------------------
/// The column of the grid in which `x` lies.
pub open spec fn column<C: Scalar>(x: C, g: Grid<C>) -> i32 {
    x.minus_spec(g.min_x).times_spec(g.inv_size).truncated_spec()
}

/// The row of the grid in which `y` lies.
pub open spec fn row<C: Scalar>(y: C, g: Grid<C>) -> i32 {
    y.minus_spec(g.min_y).times_spec(g.inv_size).truncated_spec()
}

/// The points of the table are numbers that lie on the grid, and columns and rows are found in the
/// order of coordinates.
pub open spec fn on_grid<C: Scalar>(pts: Seq<Pt<C>>, g: Grid<C>) -> bool {
    &&& forall|h: int|
        0 <= h < pts.len() ==> 0 <= column((#[trigger] pts[h]).x, g) <= LAST_CELL && 0 <= row(
            pts[h].y,
            g,
        ) <= LAST_CELL && pts[h].x.same_spec(pts[h].x) && pts[h].y.same_spec(pts[h].y)
    &&& forall|p: int, q: int|
        #![trigger pts[p], pts[q]]
        0 <= p < pts.len() && 0 <= q < pts.len() ==> (pts[p].x.at_most_spec(pts[q].x) ==> column(
            pts[p].x,
            g,
        ) <= column(pts[q].x, g)) && (pts[p].y.at_most_spec(pts[q].y) ==> row(pts[p].y, g) <= row(
            pts[q].y,
            g,
        ))
}

/// The points of the nodes of a ring.
pub open spec fn ring_points<C>(pts: Seq<Pt<C>>, r: Seq<int>) -> Seq<Pt<C>> {
    Seq::new(r.len(), |k: int| pts[r[k]])
}

/// The nodes of the ring are on the grid.
pub open spec fn ring_on_grid<C: Scalar>(pts: Seq<Pt<C>>, r: Seq<int>, g: Grid<C>) -> bool {
    on_grid(ring_points(pts, r), g)
}

/// The node `h` is where a node of the ring `r` is.
spec fn beside<C>(pts: Seq<Pt<C>>, r: Seq<int>, all: Seq<Pt<C>>, h: int) -> bool {
    exists|j: int|
        0 <= j < r.len() && all[h].x == pts[#[trigger] r[j]].x && all[h].y == pts[r[j]].y
}

/// A ring whose nodes are where nodes of a ring on the grid are is on the grid.
proof fn lemma_beside_on_grid<C: Scalar>(
    pts: Seq<Pt<C>>,
    r: Seq<int>,
    all: Seq<Pt<C>>,
    s: Seq<int>,
    g: Grid<C>,
)
    requires
        ring_on_grid(pts, r, g),
        forall|k: int| 0 <= k < s.len() ==> #[trigger] beside(pts, r, all, s[k]),
    ensures
        ring_on_grid(all, s, g),
{
    let t = ring_points(pts, r);
    let u = ring_points(all, s);
    assert forall|h: int| 0 <= h < u.len() implies 0 <= column((#[trigger] u[h]).x, g) <= LAST_CELL
        && 0 <= row(u[h].y, g) <= LAST_CELL && u[h].x.same_spec(u[h].x) && u[h].y.same_spec(
        u[h].y,
    ) by {
        assert(beside(pts, r, all, s[h]));
        let j = choose|j: int|
            0 <= j < r.len() && all[s[h]].x == pts[#[trigger] r[j]].x && all[s[h]].y == pts[r[j]].y;
        assert(0 <= column(t[j].x, g));
    }
    assert forall|p: int, q: int|
        #![trigger u[p], u[q]]
        0 <= p < u.len() && 0 <= q < u.len() implies (u[p].x.at_most_spec(u[q].x) ==> column(
        u[p].x,
        g,
    ) <= column(u[q].x, g)) && (u[p].y.at_most_spec(u[q].y) ==> row(u[p].y, g) <= row(
        u[q].y,
        g,
    )) by {
        assert(beside(pts, r, all, s[p]) && beside(pts, r, all, s[q]));
        let i = choose|j: int|
            0 <= j < r.len() && all[s[p]].x == pts[#[trigger] r[j]].x && all[s[p]].y == pts[r[j]].y;
        let j = choose|j: int|
            0 <= j < r.len() && all[s[q]].x == pts[#[trigger] r[j]].x && all[s[q]].y == pts[r[j]].y;
        assert(t[i].x.at_most_spec(t[j].x) ==> column(t[i].x, g) <= column(t[j].x, g));
    }
}

/// A ring of nodes of a ring on the grid is on the grid.
proof fn lemma_part_on_grid<C: Scalar>(pts: Seq<Pt<C>>, r: Seq<int>, s: Seq<int>, g: Grid<C>)
    requires
        ring_on_grid(pts, r, g),
        forall|h: int| #[trigger] s.contains(h) ==> r.contains(h),
    ensures
        ring_on_grid(pts, s, g),
{
    assert forall|k: int| 0 <= k < s.len() implies #[trigger] beside(pts, r, pts, s[k]) by {
        assert(s.contains(s[k]));
        let j = choose|j: int| 0 <= j < r.len() && r[j] == s[k];
        assert(pts[r[j]].x == pts[s[k]].x);
    }
    lemma_beside_on_grid(pts, r, pts, s, g);
}

/// A ring in a table on the grid is on the grid.
pub(crate) proof fn lemma_table_on_grid<C: Scalar>(pts: Seq<Pt<C>>, r: Seq<int>, g: Grid<C>)
    requires
        on_grid(pts, g),
        in_table(r, pts.len() as int),
    ensures
        ring_on_grid(pts, r, g),
{
    let all = Seq::new(pts.len(), |k: int| k);
    assert(ring_points(pts, all) =~= pts);
    assert forall|h: int| #[trigger] r.contains(h) implies all.contains(h) by {
        let k = choose|k: int| 0 <= k < r.len() && r[k] == h;
        assert(0 <= r[k] < pts.len());
        assert(all[h] == h);
    }
    lemma_part_on_grid(pts, all, r, g);
}

/// The lesser and the greater of two values are one of them.
pub open spec fn picks<C: Scalar>() -> bool {
    forall|u: C, v: C|
        #![trigger u.lower_spec(v)]
        #![trigger u.upper_spec(v)]
        (u.lower_spec(v) == u || u.lower_spec(v) == v) && (u.upper_spec(v) == u || u.upper_spec(v)
            == v)
}

/// The nodes of `ord` are in z-order.
pub open spec fn ascending<C: Scalar>(pts: Seq<Pt<C>>, g: Grid<C>, ord: Seq<int>) -> bool {
    forall|i: int, j: int|
        0 <= i <= j < ord.len() ==> z_at(pts, g, #[trigger] ord[i]) <= z_at(
            pts,
            g,
            #[trigger] ord[j],
        )
}

/// The z-order of a ring on the grid lists its nodes in ascending order.
proof fn lemma_ranked_ascending<C: Scalar>(pts: Seq<Pt<C>>, r: Seq<int>, g: Grid<C>)
    requires
        ring_on_grid(pts, r, g),
        in_table(r, pts.len() as int),
    ensures
        ascending(pts, g, z_ranked(pts, r, g)),
        forall|h: int| #[trigger] r.contains(h) ==> z_ranked(pts, r, g).contains(h),
        in_table(z_ranked(pts, r, g), pts.len() as int),
{
    let pairs = Seq::new(r.len(), |k: int| (z_at(pts, g, r[k]), r[k]));
    let keys = z_keys(pairs);
    let perm = stable_order(keys);
    let ord = z_ranked(pts, r, g);
    lemma_stable_order_exists(keys);
    assert forall|k: int| 0 <= k < r.len() implies 0 <= #[trigger] keys[k] && keys[k] == z_at(
        pts,
        g,
        r[k],
    ) by {
        let z = z_at(pts, g, r[k]);
        assert(0 <= r[k] < pts.len());
        let p = ring_points(pts, r)[k];
        assert(0 <= column(p.x, g) <= LAST_CELL);
        lemma_curve_monotone(column(p.x, g), row(p.y, g), column(p.x, g), row(p.y, g));
        assert(z as u32 == z) by (bit_vector)
            requires
                z >= 0i32,
        ;
    }
    assert forall|i: int, j: int| 0 <= i <= j < ord.len() implies z_at(pts, g, #[trigger] ord[i])
        <= z_at(pts, g, #[trigger] ord[j]) by {
        assert(0 <= perm[i] < keys.len() && 0 <= perm[j] < keys.len());
        if i < j {
            assert(precedes(keys, perm[i], perm[j]));
        }
        assert(keys[perm[i]] <= keys[perm[j]]);
    }
    assert(perm.no_duplicates());
    assert forall|h: int| #[trigger] r.contains(h) implies ord.contains(h) by {
        let k = choose|k: int| 0 <= k < r.len() && r[k] == h;
        lemma_distinct_is_onto(perm, k);
        let j = choose|j: int| 0 <= j < perm.len() && perm[j] == k;
        assert(ord[j] == h);
    }
    assert forall|j: int| 0 <= j < ord.len() implies 0 <= #[trigger] ord[j] < pts.len() by {
        assert(0 <= perm[j] < keys.len());
        assert(0 <= r[perm[j]] < pts.len());
    }
}

/// A node that obstructs an ear is met when the z-order is searched around the ear.
proof fn lemma_obstacle_met<C: Scalar>(
    pts: Seq<Pt<C>>,
    r: Seq<int>,
    ord: Seq<int>,
    g: Grid<C>,
    k: int,
)
    requires
        picks::<C>(),
        ring_on_grid(pts, r, g),
        is_ring(r, pts.len() as int),
        ascending(pts, g, ord),
        in_table(ord, pts.len() as int),
        forall|h: int| #[trigger] r.contains(h) ==> ord.contains(h),
        2 <= k < r.len(),
        obstructs(pts, r, k),
    ensures
        met(pts, r, ord, g, k),
{
    let n = r.len() as int;
    let a = pts[r[n - 1]];
    let b = pts[r[0]];
    let c = pts[r[1]];
    let p = pts[r[k]];
    assert(r.last() == r[n - 1]);
    let t = ring_points(pts, r);
    assert(t[n - 1] == a && t[0] == b && t[1] == c && t[k] == p);
    let x0 = a.x.lower_spec(b.x).lower_spec(c.x);
    let y0 = a.y.lower_spec(b.y).lower_spec(c.y);
    let x1 = a.x.upper_spec(b.x).upper_spec(c.x);
    let y1 = a.y.upper_spec(b.y).upper_spec(c.y);
    assert(a.x.lower_spec(b.x) == a.x || a.x.lower_spec(b.x) == b.x);
    assert(a.y.lower_spec(b.y) == a.y || a.y.lower_spec(b.y) == b.y);
    assert(a.x.upper_spec(b.x) == a.x || a.x.upper_spec(b.x) == b.x);
    assert(a.y.upper_spec(b.y) == a.y || a.y.upper_spec(b.y) == b.y);
    assert(x0 == a.x || x0 == b.x || x0 == c.x);
    assert(y0 == a.y || y0 == b.y || y0 == c.y);
    assert(x1 == a.x || x1 == b.x || x1 == c.x);
    assert(y1 == a.y || y1 == b.y || y1 == c.y);
    assert(0 <= column(x0, g) <= column(p.x, g) <= column(x1, g) <= LAST_CELL);
    assert(0 <= row(y0, g) <= row(p.y, g) <= row(y1, g) <= LAST_CELL);
    lemma_curve_monotone(column(x0, g), row(y0, g), column(p.x, g), row(p.y, g));
    lemma_curve_monotone(column(p.x, g), row(p.y, g), column(x1, g), row(y1, g));
    let z = z_at(pts, g, r[k]);
    assert(ear_min_z(pts, r, g) <= z <= ear_max_z(pts, r, g));
    assert(r.contains(r[0]) && r.contains(r[k]));
    assert(r[0] != r[k]);
    let e = choose|e: int| 0 <= e < ord.len() && ord[e] == r[0];
    let m = choose|m: int| 0 <= m < ord.len() && ord[m] == r[k];
    if m < e {
        assert forall|j: int| m <= j < e && r.contains(#[trigger] ord[j]) implies z_at(
            pts,
            g,
            ord[j],
        ) >= ear_min_z(pts, r, g) by {
            assert(z_at(pts, g, ord[m]) <= z_at(pts, g, ord[j]));
        }
        assert(met_below(pts, r, ord, g, e, m, ear_min_z(pts, r, g)));
    } else {
        assert forall|j: int| e < j <= m && r.contains(#[trigger] ord[j]) implies z_at(
            pts,
            g,
            ord[j],
        ) <= ear_max_z(pts, r, g) by {
            assert(z_at(pts, g, ord[j]) <= z_at(pts, g, ord[m]));
        }
        assert(met_above(pts, r, ord, g, e, m, ear_max_z(pts, r, g)));
    }
}

/// Where the nodes of the ring are on the grid, the search by z-order finds the same ears as the
/// search through all nodes.
pub proof fn lemma_same_ears<C: Scalar>(pts: Seq<Pt<C>>, r: Seq<int>, ord: Seq<int>, g: Grid<C>)
    requires
        picks::<C>(),
        ring_on_grid(pts, r, g),
        is_ring(r, pts.len() as int),
        ascending(pts, g, ord),
        in_table(ord, pts.len() as int),
        forall|h: int| #[trigger] r.contains(h) ==> ord.contains(h),
        r.len() >= 3,
    ensures
        is_ear_hashed_spec(pts, r, ord, g) == is_ear_spec(pts, r),
{
    let n = r.len() as int;
    assert(!obstructs(pts, r, n - 1)) by {
        let a = ring_points(pts, r)[n - 1];
        assert(r.last() == r[n - 1]);
        assert(a.x.same_spec(a.x) && a.y.same_spec(a.y));
    }
    if is_ear_hashed_spec(pts, r, ord, g) {
        assert forall|k: int| 2 <= k < n - 1 implies !obstructs(pts, r, k) by {
            if obstructs(pts, r, k) {
                lemma_obstacle_met(pts, r, ord, g, k);
            }
        }
    }
    if is_ear_spec(pts, r) {
        assert forall|k: int| 2 <= k < n && #[trigger] met(pts, r, ord, g, k) implies !obstructs(
            pts,
            r,
            k,
        ) by {}
    }
}

/// Where the nodes of the ring are on the grid and `ord` is their order on the curve, the search by
/// z-order finds the same ears as the search through all nodes.
pub proof fn lemma_ranked_ears<C: Scalar>(pts: Seq<Pt<C>>, r: Seq<int>, g: Grid<C>)
    requires
        picks::<C>(),
        ring_on_grid(pts, r, g),
        is_ring(r, pts.len() as int),
        r.len() >= 3,
    ensures
        is_ear_hashed_spec(pts, r, z_ranked(pts, r, g), g) == is_ear_spec(pts, r),
{
    lemma_ranked_ascending(pts, r, g);
    lemma_same_ears(pts, r, z_ranked(pts, r, g), g);
}

// ---------------------------------------------------------------------------------------------
// Slicing
// ---------------------------------------------------------------------------------------------
/// On the grid, slicing with the search by z-order gives the same triangles as slicing with the
/// search through all nodes.
pub proof fn lemma_same_slices<C: Scalar>(
    pts: Seq<Pt<C>>,
    r: Seq<int>,
    g: Grid<C>,
    plain: Grid<C>,
)
    requires
        picks::<C>(),
        ring_on_grid(pts, r, g),
        is_ring(r, pts.len() as int),
        hashed(g),
        !hashed(plain),
    ensures
        sliced(pts, r, g) == sliced(pts, r, plain),
    decreases r.len(), 3int, 0int,
{
    lemma_ranked_ascending(pts, r, g);
    lemma_same_clips(pts, r, z_ranked(pts, r, g), 0, false, g, plain);
}

/// On the grid, what is left of a ring is sliced in the same way by either search.
proof fn lemma_same_clips<C: Scalar>(
    pts: Seq<Pt<C>>,
    r: Seq<int>,
    ord: Seq<int>,
    passed: nat,
    cured_once: bool,
    g: Grid<C>,
    plain: Grid<C>,
)
    requires
        picks::<C>(),
        ring_on_grid(pts, r, g),
        is_ring(r, pts.len() as int),
        hashed(g),
        !hashed(plain),
        ascending(pts, g, ord),
        in_table(ord, pts.len() as int),
        forall|h: int| #[trigger] r.contains(h) ==> ord.contains(h),
    ensures
        clipped(pts, r, ord, passed, cured_once, g) == clipped(
            pts,
            r,
            Seq::empty(),
            passed,
            cured_once,
            plain,
        ),
    decreases
            r.len(),
            (if cured_once {
                1int
            } else {
                2int
            }),
            r.len() - passed,
{
    let n = pts.len() as int;
    let none = Seq::<int>::empty();
    if r.len() <= 2 {
    } else {
        lemma_same_ears(pts, r, ord, g);
        assert(clippable(pts, r, ord, g) == clippable(pts, r, none, plain));
        if clippable(pts, r, ord, g) {
            lemma_dropped_ring(r, n);
            lemma_part_on_grid(pts, r, r.drop_first(), g);
            lemma_same_clips(pts, r.drop_first(), ord, 0, cured_once, g, plain);
        } else if passed + 1 < r.len() {
            lemma_turned_ring(r, n);
            lemma_part_on_grid(pts, r, turned(r), g);
            lemma_same_clips(pts, turned(r), ord, passed + 1, cured_once, g, plain);
        } else {
            let t = turned(r);
            let f = swept(pts, t, 0);
            lemma_turned_ring(r, n);
            lemma_swept_ring(pts, t, 0, n);
            lemma_swept_len(pts, t, 0);
            lemma_part_on_grid(pts, r, f, g);
            if f.len() < r.len() {
                lemma_same_clips(pts, f, ord, 0, cured_once, g, plain);
            } else if !cured_once {
                let u = uncrossed(pts, f, 0);
                lemma_cured_len(pts, f);
                lemma_uncrossed_ring(pts, f, 0, n);
                if u.tris.len() > 0 {
                    lemma_swept_ring(pts, u.ring, 0, n);
                }
                lemma_part_on_grid(pts, f, cured(pts, f).ring, g);
                lemma_same_clips(pts, cured(pts, f).ring, ord, 0, true, g, plain);
            } else {
                lemma_same_halves(pts, f, g, plain);
            }
        }
    }
}

/// The parts of a ring on the grid are on the grid.
proof fn lemma_parts_on_grid<C: Scalar>(
    pts: Seq<Pt<C>>,
    r: Seq<int>,
    s: Seq<int>,
    j: int,
    g: Grid<C>,
)
    requires
        ring_on_grid(pts, r, g),
        is_ring(s, pts.len() as int),
        forall|h: int| #[trigger] s.contains(h) ==> r.contains(h),
        2 <= j < s.len() - 1,
    ensures
        ring_on_grid(bridged(pts, s[0], s[j]), near_part(s, j), g),
        ring_on_grid(bridged(pts, s[0], s[j]), far_part(s, j, pts.len() as int), g),
{
    let n = pts.len() as int;
    let all = bridged(pts, s[0], s[j]);
    let near = near_part(s, j);
    let far = far_part(s, j, n);
    lemma_part_on_grid(pts, r, s, g);
    assert forall|k: int| 0 <= k < near.len() implies #[trigger] beside(pts, s, all, near[k]) by {
        let m = if k == 0 {
            0
        } else {
            k + j - 1
        };
        assert(near[k] == s[m]);
        assert(0 <= s[m] < n);
        assert(all[near[k]] == pts[s[m]]);
    }
    assert forall|k: int| 0 <= k < far.len() implies #[trigger] beside(pts, s, all, far[k]) by {
        let m = if k == 0 {
            j
        } else if k == 1 {
            0
        } else {
            k - 1
        };
        assert(0 <= s[m] < n);
        assert(far[k] == (if k == 0 {
            n + 1
        } else if k == 1 {
            n
        } else {
            s[m]
        }));
        assert(all[far[k]].x == pts[s[m]].x && all[far[k]].y == pts[s[m]].y);
    }
    lemma_beside_on_grid(pts, s, all, near, g);
    lemma_beside_on_grid(pts, s, all, far, g);
}

/// On the grid, the parts of a ring are sliced in the same way by either search.
pub(crate) proof fn lemma_same_halves<C: Scalar>(
    pts: Seq<Pt<C>>,
    r: Seq<int>,
    g: Grid<C>,
    plain: Grid<C>,
)
    requires
        picks::<C>(),
        ring_on_grid(pts, r, g),
        is_ring(r, pts.len() as int),
        hashed(g),
        !hashed(plain),
    ensures
        halved(pts, r, g) == halved(pts, r, plain),
    decreases r.len(), 0int, 0int,
{
    let n = pts.len() as int;
    match first_split(pts, r, r.len() as int) {
        None => {},
        Some((s, j)) => {
            lemma_first_split(pts, r, r.len() as int);
            lemma_first_split_ring(pts, r, r.len() as int, n);
            assert(0 <= s[0] < n && 0 <= s[j] < n);
            let all = bridged(pts, s[0], s[j]);
            let near0 = near_part(s, j);
            let far0 = far_part(s, j, n);
            lemma_parts_rings(s, j, n);
            lemma_healed_ring(all, near0, n + 2);
            lemma_healed_ring(all, far0, n + 2);
            lemma_healed_len(all, near0);
            lemma_healed_len(all, far0);
            let near = healed(all, near0);
            let far = healed(all, far0);
            lemma_parts_on_grid(pts, r, s, j, g);
            lemma_healed_nodes(all, near0, n + 2);
            lemma_healed_nodes(all, far0, n + 2);
            lemma_part_on_grid(all, near0, near, g);
            lemma_part_on_grid(all, far0, far, g);
            lemma_same_slices(all, near, g, plain);
            let one = sliced(all, near, g);
            lemma_sliced(all, near, g, usize::MAX + 1);
            assert(is_ring(far, one.pts.len() as int)) by {
                assert forall|k: int| 0 <= k < far.len() implies 0 <= #[trigger] far[k]
                    < one.pts.len() by {
                    assert(0 <= far[k] < n + 2);
                }
            }
            assert(ring_points(one.pts, far) =~= ring_points(all, far)) by {
                assert forall|k: int| 0 <= k < far.len() implies one.pts[#[trigger] far[k]]
                    == all[far[k]] by {
                    assert(0 <= far[k] < n + 2);
                }
            }
            lemma_same_slices(one.pts, far, g, plain);
        },
    }
}

/// Searching ears by z-order changes no triangulation: where the ring of a polygon is on the
/// grid, its triangles are those that the search through all nodes gives.
pub proof fn lemma_hashing_changes_nothing<C: Scalar>(
    data: Seq<C>,
    holes: Seq<usize>,
    dim: int,
    plain: Grid<C>,
)
    requires
        is_flat(data, holes, dim),
        data.len() > 0,
        picks::<C>(),
        !hashed(plain),
        outer_ring(data, holes, dim).ring.len() > 2,
        ({
            let g = ear_grid(data, dim, outer_count(holes, data.len() as int / dim));
            let w = single_ring(data, holes, dim);
            hashed(g) && ring_on_grid(w.pts, w.ring, g)
        }),
    ensures
        ({
            let w = single_ring(data, holes, dim);
            triangulation(data, holes, dim) == sliced(w.pts, w.ring, plain).tris
        }),
{
    let count = data.len() as int / dim;
    let outer = outer_count(holes, count);
    let g = ear_grid(data, dim, outer);
    let l = outer_ring(data, holes, dim);
    let w = single_ring(data, holes, dim);
    assert(0 < outer);
    lemma_listed_ring(Seq::empty(), data, dim, 0, outer, true);
    if holes.len() > 0 {
        lemma_without_holes_ring(l, data, dim, holes);
    }
    lemma_same_slices(w.pts, w.ring, g, plain);
}

} // verus!
