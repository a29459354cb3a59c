//! What slicing computes, over sequences: a ring is the sequence of its nodes, the node under
//! consideration first, and a node is a place in the table of points.
use vstd::prelude::*;
use crate::geometry::{
    area_xy_spec, hashed, point_in_triangle_spec, segments_meet, z_order_spec, zero, Grid,
};
use crate::scalar::Scalar;
use crate::zsort::{stable_order, z_keys};

verus! {

/// A vertex as the slicing sees it.
pub struct Pt<C> {
    /// Vertex index in the input.
    pub i: usize,
    /// Whether the vertex is a hole of a single point, which is never dropped.
    pub steiner: bool,
    /// First coordinate.
    pub x: C,
    /// Second coordinate.
    pub y: C,
}

/// A box that bounds a block of ring edges.
pub struct BBox<C> {
    /// Least x.
    pub min_x: C,
    /// Least y.
    pub min_y: C,
    /// Greatest x.
    pub max_x: C,
    /// Greatest y.
    pub max_y: C,
}

impl<C: Copy> Clone for BBox<C> {
    fn clone(&self) -> (r: Self)
        ensures
            r == *self,
    {
        *self
    }
}

impl<C: Copy> Copy for BBox<C> {

}

/// The place after `k` in a ring of `n` nodes.
pub open spec fn after(k: int, n: int) -> int {
    if k + 1 == n {
        0
    } else {
        k + 1
    }
}

/// The place before `k` in a ring of `n` nodes.
pub open spec fn before(k: int, n: int) -> int {
    if k == 0 {
        n - 1
    } else {
        k - 1
    }
}

/// The node after the one at place `k`.
pub open spec fn succ(r: Seq<int>, k: int) -> int {
    r[after(k, r.len() as int)]
}

/// The node before the one at place `k`.
pub open spec fn pred(r: Seq<int>, k: int) -> int {
    r[before(k, r.len() as int)]
}

/// The ring seen from its next node.
pub open spec fn turned(r: Seq<int>) -> Seq<int> {
    r.subrange(1, r.len() as int).push(r[0])
}

/// The ring seen from the node at place `k`.
pub open spec fn turned_to(r: Seq<int>, k: int) -> Seq<int> {
    r.subrange(k, r.len() as int) + r.subrange(0, k)
}

/// The ring without its first node, seen from the node before that.
pub open spec fn dropped_back(r: Seq<int>) -> Seq<int> {
    seq![r.last()] + r.subrange(1, r.len() - 1)
}

/// Signed area of the triangle of three nodes.
pub open spec fn area<C: Scalar>(pts: Seq<Pt<C>>, p: int, q: int, r: int) -> C {
    area_xy_spec(pts[p].x, pts[p].y, pts[q].x, pts[q].y, pts[r].x, pts[r].y)
}

/// Two nodes have the same coordinates.
pub open spec fn coincide<C: Scalar>(pts: Seq<Pt<C>>, p: int, q: int) -> bool {
    pts[p].x.same_spec(pts[q].x) && pts[p].y.same_spec(pts[q].y)
}

/// The box grown to cover a point.
pub open spec fn grown_box<C: Scalar>(b: BBox<C>, x: C, y: C) -> BBox<C> {
    BBox {
        min_x: if x.less_spec(b.min_x) {
            x
        } else {
            b.min_x
        },
        min_y: if y.less_spec(b.min_y) {
            y
        } else {
            b.min_y
        },
        max_x: if b.max_x.less_spec(x) {
            x
        } else {
            b.max_x
        },
        max_y: if b.max_y.less_spec(y) {
            y
        } else {
            b.max_y
        },
    }
}

// ---------------------------------------------------------------------------------------------
// Dropping collinear and coincident points
// ---------------------------------------------------------------------------------------------
/// The first node of the ring can be dropped: it coincides with the next one, or is collinear
/// with both neighbours.
pub open spec fn degenerate<C: Scalar>(pts: Seq<Pt<C>>, r: Seq<int>) -> bool {
    &&& r.len() > 1
    &&& !pts[r[0]].steiner
    &&& coincide(pts, r[0], r[1]) || area(pts, r.last(), r[0], r[1]).same_spec(zero::<C>())
}

/// Drops nodes backwards from the first as long as they are degenerate.
pub open spec fn backtracked<C: Scalar>(pts: Seq<Pt<C>>, r: Seq<int>) -> Seq<int>
    decreases r.len(),
{
    if degenerate(pts, r) {
        backtracked(pts, dropped_back(r))
    } else {
        r
    }
}

/// The ring with the first node and the one after it healed: each is dropped if degenerate, and
/// then its predecessors as far as that makes them degenerate.
pub open spec fn healed<C: Scalar>(pts: Seq<Pt<C>>, r: Seq<int>) -> Seq<int> {
    backtracked(pts, turned(backtracked(pts, r)))
}

/// The boxes of the hole-bridge index after dropping nodes backwards: with each drop the block
/// that owns the node before grows to cover the node after.
pub open spec fn backtracked_boxes<C: Scalar>(
    pts: Seq<Pt<C>>,
    r: Seq<int>,
    owner: Seq<int>,
    boxes: Seq<BBox<C>>,
) -> Seq<BBox<C>>
    decreases r.len(),
{
    if degenerate(pts, r) {
        let b = owner[r.last()];
        let tail = pts[r[1]];
        backtracked_boxes(
            pts,
            dropped_back(r),
            owner,
            boxes.update(b, grown_box(boxes[b], tail.x, tail.y)),
        )
    } else {
        boxes
    }
}

/// The boxes of the hole-bridge index after healing.
pub open spec fn healed_boxes<C: Scalar>(
    pts: Seq<Pt<C>>,
    r: Seq<int>,
    owner: Seq<int>,
    boxes: Seq<BBox<C>>,
) -> Seq<BBox<C>> {
    backtracked_boxes(
        pts,
        turned(backtracked(pts, r)),
        owner,
        backtracked_boxes(pts, r, owner, boxes),
    )
}

/// The ring swept until a whole lap drops nothing; `checked` nodes before the first were found
/// in order since the last drop.
pub open spec fn swept<C: Scalar>(pts: Seq<Pt<C>>, r: Seq<int>, checked: nat) -> Seq<int>
    decreases r.len(), r.len() - checked,
{
    if degenerate(pts, r) {
        swept(pts, dropped_back(r), 0)
    } else if checked + 1 >= r.len() {
        turned(r)
    } else {
        swept(pts, turned(r), checked + 1)
    }
}

// ---------------------------------------------------------------------------------------------
// Ears
// ---------------------------------------------------------------------------------------------
/// The node at place `k` keeps the first node from being an ear: it lies in the triangle of the
/// first node and its neighbours, is not at the corner before it, and is not convex.
pub open spec fn obstructs<C: Scalar>(pts: Seq<Pt<C>>, r: Seq<int>, k: int) -> bool {
    let a = pts[r.last()];
    let b = pts[r[0]];
    let c = pts[r[1]];
    let p = pts[r[k]];
    &&& a.x.lower_spec(b.x).lower_spec(c.x).at_most_spec(p.x)
    &&& p.x.at_most_spec(a.x.upper_spec(b.x).upper_spec(c.x))
    &&& a.y.lower_spec(b.y).lower_spec(c.y).at_most_spec(p.y)
    &&& p.y.at_most_spec(a.y.upper_spec(b.y).upper_spec(c.y))
    &&& !(a.x.same_spec(p.x) && a.y.same_spec(p.y))
    &&& point_in_triangle_spec(a.x, a.y, b.x, b.y, c.x, c.y, p.x, p.y)
    &&& zero::<C>().at_most_spec(area(pts, pred(r, k), r[k], succ(r, k)))
}

/// The first node of the ring is an ear tip, all other nodes considered.
pub open spec fn is_ear_spec<C: Scalar>(pts: Seq<Pt<C>>, r: Seq<int>) -> bool {
    forall|k: int| 2 <= k < r.len() - 1 ==> !obstructs(pts, r, k)
}

/// The place of a node on the z-order curve.
pub open spec fn z_at<C: Scalar>(pts: Seq<Pt<C>>, g: Grid<C>, h: int) -> i32 {
    z_order_spec(pts[h].x, pts[h].y, g)
}

/// The nodes of a ring in z-order.
pub open spec fn z_ranked<C: Scalar>(pts: Seq<Pt<C>>, r: Seq<int>, g: Grid<C>) -> Seq<int> {
    let perm = stable_order(z_keys(Seq::new(r.len(), |k: int| (z_at(pts, g, r[k]), r[k]))));
    Seq::new(perm.len(), |j: int| r[perm[j]])
}

/// Walking down the z-order `ord` from its place `e`, over nodes that are still in the ring, the
/// place `m` is met before a value below `min_z`.
pub open spec fn met_below<C: Scalar>(
    pts: Seq<Pt<C>>,
    r: Seq<int>,
    ord: Seq<int>,
    g: Grid<C>,
    e: int,
    m: int,
    min_z: i32,
) -> bool {
    &&& 0 <= m < e
    &&& forall|j: int|
        m <= j < e && r.contains(#[trigger] ord[j]) ==> z_at(pts, g, ord[j]) >= min_z
}

/// Walking up the z-order `ord` from its place `e`, over nodes that are still in the ring, the
/// place `m` is met before a value above `max_z`.
pub open spec fn met_above<C: Scalar>(
    pts: Seq<Pt<C>>,
    r: Seq<int>,
    ord: Seq<int>,
    g: Grid<C>,
    e: int,
    m: int,
    max_z: i32,
) -> bool {
    &&& e < m < ord.len()
    &&& forall|j: int|
        e < j <= m && r.contains(#[trigger] ord[j]) ==> z_at(pts, g, ord[j]) <= max_z
}

/// The z-order value of the lower left corner of the box of the first node and its neighbours.
pub open spec fn ear_min_z<C: Scalar>(pts: Seq<Pt<C>>, r: Seq<int>, g: Grid<C>) -> i32 {
    let a = pts[r.last()];
    let b = pts[r[0]];
    let c = pts[r[1]];
    z_order_spec(
        a.x.lower_spec(b.x).lower_spec(c.x),
        a.y.lower_spec(b.y).lower_spec(c.y),
        g,
    )
}

/// The z-order value of the upper right corner of the box of the first node and its neighbours.
pub open spec fn ear_max_z<C: Scalar>(pts: Seq<Pt<C>>, r: Seq<int>, g: Grid<C>) -> i32 {
    let a = pts[r.last()];
    let b = pts[r[0]];
    let c = pts[r[1]];
    z_order_spec(
        a.x.upper_spec(b.x).upper_spec(c.x),
        a.y.upper_spec(b.y).upper_spec(c.y),
        g,
    )
}

/// The node at place `k` of the ring is met when the z-order is searched around the first node.
pub open spec fn met<C: Scalar>(
    pts: Seq<Pt<C>>,
    r: Seq<int>,
    ord: Seq<int>,
    g: Grid<C>,
    k: int,
) -> bool {
    exists|e: int, m: int|
        #![trigger ord[e], ord[m]]
        0 <= e < ord.len() && 0 <= m < ord.len() && ord[e] == r[0] && ord[m] == r[k] && (met_below(
            pts,
            r,
            ord,
            g,
            e,
            m,
            ear_min_z(pts, r, g),
        ) || met_above(pts, r, ord, g, e, m, ear_max_z(pts, r, g)))
}

/// The first node of the ring is an ear tip, the nodes met around it in z-order considered.
pub open spec fn is_ear_hashed_spec<C: Scalar>(
    pts: Seq<Pt<C>>,
    r: Seq<int>,
    ord: Seq<int>,
    g: Grid<C>,
) -> bool {
    forall|k: int|
        2 <= k < r.len() && #[trigger] met(pts, r, ord, g, k) ==> !obstructs(pts, r, k)
}

/// The first node of the ring is convex and an ear tip.
pub open spec fn clippable<C: Scalar>(
    pts: Seq<Pt<C>>,
    r: Seq<int>,
    ord: Seq<int>,
    g: Grid<C>,
) -> bool {
    &&& area(pts, r.last(), r[0], r[1]).less_spec(zero::<C>())
    &&& if hashed(g) {
        is_ear_hashed_spec(pts, r, ord, g)
    } else {
        is_ear_spec(pts, r)
    }
}

// ---------------------------------------------------------------------------------------------
// Diagonals
// ---------------------------------------------------------------------------------------------
/// Seen from the node at place `k`, the node `q` lies inside the ring's angle.
pub open spec fn locally_inside_spec<C: Scalar>(
    pts: Seq<Pt<C>>,
    r: Seq<int>,
    k: int,
    q: int,
) -> bool {
    let v = pred(r, k);
    let a = r[k];
    let w = succ(r, k);
    if area(pts, v, a, w).less_spec(zero::<C>()) {
        zero::<C>().at_most_spec(area(pts, a, q, w)) && zero::<C>().at_most_spec(
            area(pts, a, v, q),
        )
    } else {
        area(pts, a, q, v).less_spec(zero::<C>()) || area(pts, a, w, q).less_spec(zero::<C>())
    }
}

/// Segments between nodes meet.
pub open spec fn intersects_spec<C: Scalar>(
    pts: Seq<Pt<C>>,
    p1: int,
    q1: int,
    p2: int,
    q2: int,
    include_boundary: bool,
) -> bool {
    segments_meet(
        pts[p1].x,
        pts[p1].y,
        pts[q1].x,
        pts[q1].y,
        pts[p2].x,
        pts[p2].y,
        pts[q2].x,
        pts[q2].y,
        include_boundary,
    )
}

/// The edge that starts at place `k` meets the diagonal from the first node to the one at place
/// `j`, none of whose vertices it shares.
pub open spec fn edge_meets<C: Scalar>(pts: Seq<Pt<C>>, r: Seq<int>, j: int, k: int) -> bool {
    let a = pts[r[0]];
    let b = pts[r[j]];
    let p = pts[r[k]];
    let n = pts[succ(r, k)];
    let min_x = a.x.lower_spec(b.x);
    let max_x = a.x.upper_spec(b.x);
    let min_y = a.y.lower_spec(b.y);
    let max_y = a.y.upper_spec(b.y);
    &&& !(max_x.less_spec(p.x) && max_x.less_spec(n.x))
    &&& !(p.x.less_spec(min_x) && n.x.less_spec(min_x))
    &&& !(max_y.less_spec(p.y) && max_y.less_spec(n.y))
    &&& !(p.y.less_spec(min_y) && n.y.less_spec(min_y))
    &&& p.i != a.i && n.i != a.i && p.i != b.i && n.i != b.i
    &&& intersects_spec(pts, r[k], succ(r, k), r[0], r[j], true)
}

/// The diagonal from the first node to the one at place `j` meets an edge of the ring.
pub open spec fn intersects_polygon_spec<C: Scalar>(pts: Seq<Pt<C>>, r: Seq<int>, j: int) -> bool {
    exists|k: int| 0 <= k < r.len() && edge_meets(pts, r, j, k)
}

/// The edge that starts at place `k` crosses the ray from `(px, py)` to the right.
pub open spec fn ray_crosses<C: Scalar>(
    pts: Seq<Pt<C>>,
    r: Seq<int>,
    px: C,
    py: C,
    k: int,
) -> bool {
    let q = pts[r[k]];
    let n = pts[succ(r, k)];
    &&& py.less_spec(q.y) != py.less_spec(n.y)
    &&& px.less_spec(
        n.x.minus_spec(q.x).times_spec(py.minus_spec(q.y)).over_spec(
            n.y.minus_spec(q.y),
        ).plus_spec(q.x),
    )
}

/// Of the edges that start at one of the first `k` places, an odd number cross the ray.
pub open spec fn odd_crossings<C: Scalar>(
    pts: Seq<Pt<C>>,
    r: Seq<int>,
    px: C,
    py: C,
    k: int,
) -> bool
    decreases k,
{
    if k <= 0 {
        false
    } else {
        odd_crossings(pts, r, px, py, k - 1) != ray_crosses(pts, r, px, py, k - 1)
    }
}

/// The middle of the diagonal from the first node to the one at place `j` is inside the ring.
pub open spec fn middle_inside_spec<C: Scalar>(pts: Seq<Pt<C>>, r: Seq<int>, j: int) -> bool {
    let a = pts[r[0]];
    let b = pts[r[j]];
    let two = C::from_int_spec(2);
    odd_crossings(
        pts,
        r,
        a.x.plus_spec(b.x).over_spec(two),
        a.y.plus_spec(b.y).over_spec(two),
        r.len() as int,
    )
}

/// The first node and the one at place `j` touch in one point and are both reflex.
pub open spec fn touches_reflex<C: Scalar>(pts: Seq<Pt<C>>, r: Seq<int>, j: int) -> bool {
    &&& coincide(pts, r[0], r[j])
    &&& zero::<C>().less_spec(area(pts, pred(r, 0), r[0], succ(r, 0)))
    &&& zero::<C>().less_spec(area(pts, pred(r, j), r[j], succ(r, j)))
}

/// The diagonal from the first node to the one at place `j` lies in the interior of the ring.
pub open spec fn valid_diagonal<C: Scalar>(pts: Seq<Pt<C>>, r: Seq<int>, j: int) -> bool {
    let zero_length = touches_reflex(pts, r, j);
    &&& pts[succ(r, 0)].i != pts[r[j]].i
    &&& zero_length || {
        &&& locally_inside_spec(pts, r, 0, r[j])
        &&& locally_inside_spec(pts, r, j, r[0])
        &&& !area(pts, pred(r, 0), r[0], pred(r, j)).same_spec(zero::<C>()) || !area(
            pts,
            r[0],
            pred(r, j),
            r[j],
        ).same_spec(zero::<C>())
    }
    &&& !intersects_polygon_spec(pts, r, j)
    &&& zero_length || middle_inside_spec(pts, r, j)
}

/// The ring can be split along the diagonal from the first node to the one at place `j`.
pub open spec fn splittable<C: Scalar>(pts: Seq<Pt<C>>, r: Seq<int>, j: int) -> bool {
    pts[r[0]].i != pts[r[j]].i && valid_diagonal(pts, r, j)
}

/// The first place from `j` on, short of the last, to which the first node has a diagonal.
pub open spec fn first_diagonal<C: Scalar>(pts: Seq<Pt<C>>, r: Seq<int>, j: int) -> Option<int>
    decreases r.len() - j,
{
    if j >= r.len() - 1 {
        None
    } else if splittable(pts, r, j) {
        Some(j)
    } else {
        first_diagonal(pts, r, j + 1)
    }
}

/// The first of the next `left` turns of the ring whose first node has a diagonal, and where the
/// diagonal ends.
pub open spec fn first_split<C: Scalar>(pts: Seq<Pt<C>>, r: Seq<int>, left: int) -> Option<
    (Seq<int>, int),
>
    decreases left,
{
    if left <= 0 {
        None
    } else {
        match first_diagonal(pts, r, 2) {
            Some(j) => Some((r, j)),
            None => first_split(pts, turned(r), left - 1),
        }
    }
}

/// The table of points with the two nodes at the ends of a bridge doubled.
pub open spec fn bridged<C>(pts: Seq<Pt<C>>, a: int, b: int) -> Seq<Pt<C>> {
    pts.push(Pt { steiner: false, ..pts[a] }).push(Pt { steiner: false, ..pts[b] })
}

/// The part of the ring from the end of the diagonal back to its start.
pub open spec fn near_part(r: Seq<int>, j: int) -> Seq<int> {
    seq![r[0]] + r.subrange(j, r.len() as int)
}

/// The part of the ring from the start of the diagonal to its end, closed by the doubled nodes,
/// the first of which is number `n`.
pub open spec fn far_part(r: Seq<int>, j: int, n: int) -> Seq<int> {
    seq![n + 1, n] + r.subrange(1, j)
}

// ---------------------------------------------------------------------------------------------
// Small self-intersections
// ---------------------------------------------------------------------------------------------
/// The edges before and after the edge from the first node cross each other.
pub open spec fn curable<C: Scalar>(pts: Seq<Pt<C>>, r: Seq<int>) -> bool {
    let n = r.len() as int;
    &&& n >= 4
    &&& intersects_spec(pts, r[n - 1], r[0], r[1], r[2], false)
    &&& locally_inside_spec(pts, r, n - 1, r[2])
    &&& locally_inside_spec(pts, r, 2, r[n - 1])
}

/// Triangles, as vertex indices three by three, and the ring that is left.
pub struct Cured {
    /// Vertex indices, three by three.
    pub tris: Seq<usize>,
    /// What is left of the ring.
    pub ring: Seq<int>,
}

/// The vertex indices of a triangle of nodes.
pub open spec fn triangle<C>(pts: Seq<Pt<C>>, a: int, b: int, c: int) -> Seq<usize> {
    seq![pts[a].i, pts[b].i, pts[c].i]
}

/// One lap over the ring that cuts off every edge whose neighbours cross; `passed` nodes before
/// the first have been passed since the last cut.
pub open spec fn uncrossed<C: Scalar>(pts: Seq<Pt<C>>, r: Seq<int>, passed: nat) -> Cured
    decreases r.len(), r.len() - passed,
{
    if curable(pts, r) {
        let n = r.len() as int;
        let rest = uncrossed(pts, r.subrange(3, n).push(r[2]), 1);
        Cured { tris: triangle(pts, r[n - 1], r[0], r[2]) + rest.tris, ring: rest.ring }
    } else if passed + 1 >= r.len() {
        Cured { tris: seq![], ring: turned(r) }
    } else {
        uncrossed(pts, turned(r), passed + 1)
    }
}

/// The ring with small local self-intersections cut off.
pub open spec fn cured<C: Scalar>(pts: Seq<Pt<C>>, r: Seq<int>) -> Cured {
    let u = uncrossed(pts, r, 0);
    if u.tris.len() > 0 {
        Cured { tris: u.tris, ring: swept(pts, u.ring, 0) }
    } else {
        u
    }
}

// ---------------------------------------------------------------------------------------------
// Slicing
// ---------------------------------------------------------------------------------------------
/// Triangles, as vertex indices three by three, and the table of points that slicing leaves.
pub struct Sliced<C> {
    /// Vertex indices, three by three.
    pub tris: Seq<usize>,
    /// The points, with those that splitting has doubled.
    pub pts: Seq<Pt<C>>,
    /// Whether all triangles are ears and nothing was left over.
    pub complete: bool,
}

/// The triangulation of a ring.
pub open spec fn sliced<C: Scalar>(pts: Seq<Pt<C>>, r: Seq<int>, g: Grid<C>) -> Sliced<C>
    decreases r.len(), 3int, 0int,
{
    let ord = if hashed(g) {
        z_ranked(pts, r, g)
    } else {
        seq![]
    };
    clipped(pts, r, ord, 0, false, g)
}

/// The triangulation of what is left of a ring: `ord` is the z-order in which its nodes were
/// ranked, `passed` nodes before the first have been passed since the last cut, and
/// `cured_once` tells whether self-intersections have been cut off already.
pub open spec fn clipped<C: Scalar>(
    pts: Seq<Pt<C>>,
    r: Seq<int>,
    ord: Seq<int>,
    passed: nat,
    cured_once: bool,
    g: Grid<C>,
) -> Sliced<C>
    decreases
            r.len(),
            (if cured_once {
                1int
            } else {
                2int
            }),
            r.len() - passed,
{
    if r.len() <= 2 {
        Sliced { tris: seq![], pts, complete: true }
    } else if clippable(pts, r, ord, g) {
        let rest = clipped(pts, r.drop_first(), ord, 0, cured_once, g);
        Sliced { tris: triangle(pts, r.last(), r[0], r[1]) + rest.tris, ..rest }
    } else if passed + 1 < r.len() {
        clipped(pts, turned(r), ord, passed + 1, cured_once, g)
    } else {
        let f = swept(pts, turned(r), 0);
        if f.len() < r.len() {
            clipped(pts, f, ord, 0, cured_once, g)
        } else if !cured_once {
            let c = cured(pts, f);
            proof {
                lemma_swept_len(pts, turned(r), 0);
                lemma_cured_len(pts, f);
            }
            let rest = clipped(pts, c.ring, ord, 0, true, g);
            Sliced {
                tris: c.tris + rest.tris,
                pts: rest.pts,
                complete: c.tris.len() == 0 && rest.complete,
            }
        } else {
            proof {
                lemma_swept_len(pts, turned(r), 0);
            }
            halved(pts, f, g)
        }
    }
}

/// The triangulation of a ring without ears: both parts along the first diagonal, or nothing.
pub open spec fn halved<C: Scalar>(pts: Seq<Pt<C>>, r: Seq<int>, g: Grid<C>) -> Sliced<C>
    decreases r.len(), 0int, 0int,
{
    match first_split(pts, r, r.len() as int) {
        None => Sliced { tris: seq![], pts, complete: false },
        Some((s, j)) => {
            let all = bridged(pts, s[0], s[j]);
            let near = healed(all, near_part(s, j));
            let far = healed(all, far_part(s, j, pts.len() as int));
            proof {
                lemma_first_split(pts, r, r.len() as int);
                lemma_healed_len(all, near_part(s, j));
                lemma_healed_len(all, far_part(s, j, pts.len() as int));
            }
            let one = sliced(all, near, g);
            let two = sliced(one.pts, far, g);
            Sliced {
                tris: one.tris + two.tris,
                pts: two.pts,
                complete: one.complete && two.complete,
            }
        },
    }
}

// ---------------------------------------------------------------------------------------------
// Lengths
// ---------------------------------------------------------------------------------------------
/// Sweeping keeps at least one node and adds none.
pub proof fn lemma_swept_len<C: Scalar>(pts: Seq<Pt<C>>, r: Seq<int>, checked: nat)
    requires
        r.len() > 0,
    ensures
        0 < swept(pts, r, checked).len() <= r.len(),
    decreases r.len(), r.len() - checked,
{
    if degenerate(pts, r) {
        lemma_swept_len(pts, dropped_back(r), 0);
    } else if checked + 1 >= r.len() {
    } else {
        lemma_swept_len(pts, turned(r), checked + 1);
    }
}

/// Backtracking keeps at least one node and adds none.
pub proof fn lemma_backtracked_len<C: Scalar>(pts: Seq<Pt<C>>, r: Seq<int>)
    requires
        r.len() > 0,
    ensures
        0 < backtracked(pts, r).len() <= r.len(),
    decreases r.len(),
{
    if degenerate(pts, r) {
        lemma_backtracked_len(pts, dropped_back(r));
    }
}

/// Healing keeps at least one node and adds none.
pub proof fn lemma_healed_len<C: Scalar>(pts: Seq<Pt<C>>, r: Seq<int>)
    requires
        r.len() > 0,
    ensures
        0 < healed(pts, r).len() <= r.len(),
{
    lemma_backtracked_len(pts, r);
    lemma_backtracked_len(pts, turned(backtracked(pts, r)));
}

/// Each cut takes two nodes and gives one triangle.
pub proof fn lemma_uncrossed_len<C: Scalar>(pts: Seq<Pt<C>>, r: Seq<int>, passed: nat)
    requires
        r.len() > 0,
    ensures
        uncrossed(pts, r, passed).ring.len() > 0,
        3 * (r.len() - uncrossed(pts, r, passed).ring.len()) == 2 * uncrossed(
            pts,
            r,
            passed,
        ).tris.len(),
    decreases r.len(), r.len() - passed,
{
    if curable(pts, r) {
        lemma_uncrossed_len(pts, r.subrange(3, r.len() as int).push(r[2]), 1);
    } else if passed + 1 >= r.len() {
    } else {
        lemma_uncrossed_len(pts, turned(r), passed + 1);
    }
}

/// Curing keeps at least one node and takes at least two for each triangle.
pub proof fn lemma_cured_len<C: Scalar>(pts: Seq<Pt<C>>, r: Seq<int>)
    requires
        r.len() > 0,
    ensures
        0 < cured(pts, r).ring.len() <= r.len(),
        2 * cured(pts, r).tris.len() <= 3 * (r.len() - cured(pts, r).ring.len()),
{
    lemma_uncrossed_len(pts, r, 0);
    let u = uncrossed(pts, r, 0);
    if u.tris.len() > 0 {
        lemma_swept_len(pts, u.ring, 0);
    }
}

/// Where a diagonal is found, it leaves at least one node on either side.
pub proof fn lemma_first_diagonal<C: Scalar>(pts: Seq<Pt<C>>, r: Seq<int>, j: int)
    ensures
        first_diagonal(pts, r, j) matches Some(k) ==> j <= k < r.len() - 1 && splittable(
            pts,
            r,
            k,
        ),
    decreases r.len() - j,
{
    if j >= r.len() - 1 {
    } else if splittable(pts, r, j) {
    } else {
        lemma_first_diagonal(pts, r, j + 1);
    }
}

/// Where a split is found, it is of a turn of the ring.
pub proof fn lemma_first_split<C: Scalar>(pts: Seq<Pt<C>>, r: Seq<int>, left: int)
    requires
        left <= r.len(),
    ensures
        first_split(pts, r, left) matches Some((s, j)) ==> s.len() == r.len() && 2 <= j < s.len()
            - 1 && splittable(pts, s, j),
    decreases left,
{
    if left > 0 {
        lemma_first_diagonal(pts, r, 2);
        if first_diagonal(pts, r, 2) is None {
            lemma_first_split(pts, turned(r), left - 1);
        }
    }
}

} // verus!
