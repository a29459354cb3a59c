//! Questions about rings that leave them as they are.
use vstd::prelude::*;
use crate::arena::{
    highest, lemma_at, lemma_next_live, lemma_prev_live, lowest, neighbours, ring_ok, z_in_bounds,
    z_linked, Arena, NULL,
};
use crate::geometry::{area_xy, intersects_xy, point_in_triangle, z_order, Grid};
use crate::model::{
    area, coincide, ear_max_z, ear_min_z, edge_meets, intersects_polygon_spec, intersects_spec,
    is_ear_hashed_spec, is_ear_spec, locally_inside_spec, met, met_above, met_below,
    middle_inside_spec, obstructs, odd_crossings, touches_reflex, valid_diagonal, z_at,
};
use crate::scalar::Scalar;

verus! {

impl<C: Scalar> Arena<C> {
    /// A node's coordinates.
    pub(crate) fn xy(&self, p: usize) -> (r: (C, C))
        requires
            p < self.nodes@.len(),
        ensures
            r.0 == self.pts()[p as int].x,
            r.1 == self.pts()[p as int].y,
    {
        let n = self.nodes[p];
        (n.x, n.y)
    }

    /// Whether two nodes have the same coordinates.
    pub(crate) fn equals(&self, p1: usize, p2: usize) -> (r: bool)
        requires
            p1 < self.nodes@.len(),
            p2 < self.nodes@.len(),
        ensures
            r == coincide(self.pts(), p1 as int, p2 as int),
    {
        let a = self.nodes[p1];
        let b = self.nodes[p2];
        a.x.same(b.x) && a.y.same(b.y)
    }

    /// Signed area of the triangle of three nodes.
    pub(crate) fn area(&self, p: usize, q: usize, r: usize) -> (a: C)
        requires
            p < self.nodes@.len(),
            q < self.nodes@.len(),
            r < self.nodes@.len(),
        ensures
            a == area(self.pts(), p as int, q as int, r as int),
    {
        let p = self.nodes[p];
        let q = self.nodes[q];
        let r = self.nodes[r];
        area_xy(p.x, p.y, q.x, q.y, r.x, r.y)
    }
}

/// Checks whether a node keeps the first node of the ring from being an ear, given the triangle
/// and its bounding box.
fn is_obstacle<C: Scalar>(
    arena: &Arena<C>,
    a: (C, C),
    b: (C, C),
    c: (C, C),
    low: (C, C),
    high: (C, C),
    p: usize,
    Ghost(r): Ghost<Seq<int>>,
    Ghost(k): Ghost<int>,
) -> (res: bool)
    requires
        ring_ok(arena.nodes@, r),
        0 <= k < r.len(),
        r.len() >= 2,
        p == r[k],
        ({
            let pts = arena.pts();
            let pa = pts[r.last()];
            let pb = pts[r[0]];
            let pc = pts[r[1]];
            &&& a == (pa.x, pa.y)
            &&& b == (pb.x, pb.y)
            &&& c == (pc.x, pc.y)
            &&& low == (
                pa.x.lower_spec(pb.x).lower_spec(pc.x),
                pa.y.lower_spec(pb.y).lower_spec(pc.y),
            )
            &&& high == (
                pa.x.upper_spec(pb.x).upper_spec(pc.x),
                pa.y.upper_spec(pb.y).upper_spec(pc.y),
            )
        }),
    ensures
        res == obstructs(arena.pts(), r, k),
{
    proof {
        lemma_at(arena.nodes@, r, k);
    }
    let n = arena.nodes[p];
    let (px, py) = (n.x, n.y);
    low.0.at_most(px) && px.at_most(high.0) && low.1.at_most(py) && py.at_most(high.1) && !(
    a.0.same(px) && a.1.same(py)) && point_in_triangle(a.0, a.1, b.0, b.1, c.0, c.1, px, py)
        && C::from_int(0).at_most(arena.area(n.prev, p, n.next))
}

/// Checks whether a polygon node forms a valid ear with adjacent nodes.
pub(crate) fn is_ear<C: Scalar>(arena: &Arena<C>, ear: usize, Ghost(r): Ghost<Seq<int>>) -> (res:
    bool)
    requires
        ring_ok(arena.nodes@, r),
        r.len() >= 3,
        ear == r[0],
    ensures
        res == is_ear_spec(arena.pts(), r),
{
    let ghost n = r.len() as int;
    proof {
        lemma_at(arena.nodes@, r, 0);
        lemma_at(arena.nodes@, r, 1);
    }
    let a: usize = arena.nodes[ear].prev;
    let c: usize = arena.nodes[ear].next;
    let (ax, ay) = arena.xy(a);
    let (bx, by) = arena.xy(ear);
    let (cx, cy) = arena.xy(c);
    let x0 = ax.lower(bx).lower(cx);
    let y0 = ay.lower(by).lower(cy);
    let x1 = ax.upper(bx).upper(cx);
    let y1 = ay.upper(by).upper(cy);
    let mut p: usize = arena.nodes[c].next;
    let ghost mut k: int = 2;
    while p != a
        invariant
            ring_ok(arena.nodes@, r),
            n == r.len(),
            n >= 3,
            2 <= k <= n - 1,
            p == r[k],
            a == r.last(),
            ({
                let pts = arena.pts();
                let pa = pts[r.last()];
                let pb = pts[r[0]];
                let pc = pts[r[1]];
                &&& (ax, ay) == (pa.x, pa.y)
                &&& (bx, by) == (pb.x, pb.y)
                &&& (cx, cy) == (pc.x, pc.y)
                &&& (x0, y0) == (
                    pa.x.lower_spec(pb.x).lower_spec(pc.x),
                    pa.y.lower_spec(pb.y).lower_spec(pc.y),
                )
                &&& (x1, y1) == (
                    pa.x.upper_spec(pb.x).upper_spec(pc.x),
                    pa.y.upper_spec(pb.y).upper_spec(pc.y),
                )
            }),
            forall|j: int| 2 <= j < k ==> !obstructs(arena.pts(), r, j),
        decreases n - k,
    {
        proof {
            lemma_at(arena.nodes@, r, k);
        }
        if is_obstacle(
            arena,
            (ax, ay),
            (bx, by),
            (cx, cy),
            (x0, y0),
            (x1, y1),
            p,
            Ghost(r),
            Ghost(k),
        ) {
            return false;
        }
        p = arena.nodes[p].next;
        proof {
            k = k + 1;
        }
    }
    assert(k == n - 1);
    true
}

/// Everything that `is_ear_hashed` relies on: the ring is linked, and its nodes are in z-order.
pub(crate) open spec fn z_ready<C: Scalar>(
    arena: Arena<C>,
    r: Seq<int>,
    ord: Seq<int>,
    g: Grid<C>,
) -> bool {
    &&& z_linked(arena.nodes@, ord, r.to_set())
    &&& forall|h: int| #[trigger] r.contains(h) ==> ord.contains(h)
    &&& forall|h: int| #[trigger]
        r.contains(h) ==> arena.nodes@[h].z == z_at(arena.pts(), g, h)
}

/// Checks whether a polygon node forms a valid ear with adjacent nodes `a` and `c`, looking only
/// at the nodes around it in z-order.
pub(crate) fn is_ear_hashed<C: Scalar>(
    arena: &Arena<C>,
    ear: usize,
    g: Grid<C>,
    Ghost(r): Ghost<Seq<int>>,
    Ghost(ord): Ghost<Seq<int>>,
) -> (res: bool)
    requires
        ring_ok(arena.nodes@, r),
        r.len() >= 3,
        ear == r[0],
        z_in_bounds(arena.nodes@),
        z_ready(*arena, r, ord, g),
    ensures
        res == is_ear_hashed_spec(arena.pts(), r, ord, g),
{
    let ghost nodes = arena.nodes@;
    let ghost pts = arena.pts();
    let ghost live = r.to_set();
    let len: usize = arena.nodes.len();
    proof {
        lemma_at(nodes, r, 0);
        lemma_at(nodes, r, 1);
        assert(r.contains(r[0]));
    }
    let node = arena.nodes[ear];
    let a: usize = node.prev;
    let c: usize = node.next;
    let (ax, ay) = arena.xy(a);
    let (bx, by) = (node.x, node.y);
    let (cx, cy) = arena.xy(c);
    let x0 = ax.lower(bx).lower(cx);
    let y0 = ay.lower(by).lower(cy);
    let x1 = ax.upper(bx).upper(cx);
    let y1 = ay.upper(by).upper(cy);
    let min_z: i32 = z_order(x0, y0, g);
    let max_z: i32 = z_order(x1, y1, g);
    let ghost e = ord.index_of(r[0]);
    proof {
        assert(ord.contains(r[0]));
        assert(0 <= e < ord.len() && ord[e] == r[0]);
        assert(live.contains(ord[e]));
    }
    let mut p: usize = node.prev_z;
    let ghost mut m: int = lemma_prev_live(ord, live, e, e - 1);
    let ghost mut open_below = true;
    proof {
        if m >= 0 {
            assert(neighbours(ord, live, m, e));
        } else {
            assert(lowest(ord, live, e));
        }
    }
    while p != NULL
        invariant_except_break
            open_below,
        invariant
            ring_ok(nodes, r),
            nodes == arena.nodes@,
            pts == arena.pts(),
            live == r.to_set(),
            len == nodes.len(),
            r.len() >= 3,
            z_in_bounds(nodes),
            z_ready(*arena, r, ord, g),
            c == r[1],
            min_z == ear_min_z(pts, r, g),
            0 <= e < ord.len(),
            ord[e] == r[0],
            live.contains(ord[e]),
            -1 <= m < e,
            p == NULL ==> m < 0,
            p != NULL ==> 0 <= m && p == ord[m] && live.contains(ord[m]),
            ({
                let pa = pts[r.last()];
                let pb = pts[r[0]];
                let pc = pts[r[1]];
                &&& (ax, ay) == (pa.x, pa.y)
                &&& (bx, by) == (pb.x, pb.y)
                &&& (cx, cy) == (pc.x, pc.y)
                &&& (x0, y0) == (
                    pa.x.lower_spec(pb.x).lower_spec(pc.x),
                    pa.y.lower_spec(pb.y).lower_spec(pc.y),
                )
                &&& (x1, y1) == (
                    pa.x.upper_spec(pb.x).upper_spec(pc.x),
                    pa.y.upper_spec(pb.y).upper_spec(pc.y),
                )
            }),
            forall|j: int|
                m < j < e && live.contains(#[trigger] ord[j]) ==> z_at(pts, g, ord[j]) >= min_z,
            forall|j: int, k: int|
                m < j < e && 2 <= k < r.len() && #[trigger] ord[j] == #[trigger] r[k]
                    ==> !obstructs(pts, r, k),
        ensures
            m >= 0 ==> live.contains(ord[m]) && z_at(pts, g, ord[m]) < min_z,
        decreases m + 1,
    {
        let pn = arena.nodes[p];
        proof {
            assert(r.contains(ord[m]));
        }
        if pn.z < min_z {
            proof {
                open_below = false;
            }
            break ;
        }
        let ghost k = r.index_of(ord[m]);
        proof {
            assert(0 <= k < r.len() && r[k] == ord[m]);
            assert(ord[m] != ord[e]);
        }
        if p != c && is_obstacle(
            arena,
            (ax, ay),
            (bx, by),
            (cx, cy),
            (x0, y0),
            (x1, y1),
            p,
            Ghost(r),
            Ghost(k),
        ) {
            proof {
                assert(k >= 2);
                assert(met_below(pts, r, ord, g, e, m, min_z)) by {
                    assert forall|j: int|
                        m <= j < e && r.contains(#[trigger] ord[j]) implies z_at(pts, g, ord[j])
                        >= min_z by {
                        assert(live.contains(ord[j]));
                    }
                }
                assert(met(pts, r, ord, g, k));
            }
            return false;
        }
        p = pn.prev_z;
        proof {
            let below = lemma_prev_live(ord, live, m, m - 1);
            if below >= 0 {
                assert(neighbours(ord, live, below, m));
            } else {
                assert(lowest(ord, live, m));
            }
            assert forall|j: int| below < j < e && live.contains(#[trigger] ord[j]) implies z_at(
                pts,
                g,
                ord[j],
            ) >= min_z by {}
            assert forall|j: int, q: int|
                below < j < e && 2 <= q < r.len() && #[trigger] ord[j] == #[trigger] r[q] implies
                !obstructs(pts, r, q) by {
                assert(r.contains(r[q]));
                assert(live.contains(ord[j]));
                if j == m {
                    assert(q == k);
                } else {
                    assert(j > m);
                }
            }
            m = below;
        }
    }
    let ghost down = m;
    let mut p: usize = node.next_z;
    let ghost mut m: int = lemma_next_live(ord, live, e, e + 1);
    let ghost mut open_above = true;
    proof {
        if m < ord.len() {
            assert(neighbours(ord, live, e, m));
        } else {
            assert(highest(ord, live, e));
        }
    }
    while p != NULL
        invariant_except_break
            open_above,
        invariant
            ring_ok(nodes, r),
            nodes == arena.nodes@,
            pts == arena.pts(),
            live == r.to_set(),
            len == nodes.len(),
            r.len() >= 3,
            z_in_bounds(nodes),
            z_ready(*arena, r, ord, g),
            c == r[1],
            max_z == ear_max_z(pts, r, g),
            0 <= e < ord.len(),
            ord[e] == r[0],
            live.contains(ord[e]),
            e < m <= ord.len(),
            p == NULL ==> m >= ord.len(),
            p != NULL ==> m < ord.len() && p == ord[m] && live.contains(ord[m]),
            ({
                let pa = pts[r.last()];
                let pb = pts[r[0]];
                let pc = pts[r[1]];
                &&& (ax, ay) == (pa.x, pa.y)
                &&& (bx, by) == (pb.x, pb.y)
                &&& (cx, cy) == (pc.x, pc.y)
                &&& (x0, y0) == (
                    pa.x.lower_spec(pb.x).lower_spec(pc.x),
                    pa.y.lower_spec(pb.y).lower_spec(pc.y),
                )
                &&& (x1, y1) == (
                    pa.x.upper_spec(pb.x).upper_spec(pc.x),
                    pa.y.upper_spec(pb.y).upper_spec(pc.y),
                )
            }),
            forall|j: int|
                e < j < m && j < ord.len() && live.contains(#[trigger] ord[j]) ==> z_at(
                    pts,
                    g,
                    ord[j],
                ) <= max_z,
            forall|j: int, k: int|
                e < j < m && j < ord.len() && 2 <= k < r.len() && #[trigger] ord[j]
                    == #[trigger] r[k] ==> !obstructs(pts, r, k),
        ensures
            m < ord.len() ==> live.contains(ord[m]) && z_at(pts, g, ord[m]) > max_z,
        decreases ord.len() - m,
    {
        let pn = arena.nodes[p];
        proof {
            assert(r.contains(ord[m]));
        }
        if pn.z > max_z {
            proof {
                open_above = false;
            }
            break ;
        }
        let ghost k = r.index_of(ord[m]);
        proof {
            assert(0 <= k < r.len() && r[k] == ord[m]);
            assert(ord[m] != ord[e]);
        }
        if p != c && is_obstacle(
            arena,
            (ax, ay),
            (bx, by),
            (cx, cy),
            (x0, y0),
            (x1, y1),
            p,
            Ghost(r),
            Ghost(k),
        ) {
            proof {
                assert(k >= 2);
                assert(met_above(pts, r, ord, g, e, m, max_z)) by {
                    assert forall|j: int|
                        e < j <= m && r.contains(#[trigger] ord[j]) implies z_at(pts, g, ord[j])
                        <= max_z by {
                        assert(live.contains(ord[j]));
                    }
                }
                assert(met(pts, r, ord, g, k));
            }
            return false;
        }
        p = pn.next_z;
        proof {
            let above = lemma_next_live(ord, live, m, m + 1);
            if above < ord.len() {
                assert(neighbours(ord, live, m, above));
            } else {
                assert(highest(ord, live, m));
            }
            assert forall|j: int, q: int|
                e < j < above && j < ord.len() && 2 <= q < r.len() && #[trigger] ord[j]
                    == #[trigger] r[q] implies !obstructs(pts, r, q) by {
                assert(r.contains(r[q]));
                assert(live.contains(ord[j]));
                if j == m {
                    assert(q == k);
                } else {
                    assert(j < m);
                }
            }
            m = above;
        }
    }
    proof {
        assert forall|k: int| 2 <= k < r.len() && #[trigger] met(pts, r, ord, g, k) implies
            !obstructs(pts, r, k) by {
            let (e2, q) = choose|e2: int, q: int|
                #![trigger ord[e2], ord[q]]
                0 <= e2 < ord.len() && 0 <= q < ord.len() && ord[e2] == r[0] && ord[q] == r[k] && (
                met_below(pts, r, ord, g, e2, q, ear_min_z(pts, r, g)) || met_above(
                    pts,
                    r,
                    ord,
                    g,
                    e2,
                    q,
                    ear_max_z(pts, r, g),
                ));
            assert(e2 == e);
            assert(r.contains(ord[q]));
            if q < e {
                if q <= down {
                    assert(r.contains(ord[down]));
                }
            } else {
                if m <= q {
                    assert(r.contains(ord[m]));
                }
            }
        }
    }
    true
}

/// Checks if a polygon diagonal is locally inside the polygon.
pub(crate) fn locally_inside<C: Scalar>(
    arena: &Arena<C>,
    a: usize,
    b: usize,
    Ghost(r): Ghost<Seq<int>>,
    Ghost(k): Ghost<int>,
) -> (res: bool)
    requires
        ring_ok(arena.nodes@, r),
        0 <= k < r.len(),
        a == r[k],
        b < arena.nodes@.len(),
    ensures
        res == locally_inside_spec(arena.pts(), r, k, b as int),
{
    proof {
        lemma_at(arena.nodes@, r, k);
    }
    let v: usize = arena.nodes[a].prev;
    let w: usize = arena.nodes[a].next;
    let z = C::from_int(0);
    if arena.area(v, a, w).less(z) {
        z.at_most(arena.area(a, b, w)) && z.at_most(arena.area(a, v, b))
    } else {
        arena.area(a, b, v).less(z) || arena.area(a, w, b).less(z)
    }
}

/// Checks if two segments intersect; with `include_boundary`, collinear boundary touches count.
pub(crate) fn intersects<C: Scalar>(
    arena: &Arena<C>,
    p1: usize,
    q1: usize,
    p2: usize,
    q2: usize,
    include_boundary: bool,
) -> (res: bool)
    requires
        p1 < arena.nodes@.len(),
        q1 < arena.nodes@.len(),
        p2 < arena.nodes@.len(),
        q2 < arena.nodes@.len(),
    ensures
        res == intersects_spec(
            arena.pts(),
            p1 as int,
            q1 as int,
            p2 as int,
            q2 as int,
            include_boundary,
        ),
{
    let (p1x, p1y) = arena.xy(p1);
    let (q1x, q1y) = arena.xy(q1);
    let (p2x, p2y) = arena.xy(p2);
    let (q2x, q2y) = arena.xy(q2);
    intersects_xy(p1x, p1y, q1x, q1y, p2x, p2y, q2x, q2y, include_boundary)
}

/// Checks if a polygon diagonal intersects any polygon segments.
pub(crate) fn intersects_polygon<C: Scalar>(
    arena: &Arena<C>,
    a: usize,
    b: usize,
    Ghost(r): Ghost<Seq<int>>,
    Ghost(j): Ghost<int>,
) -> (res: bool)
    requires
        ring_ok(arena.nodes@, r),
        0 <= j < r.len(),
        a == r[0],
        b == r[j],
    ensures
        res == intersects_polygon_spec(arena.pts(), r, j),
{
    let ghost n = r.len() as int;
    proof {
        lemma_at(arena.nodes@, r, 0);
        lemma_at(arena.nodes@, r, j);
    }
    let an = arena.nodes[a];
    let bn = arena.nodes[b];
    let min_x = an.x.lower(bn.x);
    let max_x = an.x.upper(bn.x);
    let min_y = an.y.lower(bn.y);
    let max_y = an.y.upper(bn.y);
    let mut p: usize = a;
    let ghost mut k: int = 0;
    loop
        invariant_except_break
            0 <= k < n,
            p == r[k],
            forall|q: int| 0 <= q < k ==> !edge_meets(arena.pts(), r, j, q),
        invariant
            ring_ok(arena.nodes@, r),
            n == r.len(),
            0 <= j < n,
            a == r[0],
            b == r[j],
            b < arena.nodes@.len(),
            a < arena.nodes@.len(),
            an == arena.nodes@[a as int],
            bn == arena.nodes@[b as int],
            min_x == an.x.lower_spec(bn.x),
            max_x == an.x.upper_spec(bn.x),
            min_y == an.y.lower_spec(bn.y),
            max_y == an.y.upper_spec(bn.y),
        ensures
            forall|q: int| 0 <= q < n ==> !edge_meets(arena.pts(), r, j, q),
        decreases n - k,
    {
        proof {
            lemma_at(arena.nodes@, r, k);
        }
        let pn = arena.nodes[p];
        let next: usize = pn.next;
        let v = arena.nodes[next];
        if !((max_x.less(pn.x) && max_x.less(v.x)) || (pn.x.less(min_x) && v.x.less(min_x)) || (
        max_y.less(pn.y) && max_y.less(v.y)) || (pn.y.less(min_y) && v.y.less(min_y))) && pn.i
            != an.i && v.i != an.i && pn.i != bn.i && v.i != bn.i && intersects(
            arena,
            p,
            next,
            a,
            b,
            true,
        ) {
            assert(edge_meets(arena.pts(), r, j, k));
            return true;
        }
        assert(!edge_meets(arena.pts(), r, j, k));
        p = next;
        proof {
            if k + 1 < n {
                assert(r[k + 1] != r[0]);
            }
        }
        if p == a {
            break ;
        }
        proof {
            k = k + 1;
        }
    }
    false
}

/// Checks if the middle point of a polygon diagonal is inside the polygon.
pub(crate) fn middle_inside<C: Scalar>(
    arena: &Arena<C>,
    a: usize,
    b: usize,
    Ghost(r): Ghost<Seq<int>>,
    Ghost(j): Ghost<int>,
) -> (res: bool)
    requires
        ring_ok(arena.nodes@, r),
        0 <= j < r.len(),
        a == r[0],
        b == r[j],
    ensures
        res == middle_inside_spec(arena.pts(), r, j),
{
    let ghost n = r.len() as int;
    proof {
        lemma_at(arena.nodes@, r, 0);
        lemma_at(arena.nodes@, r, j);
    }
    let an = arena.nodes[a];
    let bn = arena.nodes[b];
    let two = C::from_int(2);
    let px = an.x.plus(bn.x).over(two);
    let py = an.y.plus(bn.y).over(two);
    let mut p: usize = a;
    let mut inside: bool = false;
    let ghost mut k: int = 0;
    loop
        invariant_except_break
            0 <= k < n,
            p == r[k],
            inside == odd_crossings(arena.pts(), r, px, py, k),
        invariant
            ring_ok(arena.nodes@, r),
            n == r.len(),
            a == r[0],
        ensures
            inside == odd_crossings(arena.pts(), r, px, py, n),
        decreases n - k,
    {
        proof {
            lemma_at(arena.nodes@, r, k);
        }
        let q = arena.nodes[p];
        let next: usize = q.next;
        let v = arena.nodes[next];
        if py.less(q.y) != py.less(v.y) && px.less(
            v.x.minus(q.x).times(py.minus(q.y)).over(v.y.minus(q.y)).plus(q.x),
        ) {
            inside = !inside;
        }
        p = next;
        proof {
            if k + 1 < n {
                assert(r[k + 1] != r[0]);
            }
        }
        if p == a {
            break ;
        }
        proof {
            k = k + 1;
        }
    }
    inside
}

/// Checks if a diagonal between two polygon nodes is valid (lies in polygon interior).
pub(crate) fn is_valid_diagonal<C: Scalar>(
    arena: &Arena<C>,
    a: usize,
    b: usize,
    Ghost(r): Ghost<Seq<int>>,
    Ghost(j): Ghost<int>,
) -> (res: bool)
    requires
        ring_ok(arena.nodes@, r),
        0 <= j < r.len(),
        a == r[0],
        b == r[j],
    ensures
        res == valid_diagonal(arena.pts(), r, j),
{
    proof {
        lemma_at(arena.nodes@, r, 0);
        lemma_at(arena.nodes@, r, j);
    }
    let z = C::from_int(0);
    let ap: usize = arena.nodes[a].prev;
    let an: usize = arena.nodes[a].next;
    let bp: usize = arena.nodes[b].prev;
    let bn: usize = arena.nodes[b].next;
    let zero_length: bool = arena.equals(a, b) && z.less(arena.area(ap, a, an)) && z.less(
        arena.area(bp, b, bn),
    );
    assert(zero_length == touches_reflex(arena.pts(), r, j));
    arena.nodes[an].i != arena.nodes[b].i && (zero_length || (locally_inside(
        arena,
        a,
        b,
        Ghost(r),
        Ghost(0int),
    ) && locally_inside(arena, b, a, Ghost(r), Ghost(j)) && (!arena.area(ap, a, bp).same(z)
        || !arena.area(a, bp, b).same(z)))) && !intersects_polygon(arena, a, b, Ghost(r), Ghost(j))
        && (zero_length || middle_inside(arena, a, b, Ghost(r), Ghost(j)))
}

} // verus!
