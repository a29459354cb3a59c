//! Finding the node of the outer ring to which a hole is connected.
use vstd::prelude::*;
use crate::arena::{dead, lemma_at, linked_at, owners, ring_ok, z_in_bounds, Arena};
use crate::blocks::{index_is, list_is};
use crate::geometry::point_in_triangle;
use crate::hole_model::{
    bridge, lean_blocks, lean_node, lean_over, ray_blocks, ray_edge, ray_over, ray_start,
    sector_contains, Lean, Outline, Ray,
};
use crate::model::{area, pred, succ, Pt};
use crate::query::locally_inside;
use crate::scalar::Scalar;

verus! {

/// The arena holds the outline.
pub(crate) open spec fn outline_is<C: Scalar>(arena: Arena<C>, o: Outline<C>) -> bool {
    &&& arena.pts() == o.pts
    &&& ring_ok(arena.nodes@, o.ring)
    &&& owners(arena.nodes@) == o.owner
    &&& z_in_bounds(arena.nodes@)
    &&& arena.block_bbox@ == o.boxes
    &&& o.lists.len() == o.boxes.len()
    &&& arena.index_active == (o.boxes.len() > 0)
    &&& o.boxes.len() > 0 ==> index_is(arena, o.boxes, o.lists)
    &&& forall|j: int, k: int|
        0 <= j < o.lists.len() && 0 <= k < o.lists[j].len() ==> #[trigger] tracked_node(
            arena,
            o.ring,
            o.lists[j][k],
        )
    &&& o.boxes.len() > 0 ==> forall|h: int| #[trigger]
        o.ring.contains(h) ==> 0 <= o.owner[h] < o.boxes.len()
}

/// The node is in the ring, or can be told to be in none.
pub(crate) open spec fn tracked_node<C>(arena: Arena<C>, ring: Seq<int>, h: int) -> bool {
    0 <= h < arena.nodes@.len() && (ring.contains(h) || dead(arena.nodes@, h))
}

/// The node number that an optional link stands for.
pub(crate) open spec fn as_node(p: Option<usize>) -> Option<int> {
    match p {
        Some(h) => Some(h as int),
        None => None,
    }
}

/// What a ray cast to the left has met.
struct Hit<C> {
    /// Where the ray meets the ring, the nearest point so far.
    qx: C,
    /// The end of the edge met there that is to be connected.
    m: Option<usize>,
    /// Whether nothing nearer can be met.
    done: bool,
}

impl<C: Scalar> Hit<C> {
    spec fn ray(self) -> Ray<C> {
        Ray { qx: self.qx, m: as_node(self.m), done: self.done }
    }

    fn start() -> (r: Self)
        ensures
            r.ray() == ray_start::<C>(),
    {
        Hit { qx: C::neg_infinity(), m: None, done: false }
    }
}

/// The place of a node in a ring is the only one.
pub(crate) proof fn lemma_index_of(r: Seq<int>, k: int)
    requires
        r.no_duplicates(),
        0 <= k < r.len(),
    ensures
        r.index_of(r[k]) == k,
        r.contains(r[k]),
{
    assert(r.contains(r[k]));
    let j = r.index_of(r[k]);
    assert(0 <= j < r.len() && r[j] == r[k]);
}

/// The place of a node in a ring is where the node is.
pub(crate) proof fn lemma_place<C>(arena: Arena<C>, r: Seq<int>, h: int)
    requires
        ring_ok(arena.nodes@, r),
        r.contains(h),
    ensures
        0 <= r.index_of(h) < r.len(),
        r[r.index_of(h)] == h,
        linked_at(arena.nodes@, r, r.index_of(h)),
        0 <= succ(r, r.index_of(h)) < arena.nodes@.len(),
        0 <= pred(r, r.index_of(h)) < arena.nodes@.len(),
        r.contains(succ(r, r.index_of(h))),
{
    let k = r.index_of(h);
    assert(0 <= k < r.len() && r[k] == h);
    lemma_at(arena.nodes@, r, k);
}

/// The node that a ray has found is in the ring.
proof fn lemma_ray_node<C: Scalar>(
    arena: Arena<C>,
    r: Seq<int>,
    hx: C,
    hy: C,
    nodes: Seq<int>,
    s: Ray<C>,
)
    requires
        ring_ok(arena.nodes@, r),
        s.m matches Some(m) ==> r.contains(m),
    ensures
        ray_over(arena.pts(), r, hx, hy, nodes, s).m matches Some(m) ==> r.contains(m),
    decreases nodes.len(),
{
    if nodes.len() > 0 {
        lemma_ray_node(arena, r, hx, hy, nodes.drop_last(), s);
        if r.contains(nodes.last()) {
            lemma_place(arena, r, nodes.last());
        }
    }
}

/// Nothing is met behind the nearest.
proof fn lemma_ray_done<C: Scalar>(
    pts: Seq<Pt<C>>,
    r: Seq<int>,
    hx: C,
    hy: C,
    nodes: Seq<int>,
    s: Ray<C>,
    k: int,
)
    requires
        0 <= k <= nodes.len(),
        ray_over(pts, r, hx, hy, nodes.take(k), s).done,
    ensures
        ray_over(pts, r, hx, hy, nodes, s) == ray_over(pts, r, hx, hy, nodes.take(k), s),
    decreases nodes.len() - k,
{
    if k == nodes.len() {
        assert(nodes.take(k) =~= nodes);
    } else {
        assert(nodes.take(k + 1).drop_last() =~= nodes.take(k));
        lemma_ray_done(pts, r, hx, hy, nodes, s, k + 1);
    }
}

/// Nothing is met in blocks behind the nearest.
proof fn lemma_blocks_done<C: Scalar>(o: Outline<C>, hx: C, hy: C, k: int, n: int)
    requires
        0 <= k <= n,
        ray_blocks(o, hx, hy, k).done,
    ensures
        ray_blocks(o, hx, hy, n) == ray_blocks(o, hx, hy, k),
    decreases n - k,
{
    if k < n {
        lemma_blocks_done(o, hx, hy, k, n - 1);
    }
}

/// Casts the ray at the edge from `p` to the next node.
fn cast_edge<C: Scalar>(
    arena: &Arena<C>,
    hx: C,
    hy: C,
    s: Hit<C>,
    p: usize,
    Ghost(r): Ghost<Seq<int>>,
) -> (t: Hit<C>)
    requires
        ring_ok(arena.nodes@, r),
        r.contains(p as int),
    ensures
        t.ray() == ray_edge(
            arena.pts(),
            hx,
            hy,
            s.ray(),
            p as int,
            succ(r, r.index_of(p as int)),
        ),
{
    proof {
        lemma_place(*arena, r, p as int);
    }
    let n: usize = arena.nodes[p].next;
    let (px, py) = arena.xy(p);
    let (nx, ny) = arena.xy(n);
    if hx.same(nx) && hy.same(ny) {
        return Hit { qx: s.qx, m: Some(n), done: true };
    }
    if hy.at_most(py) && ny.at_most(hy) && !ny.same(py) {
        let x = px.plus(hy.minus(py).times(nx.minus(px)).over(ny.minus(py)));
        if x.at_most(hx) && s.qx.less(x) {
            let m: usize = if px.less(nx) {
                p
            } else {
                n
            };
            return Hit { qx: x, m: Some(m), done: x.same(hx) };
        }
    }
    s
}

/// Checks whether the sector in vertex `m` contains the sector in vertex `p` in the same
/// coordinates.
fn sector_contains_sector<C: Scalar>(
    arena: &Arena<C>,
    m: usize,
    p: usize,
    Ghost(r): Ghost<Seq<int>>,
) -> (res: bool)
    requires
        ring_ok(arena.nodes@, r),
        r.contains(m as int),
        r.contains(p as int),
    ensures
        res == sector_contains(arena.pts(), r, m as int, p as int),
{
    proof {
        lemma_place(*arena, r, m as int);
        lemma_place(*arena, r, p as int);
    }
    let nm = arena.nodes[m];
    let np = arena.nodes[p];
    arena.area(nm.prev, m, np.prev).less(C::from_int(0)) && arena.area(np.next, m, nm.next).less(
        C::from_int(0),
    )
}

/// Compares the node `p` with the best so far, `m` and its tangent.
fn compare_node<C: Scalar>(
    arena: &Arena<C>,
    hole: usize,
    qx: C,
    m0: usize,
    m: usize,
    tan_min: C,
    p: usize,
    Ghost(r): Ghost<Seq<int>>,
) -> (res: (usize, C))
    requires
        ring_ok(arena.nodes@, r),
        hole < arena.nodes@.len(),
        m0 < arena.nodes@.len(),
        r.contains(m as int),
        r.contains(p as int),
    ensures
        (Lean { m: res.0 as int, tan: res.1 }) == lean_node(
            arena.pts(),
            r,
            hole as int,
            qx,
            m0 as int,
            (Lean { m: m as int, tan: tan_min }),
            p as int,
        ),
        r.contains(res.0 as int),
{
    proof {
        lemma_place(*arena, r, p as int);
        lemma_place(*arena, r, m as int);
    }
    let (hx, hy) = arena.xy(hole);
    let (mx, my) = arena.xy(m0);
    let (px, py) = arena.xy(p);
    let under: bool = hy.less(my);
    if px.at_most(hx) && mx.at_most(px) && !hx.same(px) && point_in_triangle(
        if under {
            hx
        } else {
            qx
        },
        hy,
        mx,
        my,
        if under {
            qx
        } else {
            hx
        },
        hy,
        px,
        py,
    ) {
        let tan = hy.minus(py).magnitude().over(hx.minus(px));
        let (nx, ny) = arena.xy(arena.nodes[p].next);
        let (bx, _by) = arena.xy(m);
        // a hole node on a horizontal edge is connected along that edge, which the test of the
        // angle takes for collinear
        if (locally_inside(arena, p, hole, Ghost(r), Ghost(r.index_of(p as int))) || (py.same(hy)
            && ny.same(hy) && hx.less(nx))) && (tan.less(tan_min) || (tan.same(tan_min) && (
        bx.less(px) || (px.same(bx) && sector_contains_sector(arena, m, p, Ghost(r)))))) {
            return (p, tan);
        }
    }
    (m, tan_min)
}

/// Casts the ray at the edges that the nodes of one block start.
fn cast_block<C: Scalar>(
    arena: &Arena<C>,
    hx: C,
    hy: C,
    s: Hit<C>,
    b: usize,
    Ghost(o): Ghost<Outline<C>>,
) -> (t: Hit<C>)
    requires
        outline_is(*arena, o),
        b < o.boxes.len(),
        !s.done,
    ensures
        t.ray() == ray_over(o.pts, o.ring, hx, hy, o.lists[b as int], s.ray()),
{
    let ghost list = o.lists[b as int];
    let ghost r = o.ring;
    assert(list_is(*arena, list, b as int));
    let (from, to) = arena.block_range(b);
    let mut t = s;
    let mut i: usize = from;
    assert(list.take(0) =~= Seq::<int>::empty());
    while i < to
        invariant
            outline_is(*arena, o),
            b < o.boxes.len(),
            list == o.lists[b as int],
            list_is(*arena, list, b as int),
            from == arena.block_start@[b as int],
            to == arena.block_start@[b + 1],
            from <= i <= to,
            r == o.ring,
            !t.done,
            t.ray() == ray_over(o.pts, r, hx, hy, list.take(i - from), s.ray()),
        decreases to - i,
    {
        let ghost k = i - from;
        assert(list[k] == arena.block_nodes@[from + k]);
        assert(tracked_node(*arena, r, o.lists[b as int][k]));
        let p: usize = arena.block_nodes[i];
        proof {
            assert(list.take(k + 1).drop_last() =~= list.take(k));
            if r.contains(p as int) {
                lemma_place(*arena, r, p as int);
                let j = r.index_of(p as int);
                lemma_at(arena.nodes@, r, crate::model::before(j, r.len() as int));
            }
        }
        let prev: usize = arena.nodes[p].prev;
        // nodes that have been dropped from the ring are passed over
        if arena.is_live(p, prev) {
            t = cast_edge(arena, hx, hy, t, p, Ghost(r));
            if t.done {
                proof {
                    lemma_ray_done(o.pts, r, hx, hy, list, s.ray(), k + 1);
                }
                return t;
            }
        }
        i = i + 1;
    }
    assert(list.take(to - from) =~= list);
    t
}

/// Compares the nodes of one block with the best so far.
fn compare_block<C: Scalar>(
    arena: &Arena<C>,
    hole: usize,
    qx: C,
    m0: usize,
    m: usize,
    tan_min: C,
    b: usize,
    Ghost(o): Ghost<Outline<C>>,
) -> (res: (usize, C))
    requires
        outline_is(*arena, o),
        b < o.boxes.len(),
        hole < arena.nodes@.len(),
        m0 < arena.nodes@.len(),
        o.ring.contains(m as int),
    ensures
        (Lean { m: res.0 as int, tan: res.1 }) == lean_over(
            o.pts,
            o.ring,
            hole as int,
            qx,
            m0 as int,
            o.lists[b as int],
            (Lean { m: m as int, tan: tan_min }),
        ),
        o.ring.contains(res.0 as int),
{
    let ghost list = o.lists[b as int];
    let ghost r = o.ring;
    let ghost s = Lean { m: m as int, tan: tan_min };
    assert(list_is(*arena, list, b as int));
    let (from, to) = arena.block_range(b);
    let mut best: usize = m;
    let mut tan = tan_min;
    let mut i: usize = from;
    assert(list.take(0) =~= Seq::<int>::empty());
    while i < to
        invariant
            outline_is(*arena, o),
            b < o.boxes.len(),
            hole < arena.nodes@.len(),
            m0 < arena.nodes@.len(),
            list == o.lists[b as int],
            list_is(*arena, list, b as int),
            from == arena.block_start@[b as int],
            to == arena.block_start@[b + 1],
            from <= i <= to,
            r == o.ring,
            r.contains(best as int),
            (Lean { m: best as int, tan }) == lean_over(
                o.pts,
                r,
                hole as int,
                qx,
                m0 as int,
                list.take(i - from),
                s,
            ),
        decreases to - i,
    {
        let ghost k = i - from;
        assert(list[k] == arena.block_nodes@[from + k]);
        assert(tracked_node(*arena, r, o.lists[b as int][k]));
        let p: usize = arena.block_nodes[i];
        proof {
            assert(list.take(k + 1).drop_last() =~= list.take(k));
            if r.contains(p as int) {
                lemma_place(*arena, r, p as int);
                let j = r.index_of(p as int);
                lemma_at(arena.nodes@, r, crate::model::before(j, r.len() as int));
            }
        }
        let prev: usize = arena.nodes[p].prev;
        // nodes that have been dropped from the ring are passed over
        if arena.is_live(p, prev) {
            let (next_best, next_tan) = compare_node(arena, hole, qx, m0, best, tan, p, Ghost(r));
            best = next_best;
            tan = next_tan;
        }
        i = i + 1;
    }
    assert(list.take(to - from) =~= list);
    (best, tan)
}

/// David Eberly's algorithm for finding a bridge between hole and outer polygon, using the
/// hole-bridge index, if there is one, to skip whole runs of ring edges that cannot possibly beat
/// the best crossing so far.
pub(crate) fn find_hole_bridge<C: Scalar>(
    arena: &Arena<C>,
    hole: usize,
    outer_node: usize,
    Ghost(o): Ghost<Outline<C>>,
) -> (res: Option<usize>)
    requires
        outline_is(*arena, o),
        outer_node == o.ring[0],
        hole < arena.nodes@.len(),
    ensures
        as_node(res) == bridge(o, hole as int),
        res matches Some(b) ==> o.ring.contains(b as int),
{
    let num_blocks: usize = arena.block_bbox.len();
    if num_blocks == 0 {
        return find_hole_bridge_linear(arena, hole, outer_node, Ghost(o));
    }
    proof {
        lemma_at(arena.nodes@, o.ring, 0);
        assert(o.ring.contains(o.ring[0]));
    }
    let (hx, hy) = arena.xy(hole);
    if arena.equals(hole, outer_node) {
        return Some(outer_node);
    }
    // find a segment intersected by a ray from the hole's leftmost vertex to the left; segment's
    // endpoint with lesser x will be potential connection vertex, unless they intersect at a
    // vertex, then choose the vertex
    let mut s = Hit::start();
    let mut b: usize = 0;
    while b < num_blocks && !s.done
        invariant
            outline_is(*arena, o),
            num_blocks == o.boxes.len(),
            b <= num_blocks,
            s.ray() == ray_blocks(o, hx, hy, b as int),
            s.m matches Some(m) ==> o.ring.contains(m as int),
        decreases num_blocks - b,
    {
        let bb = arena.block_bbox[b];
        if !(hy.less(bb.min_y) || bb.max_y.less(hy) || hx.less(bb.min_x) || bb.max_x.at_most(s.qx)) {
            proof {
                lemma_ray_node(*arena, o.ring, hx, hy, o.lists[b as int], s.ray());
            }
            s = cast_block(arena, hx, hy, s, b, Ghost(o));
        }
        b = b + 1;
    }
    proof {
        if s.done {
            lemma_blocks_done(o, hx, hy, b as int, num_blocks as int);
        }
    }
    if s.done {
        return s.m;
    }
    let m0: usize = match s.m {
        Some(m) => m,
        None => return None,
    };
    proof {
        lemma_place(*arena, o.ring, m0 as int);
    }
    // look for points inside the triangle of hole vertex, segment intersection and endpoint; if
    // there are no points found, we have a valid connection; otherwise choose the vertex of the
    // minimum angle with the ray as connection vertex
    let (mx, my) = arena.xy(m0);
    let t_min_y = hy.lower(my);
    let t_max_y = hy.upper(my);
    let mut best: usize = m0;
    let mut tan_min = C::infinity();
    let mut b: usize = 0;
    while b < num_blocks
        invariant
            outline_is(*arena, o),
            num_blocks == o.boxes.len(),
            hole < arena.nodes@.len(),
            m0 < arena.nodes@.len(),
            b <= num_blocks,
            hx == o.pts[hole as int].x,
            hy == o.pts[hole as int].y,
            mx == o.pts[m0 as int].x,
            my == o.pts[m0 as int].y,
            t_min_y == hy.lower_spec(my),
            t_max_y == hy.upper_spec(my),
            o.ring.contains(best as int),
            (Lean { m: best as int, tan: tan_min }) == lean_blocks(
                o,
                hole as int,
                s.qx,
                m0 as int,
                b as int,
            ),
        decreases num_blocks - b,
    {
        let bb = arena.block_bbox[b];
        if !(bb.max_x.less(mx) || hx.less(bb.min_x) || bb.max_y.less(t_min_y) || t_max_y.less(
            bb.min_y,
        )) {
            let (next_best, next_tan) = compare_block(
                arena,
                hole,
                s.qx,
                m0,
                best,
                tan_min,
                b,
                Ghost(o),
            );
            best = next_best;
            tan_min = next_tan;
        }
        b = b + 1;
    }
    Some(best)
}

/// Linear bridge search for small polygons, where building and scanning the hole-bridge index
/// costs more than the box checks can save.
fn find_hole_bridge_linear<C: Scalar>(
    arena: &Arena<C>,
    hole: usize,
    outer_node: usize,
    Ghost(o): Ghost<Outline<C>>,
) -> (res: Option<usize>)
    requires
        outline_is(*arena, o),
        o.boxes.len() == 0,
        outer_node == o.ring[0],
        hole < arena.nodes@.len(),
    ensures
        as_node(res) == bridge(o, hole as int),
        res matches Some(b) ==> o.ring.contains(b as int),
{
    let ghost r = o.ring;
    proof {
        lemma_at(arena.nodes@, r, 0);
        lemma_index_of(r, 0);
    }
    let (hx, hy) = arena.xy(hole);
    if arena.equals(hole, outer_node) {
        return Some(outer_node);
    }
    let mut s = Hit::start();
    let mut p: usize = outer_node;
    let ghost mut k: int = 0;
    assert(r.take(0) =~= Seq::<int>::empty());
    loop
        invariant_except_break
            0 <= k < r.len(),
            p == r[k],
            !s.done,
        invariant
            ring_ok(arena.nodes@, r),
            arena.pts() == o.pts,
            outer_node == r[0],
            0 <= k <= r.len(),
            s.ray() == ray_over(o.pts, r, hx, hy, r.take(k), ray_start()),
            s.m matches Some(m) ==> r.contains(m as int),
        ensures
            s.done || k == r.len(),
        decreases r.len() - k,
    {
        proof {
            lemma_at(arena.nodes@, r, k);
            lemma_index_of(r, k);
            assert(r.take(k + 1).drop_last() =~= r.take(k));
            lemma_ray_node(*arena, r, hx, hy, r.take(k + 1), ray_start());
        }
        s = cast_edge(arena, hx, hy, s, p, Ghost(r));
        p = arena.nodes[p].next;
        proof {
            k = k + 1;
            if k < r.len() {
                assert(r[k] != r[0]);
            }
        }
        if s.done || p == outer_node {
            break ;
        }
    }
    proof {
        if s.done {
            lemma_ray_done(o.pts, r, hx, hy, r, ray_start(), k);
        } else {
            assert(r.take(k) =~= r);
        }
    }
    if s.done {
        return s.m;
    }
    let m0: usize = match s.m {
        Some(m) => m,
        None => return None,
    };
    proof {
        lemma_place(*arena, r, m0 as int);
    }
    let mut best: usize = m0;
    let mut tan_min = C::infinity();
    let mut p: usize = outer_node;
    let ghost start = Lean { m: m0 as int, tan: tan_min };
    let ghost mut k: int = 0;
    loop
        invariant_except_break
            0 <= k < r.len(),
            p == r[k],
        invariant
            ring_ok(arena.nodes@, r),
            arena.pts() == o.pts,
            outer_node == r[0],
            hole < arena.nodes@.len(),
            m0 < arena.nodes@.len(),
            0 <= k <= r.len(),
            r.contains(best as int),
            (Lean { m: best as int, tan: tan_min }) == lean_over(
                o.pts,
                r,
                hole as int,
                s.qx,
                m0 as int,
                r.take(k),
                start,
            ),
        ensures
            k == r.len(),
        decreases r.len() - k,
    {
        proof {
            lemma_at(arena.nodes@, r, k);
            lemma_index_of(r, k);
            assert(r.take(k + 1).drop_last() =~= r.take(k));
        }
        let (next_best, next_tan) = compare_node(
            arena,
            hole,
            s.qx,
            m0,
            best,
            tan_min,
            p,
            Ghost(r),
        );
        best = next_best;
        tan_min = next_tan;
        p = arena.nodes[p].next;
        proof {
            k = k + 1;
            if k < r.len() {
                assert(r[k] != r[0]);
            }
        }
        if p == outer_node {
            break ;
        }
    }
    assert(r.take(k) =~= r);
    Some(best)
}

} // verus!
