//! Triangulating a polygon given by flat coordinates.
use vstd::prelude::*;
use crate::arena::{ring_ok, Arena};
use crate::bounds::{all_below, hole_vertices, lemma_listed, lemma_sliced, lemma_without_holes};
use crate::clip::earcut_linked;
use crate::geometry::Grid;
use crate::hole_model::{holes_fit, listed, queued, sortable, without_holes, Listed};
use crate::holes::{eliminate_holes, heads_are, holes_ok, lemma_count, lemma_fits, queue_holes};
use crate::index::{indices, vertices, EarcutIndex};
use crate::lists::linked_list;
use crate::model::{grown_box, sliced, BBox};
use crate::scalar::Scalar;

verus! {

/// The flat form of a polygon: `dim` numbers per vertex, x and y first, and holes that start at
/// vertices in range.
pub open spec fn is_flat<C>(data: Seq<C>, holes: Seq<usize>, dim: int) -> bool {
    &&& dim >= 2
    &&& data.len() as int % dim == 0
    &&& holes_fit(data.len() as int / dim, holes)
}

/// The number of vertices of the outer ring.
pub open spec fn outer_count(holes: Seq<usize>, count: int) -> int {
    if holes.len() > 0 {
        holes[0] as int
    } else {
        count
    }
}

/// The outer ring as it is read from the data.
pub open spec fn outer_ring<C: Scalar>(data: Seq<C>, holes: Seq<usize>, dim: int) -> Listed<C> {
    listed(Seq::empty(), data, dim, 0, outer_count(holes, data.len() as int / dim), true)
}

/// The leftmost nodes of the holes can be put in order, if there is an outer ring to merge them
/// into.
pub open spec fn holes_sortable<C: Scalar>(data: Seq<C>, holes: Seq<usize>, dim: int) -> bool {
    let l = outer_ring(data, holes, dim);
    let q = queued(l.pts, data, dim, holes, holes.len() as int);
    l.ring.len() > 2 ==> forall|j: int, k: int|
        0 <= j < k < q.holes.len() ==> sortable(q.pts, #[trigger] q.holes[j], #[trigger] q.holes[k])
}

/// The box around the first `k` vertices, of which there is at least one.
pub open spec fn extent<C: Scalar>(data: Seq<C>, dim: int, k: int) -> BBox<C>
    decreases k,
{
    if k <= 1 {
        BBox { min_x: data[0], min_y: data[1], max_x: data[0], max_y: data[1] }
    } else {
        grown_box(extent(data, dim, k - 1), data[(k - 1) * dim], data[(k - 1) * dim + 1])
    }
}

/// The grid over the box around the outer ring.
pub open spec fn grid_over<C: Scalar>(b: BBox<C>) -> Grid<C> {
    let size = b.max_x.minus_spec(b.min_x).upper_spec(b.max_y.minus_spec(b.min_y));
    Grid {
        min_x: b.min_x,
        min_y: b.min_y,
        inv_size: if size.same_spec(C::from_int_spec(0)) {
            C::from_int_spec(0)
        } else {
            C::from_int_spec(32767).over_spec(size)
        },
    }
}

/// Number of vertices above which ears are searched by z-order.
pub const HASH_MIN_VERTICES: usize = 80;

/// The grid by which ears are searched: that over the outer ring, or none if there are few
/// vertices.
pub open spec fn ear_grid<C: Scalar>(data: Seq<C>, dim: int, outer: int) -> Grid<C> {
    if data.len() as int / dim > HASH_MIN_VERTICES {
        grid_over(extent(data, dim, outer))
    } else {
        Grid {
            min_x: C::from_int_spec(0),
            min_y: C::from_int_spec(0),
            inv_size: C::from_int_spec(0),
        }
    }
}

/// The polygon as a single ring.
pub open spec fn single_ring<C: Scalar>(data: Seq<C>, holes: Seq<usize>, dim: int) -> Listed<C> {
    let l = outer_ring(data, holes, dim);
    if holes.len() > 0 {
        without_holes(l, data, dim, holes)
    } else {
        l
    }
}

/// The triangulation of a polygon, as vertex indices three by three.
pub open spec fn triangulation<C: Scalar>(data: Seq<C>, holes: Seq<usize>, dim: int) -> Seq<usize> {
    if data.len() == 0 || dim == 0 || outer_ring(data, holes, dim).ring.len() <= 2 {
        Seq::empty()
    } else {
        let w = single_ring(data, holes, dim);
        let outer = outer_count(holes, data.len() as int / dim);
        sliced(w.pts, w.ring, ear_grid(data, dim, outer)).tris
    }
}

/// What [`earcut`] and its kin accept.
pub open spec fn acceptable<C: Scalar, N: EarcutIndex>(
    data: Seq<C>,
    holes: Seq<usize>,
    dim: int,
) -> bool {
    data.len() == 0 || dim == 0 || {
        &&& is_flat(data, holes, dim)
        &&& holes_sortable(data, holes, dim)
        &&& forall|v: usize| v < data.len() as int / dim ==> #[trigger] N::fits(v)
    }
}

/// Finds the box around the vertices of the outer ring.
fn find_extent<C: Scalar>(data: &[C], outer_len: usize, dim: usize, Ghost(outer): Ghost<int>) -> (b:
    BBox<C>)
    requires
        dim >= 2,
        outer >= 1,
        outer_len == outer * dim,
        outer_len <= data@.len(),
    ensures
        b == extent(data@, dim as int, outer),
{
    let ghost len = data@.len() as int;
    proof {
        lemma_fits(1, outer, dim as int);
    }
    let mut b = BBox { min_x: data[0], min_y: data[1], max_x: data[0], max_y: data[1] };
    let mut i: usize = dim;
    let ghost mut k: int = 1;
    while i < outer_len
        invariant
            dim >= 2,
            1 <= k <= outer,
            outer_len == outer * dim,
            outer_len <= data@.len(),
            i == k * dim,
            b == extent(data@, dim as int, k),
        decreases outer - k,
    {
        proof {
            assert(k < outer) by (nonlinear_arith)
                requires
                    k * dim < outer * dim,
                    dim >= 2,
            ;
            assert((k + 1) * dim == k * dim + dim) by (nonlinear_arith);
            lemma_fits(k + 1, outer, dim as int);
        }
        let x = data[i];
        let y = data[i + 1];
        if x.less(b.min_x) {
            b.min_x = x;
        }
        if y.less(b.min_y) {
            b.min_y = y;
        }
        if b.max_x.less(x) {
            b.max_x = x;
        }
        if b.max_y.less(y) {
            b.max_y = y;
        }
        i = i + dim;
        proof {
            k = k + 1;
        }
    }
    proof {
        assert(k >= outer) by (nonlinear_arith)
            requires
                k * dim >= outer * dim,
                dim >= 2,
        ;
    }
    b
}

/// Computes the grid over a box.
fn make_grid<C: Scalar>(b: BBox<C>) -> (g: Grid<C>)
    ensures
        g == grid_over(b),
{
    let size = b.max_x.minus(b.min_x).upper(b.max_y.minus(b.min_y));
    let inv_size = if size.same(C::from_int(0)) {
        C::from_int(0)
    } else {
        C::from_int(32767).over(size)
    };
    Grid { min_x: b.min_x, min_y: b.min_y, inv_size }
}

/// Shared triangulation body driving `arena`; used by both the one-shot free functions (with a
/// fresh arena each call) and [`Earcut`] (whose arena is reused across calls).
fn earcut_impl<C: Scalar, N: EarcutIndex>(
    arena: &mut Arena<C>,
    data: &[C],
    hole_indices: &[usize],
    dim: usize,
    triangles: &mut Vec<N>,
)
    requires
        acceptable::<C, N>(data@, hole_indices@, dim as int),
    ensures
        final(triangles)@ == indices::<N>(triangulation(data@, hole_indices@, dim as int)),
        vertices(final(triangles)@) == triangulation(data@, hole_indices@, dim as int),
        data@.len() == 0 || dim == 0 ==> *final(arena) == *old(arena),
{
    triangles.clear();
    assert(vertices(triangles@) =~= Seq::<usize>::empty());
    if data.len() == 0 || dim == 0 {
        return ;
    }
    let ghost count = data@.len() as int / dim as int;
    let ghost outer = outer_count(hole_indices@, count);
    let ghost l = outer_ring(data@, hole_indices@, dim as int);
    let size: usize = data.len();
    let has_holes: bool = hole_indices.len() > 0;
    proof {
        lemma_count(data@.len() as int, dim as int);
        lemma_fits(outer, count, dim as int);
        lemma_count_fits(data@.len() as int, dim as int);
    }
    let outer_len: usize = if has_holes {
        hole_indices[0] * dim
    } else {
        size
    };
    arena.reset();
    assert(arena.pts() =~= Seq::empty());
    let outer_node = match linked_list(
        arena,
        data,
        0,
        outer_len,
        dim,
        true,
        Ghost(0),
        Ghost(outer),
    ) {
        Some(n) => n,
        None => {
            return ;
        },
    };
    proof {
        crate::arena::lemma_at(arena.nodes@, l.ring, 0);
        lemma_listed(Seq::empty(), data@, dim as int, 0, outer, true, count);
    }
    if arena.nodes[outer_node].next == arena.nodes[outer_node].prev {
        proof {
            if l.ring.len() > 2 {
                assert(l.ring[1] != l.ring[l.ring.len() - 1]);
            }
        }
        return ;
    }
    let ghost w = single_ring(data@, hole_indices@, dim as int);
    let outer_node: usize = if has_holes {
        proof {
            lemma_without_holes(l, data@, dim as int, hole_indices@, count);
        }
        eliminate_holes(arena, data, hole_indices, outer_node, dim, Ghost(l))
    } else {
        outer_node
    };
    let g = if size / dim > HASH_MIN_VERTICES {
        make_grid(find_extent(data, outer_len, dim, Ghost(outer)))
    } else {
        Grid { min_x: C::from_int(0), min_y: C::from_int(0), inv_size: C::from_int(0) }
    };
    proof {
        assert(g == ear_grid(data@, dim as int, outer));
        assert forall|h: int| 0 <= h < w.pts.len() implies N::fits(#[trigger] w.pts[h].i) by {
            assert(w.pts[h].i < count);
        }
        assert(Seq::<usize>::empty() + sliced(w.pts, w.ring, g).tris =~= sliced(
            w.pts,
            w.ring,
            g,
        ).tris);
    }
    earcut_linked(arena, outer_node, triangles, g, Ghost(w.ring));
    proof {
        let tris = triangulation(data@, hole_indices@, dim as int);
        assert forall|k: int| 0 <= k < triangles@.len() implies #[trigger] triangles@[k]
            == indices::<N>(tris)[k] by {
            assert(vertices(triangles@)[k] == triangles@[k].vertex());
        }
    }
}

/// A triangulation lists vertices of the polygon three by three: at most `n - 2` triangles for a
/// polygon of `n` vertices without holes, and at most two more for each hole.
pub proof fn lemma_triangulation<C: Scalar>(data: Seq<C>, holes: Seq<usize>, dim: int)
    requires
        data.len() == 0 || dim == 0 || is_flat(data, holes, dim),
        data.len() <= usize::MAX,
    ensures
        ({
            let tris = triangulation(data, holes, dim);
            let count = data.len() as int / dim;
            let outer = outer_count(holes, count);
            &&& tris.len() % 3 == 0
            &&& all_below(tris, count)
            &&& tris.len() > 0 ==> tris.len() <= 3 * (outer + hole_vertices(
                holes,
                count,
                holes.len() as int,
            ) + 2 * holes.len() - 2)
        }),
{
    if data.len() > 0 && dim != 0 && outer_ring(data, holes, dim).ring.len() > 2 {
        let count = data.len() as int / dim;
        let outer = outer_count(holes, count);
        let l = outer_ring(data, holes, dim);
        let w = single_ring(data, holes, dim);
        let g = ear_grid(data, dim, outer);
        lemma_count_fits(data.len() as int, dim);
        lemma_listed(Seq::empty(), data, dim, 0, outer, true, count);
        if holes.len() > 0 {
            lemma_without_holes(l, data, dim, holes, count);
        }
        lemma_sliced(w.pts, w.ring, g, count);
        assert(sliced(w.pts, w.ring, g).tris.len() > 0 ==> w.ring.len() > 2);
    }
}

/// There is nothing to triangulate if there are no data or no coordinates, or if the outer ring has
/// fewer than three vertices.
pub proof fn lemma_nothing_to_triangulate<C: Scalar>(data: Seq<C>, holes: Seq<usize>, dim: int)
    requires
        ({
            ||| data.len() == 0
            ||| dim == 0
            ||| holes.len() > 0 && holes[0] < 3
            ||| holes.len() == 0 && dim > 0 && data.len() < 3 * dim
        }),
    ensures
        triangulation(data, holes, dim).len() == 0,
{
    if data.len() > 0 && dim != 0 && holes.len() == 0 {
        assert(data.len() as int / dim < 3) by (nonlinear_arith)
            requires
                data.len() < 3 * dim,
                dim > 0,
        ;
    }
}

/// The number of vertices is at most the length of the data.
pub(crate) proof fn lemma_count_fits(len: int, dim: int)
    requires
        dim > 0,
        len >= 0,
    ensures
        0 <= len / dim <= len,
{
    vstd::arithmetic::div_mod::lemma_div_nonincreasing(len, dim);
    vstd::arithmetic::div_mod::lemma_div_pos_is_pos(len, dim);
}

/// Checks whether the leftmost nodes of two holes can be put in order.
fn is_sortable<C: Scalar>(
    arena: &Arena<C>,
    a: usize,
    b: usize,
    Ghost(r): Ghost<Seq<int>>,
    Ghost(s): Ghost<Seq<int>>,
) -> (res: bool)
    requires
        a < arena.nodes@.len(),
        b < arena.nodes@.len(),
        a == r[0],
        b == s[0],
    ensures
        res == sortable(arena.pts(), r, s),
{
    let an = arena.nodes[a];
    let bn = arena.nodes[b];
    let same_x: bool = an.x.same(bn.x);
    (same_x || an.x.less(bn.x) || bn.x.less(an.x)) && (!same_x || an.y.same(bn.y) || an.y.less(
        bn.y,
    ) || bn.y.less(an.y))
}

/// Checks whether the leftmost nodes of all holes can be put in order, which [`earcut`] asks for:
/// no coordinate of one of them may be incomparable to that of another.
pub fn can_sort_holes<C: Scalar>(data: &[C], hole_indices: &[usize], dim: usize) -> (res: bool)
    requires
        is_flat(data@, hole_indices@, dim as int),
    ensures
        res == holes_sortable(data@, hole_indices@, dim as int),
{
    let ghost count = data@.len() as int / dim as int;
    let ghost outer = outer_count(hole_indices@, count);
    let ghost l = outer_ring(data@, hole_indices@, dim as int);
    let size: usize = data.len();
    proof {
        lemma_count(data@.len() as int, dim as int);
        lemma_count_fits(data@.len() as int, dim as int);
        lemma_fits(outer, count, dim as int);
    }
    let outer_len: usize = if hole_indices.len() > 0 {
        hole_indices[0] * dim
    } else {
        size
    };
    let mut arena = Arena::new();
    assert(arena.pts() =~= Seq::empty());
    let outer_node = match linked_list(
        &mut arena,
        data,
        0,
        outer_len,
        dim,
        true,
        Ghost(0),
        Ghost(outer),
    ) {
        Some(n) => n,
        None => {
            return true;
        },
    };
    proof {
        crate::arena::lemma_at(arena.nodes@, l.ring, 0);
        if l.ring.len() > 2 {
            assert(l.ring[1] != l.ring[l.ring.len() - 1]);
        }
    }
    if arena.nodes[outer_node].next == arena.nodes[outer_node].prev {
        return true;
    }
    let ghost q = queued(l.pts, data@, dim as int, hole_indices@, hole_indices@.len() as int);
    let queue = queue_holes(&mut arena, data, hole_indices, dim);
    let n: usize = queue.len();
    let mut j: usize = 0;
    while j < n
        invariant
            n == queue@.len(),
            j <= n,
            l == outer_ring(data@, hole_indices@, dim as int),
            l.ring.len() > 2,
            q == queued(l.pts, data@, dim as int, hole_indices@, hole_indices@.len() as int),
            arena.pts() == q.pts,
            heads_are(queue@, q.holes),
            holes_ok(arena.nodes@, q.holes),
            forall|i: int, k: int|
                0 <= i < k < n && i < j ==> sortable(
                    q.pts,
                    #[trigger] q.holes[i],
                    #[trigger] q.holes[k],
                ),
        decreases n - j,
    {
        let mut k: usize = j + 1;
        while k < n
            invariant
                n == queue@.len(),
                j < k <= n,
                l == outer_ring(data@, hole_indices@, dim as int),
                l.ring.len() > 2,
                q == queued(l.pts, data@, dim as int, hole_indices@, hole_indices@.len() as int),
                arena.pts() == q.pts,
                heads_are(queue@, q.holes),
                holes_ok(arena.nodes@, q.holes),
                forall|i: int|
                    j < i < k ==> sortable(q.pts, q.holes[j as int], #[trigger] q.holes[i]),
            decreases n - k,
        {
            let ghost r = q.holes[j as int];
            let ghost s = q.holes[k as int];
            proof {
                assert(ring_ok(arena.nodes@, q.holes[j as int]));
                assert(ring_ok(arena.nodes@, q.holes[k as int]));
                crate::arena::lemma_at(arena.nodes@, r, 0);
                crate::arena::lemma_at(arena.nodes@, s, 0);
                assert(queue@[j as int] == r[0] && queue@[k as int] == s[0]);
            }
            if !is_sortable(&arena, queue[j], queue[k], Ghost(r), Ghost(s)) {
                return false;
            }
            k = k + 1;
        }
        j = j + 1;
    }
    true
}

/// Triangulates a polygon given as a flat array of vertex coordinates.
///
/// `data` is a flat array of vertex coordinates (`dim` numbers per vertex, x and y first).
/// `hole_indices` lists the vertex index (not coordinate index) at which each hole ring starts in
/// `data`; the first ring (vertices `0..hole_indices[0]`, or all of `data` if there are no holes)
/// is the outer ring.
///
/// Returns the triangulation as flat triplets of vertex indices into `data`.
///
/// This allocates fresh working memory on every call; for repeated triangulations, [`Earcut`]
/// reuses its allocations across calls instead.
pub fn earcut<N: EarcutIndex, C: Scalar>(data: &[C], hole_indices: &[usize], dim: usize) -> (
    triangles: Vec<N>)
    requires
        acceptable::<C, N>(data@, hole_indices@, dim as int),
    ensures
        triangles@ == indices::<N>(triangulation(data@, hole_indices@, dim as int)),
        vertices(triangles@) == triangulation(data@, hole_indices@, dim as int),
{
    let mut triangles: Vec<N> = Vec::new();
    earcut_into(data, hole_indices, dim, &mut triangles);
    triangles
}

/// Same as [`earcut`], but fills a `Vec` of the caller's (which is cleared first). Useful to reuse
/// the output allocation across repeated triangulations; the working memory is still freshly
/// allocated each call: use [`Earcut`] to reuse both.
pub fn earcut_into<N: EarcutIndex, C: Scalar>(
    data: &[C],
    hole_indices: &[usize],
    dim: usize,
    triangles: &mut Vec<N>,
)
    requires
        acceptable::<C, N>(data@, hole_indices@, dim as int),
    ensures
        final(triangles)@ == indices::<N>(triangulation(data@, hole_indices@, dim as int)),
        vertices(final(triangles)@) == triangulation(data@, hole_indices@, dim as int),
{
    let mut arena = Arena::new();
    earcut_impl(&mut arena, data, hole_indices, dim, triangles);
}

/// A reusable triangulator: keeps the allocations of its working memory (nodes, hole-bridge index,
/// z-order sort buffers) across calls, so repeated triangulations (even of different, unrelated
/// polygons) only allocate while growing to the largest input seen so far, instead of once per
/// call like the free functions [`earcut`] and [`earcut_into`].
pub struct Earcut<C> {
    arena: Arena<C>,
}

impl<C: Scalar> Earcut<C> {
    /// The working memory holds no polygon.
    pub closed spec fn is_empty(self) -> bool {
        &&& self.arena.nodes@.len() == 0
        &&& self.arena.block_bbox@.len() == 0
        &&& !self.arena.index_active
    }

    /// Creates a new, empty reusable triangulator.
    pub fn new() -> (t: Self)
        ensures
            t.is_empty(),
    {
        Earcut { arena: Arena::new() }
    }

    /// Triangulates a polygon (see [`earcut`]) into `triangles` (which is cleared first), reusing
    /// this triangulator's working memory. The result is the same as that of [`earcut`], whatever
    /// was triangulated before.
    pub fn earcut_into<N: EarcutIndex>(
        &mut self,
        data: &[C],
        hole_indices: &[usize],
        dim: usize,
        triangles: &mut Vec<N>,
    )
        requires
            acceptable::<C, N>(data@, hole_indices@, dim as int),
        ensures
            final(triangles)@ == indices::<N>(triangulation(data@, hole_indices@, dim as int)),
            vertices(final(triangles)@) == triangulation(data@, hole_indices@, dim as int),
    {
        earcut_impl(&mut self.arena, data, hole_indices, dim, triangles);
    }
}

impl<C: Scalar> Default for Earcut<C> {
    fn default() -> (t: Self)
        ensures
            t.is_empty(),
    {
        Earcut::new()
    }
}

} // verus!
