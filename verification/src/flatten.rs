//! Rings of points in flat form.
use vstd::prelude::*;
use crate::triangulation::is_flat;

verus! {

/// The number of points in the first `k` rings.
pub open spec fn points_before<C>(rings: Seq<Vec<[C; 2]>>, k: int) -> nat
    decreases k,
{
    if k <= 0 {
        0
    } else {
        points_before(rings, k - 1) + rings[k - 1]@.len()
    }
}

/// The coordinates of the points of a ring, one after the other.
pub open spec fn flat_ring<C>(ring: Seq<[C; 2]>) -> Seq<C> {
    Seq::new(2 * ring.len(), |j: int| ring[j / 2]@[j % 2])
}

/// The coordinates of the points of the first `k` rings, one after the other.
pub open spec fn flat_points<C>(rings: Seq<Vec<[C; 2]>>, k: int) -> Seq<C>
    decreases k,
{
    if k <= 0 {
        Seq::empty()
    } else {
        flat_points(rings, k - 1) + flat_ring(rings[k - 1]@)
    }
}

/// Where the holes start: of the first `k` rings, each that follows a ring with points.
pub open spec fn flat_holes<C>(rings: Seq<Vec<[C; 2]>>, k: int) -> Seq<usize>
    decreases k,
{
    if k <= 1 {
        Seq::empty()
    } else if rings[k - 2]@.len() > 0 {
        flat_holes(rings, k - 1).push(points_before(rings, k - 1) as usize)
    } else {
        flat_holes(rings, k - 1)
    }
}

/// Adds the coordinates of the points of a ring.
fn push_ring<C: Copy>(vertices: &mut Vec<C>, ring: &Vec<[C; 2]>)
    ensures
        final(vertices)@ == old(vertices)@ + flat_ring(ring@),
{
    let ghost was = vertices@;
    let len: usize = ring.len();
    let mut j: usize = 0;
    assert(flat_ring(ring@).take(0) =~= Seq::<C>::empty());
    while j < len
        invariant
            len == ring@.len(),
            j <= len,
            vertices@ == was + flat_ring(ring@).take(2 * j),
        decreases len - j,
    {
        let p: [C; 2] = ring[j];
        vertices.push(p[0]);
        vertices.push(p[1]);
        proof {
            let flat = flat_ring(ring@);
            assert(flat[2 * j] == p@[0]);
            assert(flat[2 * j + 1] == p@[1]);
            assert(flat.take(2 * (j + 1)) =~= flat.take(2 * j).push(p@[0]).push(p@[1]));
            assert(vertices@ =~= was + flat.take(2 * (j + 1)));
        }
        j = j + 1;
    }
    assert(flat_ring(ring@).take(2 * len) =~= flat_ring(ring@));
}

/// Turns a polygon in ring form (outer ring followed by hole rings, each a list of `[x, y]`
/// points) into the flat form that `earcut` accepts: `(vertices, hole_indices, dimensions)`.
pub fn flatten<C: Copy>(rings: &[Vec<[C; 2]>]) -> (r: (Vec<C>, Vec<usize>, usize))
    ensures
        r.0@ == flat_points(rings@, rings@.len() as int),
        r.1@ == flat_holes(rings@, rings@.len() as int),
        r.2 == 2,
        is_flat(r.0@, r.1@, r.2 as int),
        rings@.len() == 0 ==> r.0@.len() == 0 && r.1@.len() == 0,
        rings@.len() > 0 && (forall|i: int|
            0 <= i < rings@.len() - 1 ==> (#[trigger] rings@[i])@.len() > 0) ==> {
            &&& r.1@.len() == rings@.len() - 1
            &&& r.0@.len() % 2 == 0
            &&& rings@[0]@.len() == (if r.1@.len() > 0 {
                r.1@[0] as int
            } else {
                r.0@.len() as int / 2
            })
            &&& forall|i: int|
                0 <= i < r.1@.len() ==> (#[trigger] r.1@[i]) + rings@[i + 1]@.len() == (if i + 1
                    < r.1@.len() {
                    r.1@[i + 1] as int
                } else {
                    r.0@.len() as int / 2
                })
            &&& forall|j: int|
                #![trigger rings@[0]@[j]]
                0 <= j < rings@[0]@.len() ==> r.0@[2 * j] == rings@[0]@[j]@[0] && r.0@[2 * j + 1]
                    == rings@[0]@[j]@[1]
            &&& forall|i: int, j: int|
                #![trigger rings@[i]@[j]]
                1 <= i < rings@.len() && 0 <= j < rings@[i]@.len() ==> r.0@[2 * (r.1@[i - 1] + j)]
                    == rings@[i]@[j]@[0] && r.0@[2 * (r.1@[i - 1] + j) + 1] == rings@[i]@[j]@[1]
        },
{
    let mut vertices: Vec<C> = Vec::new();
    let mut holes: Vec<usize> = Vec::new();
    let dimensions: usize = 2;
    let mut hole_index: usize = 0;
    let mut prev_len: usize = 0;
    let mut k: usize = 0;
    let len: usize = rings.len();
    while k < len
        invariant
            len == rings@.len(),
            k <= len,
            vertices@ == flat_points(rings@, k as int),
            vertices@.len() == 2 * points_before(rings@, k as int),
            holes@ == flat_holes(rings@, k as int),
            hole_index + prev_len == points_before(rings@, k as int),
            k == 0 ==> prev_len == 0,
            k > 0 ==> prev_len == rings@[k - 1]@.len(),
            forall|j: int|
                0 <= j < holes@.len() ==> #[trigger] holes@[j] <= points_before(rings@, k as int),
        decreases len - k,
    {
        let size: usize = vertices.len();
        push_ring(&mut vertices, &rings[k]);
        if prev_len > 0 {
            hole_index = hole_index + prev_len;
            holes.push(hole_index);
        }
        prev_len = rings[k].len();
        k = k + 1;
    }
    assert(vertices@.len() as int / 2 == points_before(rings@, len as int));
    let size: usize = vertices.len();
    proof {
        assert(size == vertices@.len());
        if len > 0 && (forall|i: int|
            0 <= i < rings@.len() - 1 ==> (#[trigger] rings@[i])@.len() > 0) {
            lemma_flattened(rings@);
        }
    }
    (vertices, holes, dimensions)
}

/// The flat form has two coordinates for each point.
pub proof fn lemma_flat_len<C>(rings: Seq<Vec<[C; 2]>>, k: int)
    ensures
        flat_points(rings, k).len() == 2 * points_before(rings, k),
    decreases k,
{
    if k > 0 {
        lemma_flat_len(rings, k - 1);
    }
}

/// More rings hold more points.
proof fn lemma_more_points<C>(rings: Seq<Vec<[C; 2]>>, k: int, n: int)
    requires
        k <= n,
    ensures
        points_before(rings, k) <= points_before(rings, n),
    decreases n - k,
{
    if k < n && n > 0 {
        lemma_more_points(rings, k, n - 1);
    }
}

/// A point of the first `k` rings, in the flat form.
proof fn lemma_flat_point<C>(rings: Seq<Vec<[C; 2]>>, k: int, i: int, j: int)
    requires
        0 <= i < k <= rings.len(),
        0 <= j < rings[i]@.len(),
    ensures
        ({
            let at = 2 * (points_before(rings, i) + j);
            &&& at + 1 < flat_points(rings, k).len()
            &&& flat_points(rings, k)[at] == rings[i]@[j]@[0]
            &&& flat_points(rings, k)[at + 1] == rings[i]@[j]@[1]
        }),
    decreases k,
{
    let at = 2 * (points_before(rings, i) + j);
    lemma_flat_len(rings, k - 1);
    if i < k - 1 {
        lemma_flat_point(rings, k - 1, i, j);
    } else {
        let flat = flat_ring(rings[i]@);
        assert(flat[2 * j] == rings[i]@[j]@[0]);
        assert(flat[2 * j + 1] == rings[i]@[j]@[1]);
    }
}

/// Where the holes start, if only the last ring may be empty.
proof fn lemma_flat_starts<C>(rings: Seq<Vec<[C; 2]>>, k: int)
    requires
        0 < k <= rings.len(),
        forall|i: int| 0 <= i < rings.len() - 1 ==> (#[trigger] rings[i])@.len() > 0,
    ensures
        flat_holes(rings, k).len() == k - 1,
        forall|i: int|
            0 <= i < k - 1 ==> (#[trigger] flat_holes(rings, k)[i]) == points_before(
                rings,
                i + 1,
            ) as usize,
    decreases k,
{
    if k > 1 {
        lemma_flat_starts(rings, k - 1);
        assert(rings[k - 2]@.len() > 0);
    }
}

/// Rings of which only the last may be empty are laid out one after the other: the outer ring at
/// the start of the data, and every other ring as a hole that starts where the ring before it ends,
/// the last up to the end of the data. In each of these places stand the points of that ring, first
/// coordinate first.
pub proof fn lemma_flattened<C>(rings: Seq<Vec<[C; 2]>>)
    requires
        rings.len() > 0,
        forall|i: int| 0 <= i < rings.len() - 1 ==> (#[trigger] rings[i])@.len() > 0,
        flat_points(rings, rings.len() as int).len() <= usize::MAX,
    ensures
        ({
            let data = flat_points(rings, rings.len() as int);
            let starts = flat_holes(rings, rings.len() as int);
            &&& starts.len() == rings.len() - 1
            &&& data.len() % 2 == 0
            &&& rings[0]@.len() == (if starts.len() > 0 {
                starts[0] as int
            } else {
                data.len() as int / 2
            })
            &&& forall|i: int|
                0 <= i < starts.len() ==> (#[trigger] starts[i]) + rings[i + 1]@.len() == (if i + 1
                    < starts.len() {
                    starts[i + 1] as int
                } else {
                    data.len() as int / 2
                })
            &&& forall|j: int|
                #![trigger rings[0]@[j]]
                0 <= j < rings[0]@.len() ==> data[2 * j] == rings[0]@[j]@[0] && data[2 * j + 1]
                    == rings[0]@[j]@[1]
            &&& forall|i: int, j: int|
                #![trigger rings[i]@[j]]
                1 <= i < rings.len() && 0 <= j < rings[i]@.len() ==> data[2 * (starts[i - 1] + j)]
                    == rings[i]@[j]@[0] && data[2 * (starts[i - 1] + j) + 1] == rings[i]@[j]@[1]
        }),
{
    let n = rings.len() as int;
    let data = flat_points(rings, n);
    let starts = flat_holes(rings, n);
    lemma_flat_len(rings, n);
    lemma_flat_starts(rings, n);
    assert forall|i: int| 0 <= i < n - 1 implies (#[trigger] starts[i]) == points_before(
        rings,
        i + 1,
    ) by {
        lemma_more_points(rings, i + 1, n);
    }
    assert(points_before(rings, 1) == points_before(rings, 0) + rings[0]@.len());
    assert forall|i: int| 0 <= i < starts.len() implies (#[trigger] starts[i])
        + rings[i + 1]@.len() == (if i + 1 < starts.len() {
        starts[i + 1] as int
    } else {
        data.len() as int / 2
    }) by {
        assert(points_before(rings, i + 2) == points_before(rings, i + 1) + rings[i + 1]@.len());
        if i + 1 < starts.len() {
            assert(starts[i + 1] == points_before(rings, i + 2));
        }
    }
    assert forall|j: int| #![trigger rings[0]@[j]] 0 <= j < rings[0]@.len() implies data[2 * j]
        == rings[0]@[j]@[0] && data[2 * j + 1] == rings[0]@[j]@[1] by {
        lemma_flat_point(rings, n, 0, j);
        assert(points_before(rings, 0) == 0);
    }
    assert forall|i: int, j: int|
        #![trigger rings[i]@[j]]
        1 <= i < rings.len() && 0 <= j < rings[i]@.len() implies data[2 * (starts[i - 1] + j)]
        == rings[i]@[j]@[0] && data[2 * (starts[i - 1] + j) + 1] == rings[i]@[j]@[1] by {
        lemma_flat_point(rings, n, i, j);
        assert(starts[i - 1] == points_before(rings, i));
    }
}

/// The first `k` rings, one of which is empty, and the rings without that one.
proof fn lemma_without_empty<C>(rings: Seq<Vec<[C; 2]>>, e: int, k: int)
    requires
        0 <= e < k <= rings.len(),
        rings[e]@.len() == 0,
    ensures
        points_before(rings.remove(e), k - 1) == points_before(rings, k),
        flat_points(rings.remove(e), k - 1) == flat_points(rings, k),
        e < k - 1 ==> flat_holes(rings.remove(e), k - 1) == flat_holes(rings, k),
    decreases k,
{
    let rest = rings.remove(e);
    if e < k - 1 {
        lemma_without_empty(rings, e, k - 1);
        assert(rest[k - 2] == rings[k - 1]);
        if k == 2 {
            assert(flat_holes(rings, 1) =~= Seq::<usize>::empty());
        } else if e == k - 2 {
            lemma_before_same(rings, rest, k - 2);
            assert(rest[k - 3] == rings[k - 3]);
            assert(flat_holes(rings, k - 1) == flat_holes(rest, k - 1));
        } else {
            assert(rest[k - 3] == rings[k - 2]);
        }
    } else {
        lemma_before_same(rings, rest, k - 1);
        assert(flat_ring(rings[e]@) =~= Seq::<C>::empty());
        assert(flat_points(rings, k) =~= flat_points(rings, k - 1));
    }
}

/// Rings that begin alike are flattened alike up to there.
proof fn lemma_before_same<C>(rings: Seq<Vec<[C; 2]>>, other: Seq<Vec<[C; 2]>>, k: int)
    requires
        k <= rings.len(),
        k <= other.len(),
        forall|i: int| 0 <= i < k ==> rings[i] == other[i],
    ensures
        points_before(rings, k) == points_before(other, k),
        flat_points(rings, k) == flat_points(other, k),
        flat_holes(rings, k) == flat_holes(other, k),
    decreases k,
{
    if k > 0 {
        lemma_before_same(rings, other, k - 1);
        assert(rings[k - 1] == other[k - 1]);
        if k > 1 {
            assert(rings[k - 2] == other[k - 2]);
        }
    }
}

/// An empty ring changes nothing, unless it is the last: the flat form is that of the rings without
/// it.
pub proof fn lemma_empty_ring<C>(rings: Seq<Vec<[C; 2]>>, e: int)
    requires
        0 <= e < rings.len() - 1,
        rings[e]@.len() == 0,
    ensures
        flat_points(rings, rings.len() as int) == flat_points(
            rings.remove(e),
            rings.len() - 1,
        ),
        flat_holes(rings, rings.len() as int) == flat_holes(rings.remove(e), rings.len() - 1),
{
    lemma_without_empty(rings, e, rings.len() as int);
}

} // verus!
