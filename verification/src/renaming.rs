//! Slicing does not depend on the numbers of the vertices.
use vstd::prelude::*;
use crate::bounds::{
    in_table, lemma_bridge, lemma_in_order_ok, lemma_leftmost, lemma_ray_blocks_in,
    lemma_ray_over_in, lemma_sliced,
};
use crate::geometry::{hashed, Grid};
use crate::hole_model::{
    bridge, chunk_start, comes_after, connected, healed_outline, in_order, indexed, joined,
    lean_blocks, lean_node, lean_over, leftmost, merged, merged_all, outline, put_in, ray_blocks,
    ray_cast, ray_over, ray_start, run_box, run_next, seen_from, slit_healed, slit_run, Lean,
    Outline, Ray, BLOCK_INDEX_MIN_NODES,
};
use crate::model::{
    after, backtracked, backtracked_boxes, before, bridged, clippable, clipped, curable, cured,
    degenerate, dropped_back, ear_max_z, ear_min_z, edge_meets, far_part, first_diagonal,
    first_split, grown_box, halved, healed, healed_boxes, intersects_polygon_spec,
    is_ear_hashed_spec, is_ear_spec, lemma_cured_len, lemma_first_split, lemma_healed_len,
    lemma_swept_len, locally_inside_spec, met, met_above, met_below, middle_inside_spec, near_part,
    obstructs, odd_crossings, ray_crosses, sliced, splittable, succ, swept, touches_reflex,
    triangle, turned, uncrossed, valid_diagonal, z_at, z_ranked, BBox, Pt,
};
use crate::rings::{
    apart_from, is_ring, lemma_backtracked_ring, lemma_dropped_ring, lemma_first_split_ring,
    lemma_healed_ring, lemma_joined_ring, lemma_merged_all_ring, lemma_parts_rings,
    lemma_swept_ring, lemma_turned_ring, lemma_turned_to_ring, lemma_uncrossed_ring, rings_apart,
};
use crate::scalar::Scalar;
use crate::scaling::{lemma_ranked_table, lemma_shortcut_ring};

verus! {

// ---------------------------------------------------------------------------------------------
// Tables with other names
// ---------------------------------------------------------------------------------------------
/// The nodes of the second table are those of the first, of vertices with other names; different
/// vertices have different names.
pub open spec fn renamed<C>(
    pts: Seq<Pt<C>>,
    other: Seq<Pt<C>>,
    name: spec_fn(usize) -> usize,
) -> bool {
    &&& pts.len() == other.len()
    &&& forall|h: int| 0 <= h < pts.len() ==> #[trigger] same_node(pts, other, name, h)
    &&& forall|a: int, b: int|
        0 <= a < pts.len() && 0 <= b < pts.len() ==> #[trigger] told_apart(pts, name, a, b)
}

/// One node is another, with the name of its vertex.
pub open spec fn same_node<C>(
    pts: Seq<Pt<C>>,
    other: Seq<Pt<C>>,
    name: spec_fn(usize) -> usize,
    h: int,
) -> bool {
    other[h] == (Pt { i: name(pts[h].i), ..pts[h] })
}

/// The nodes are of one vertex if their vertices have one name.
pub open spec fn told_apart<C>(
    pts: Seq<Pt<C>>,
    name: spec_fn(usize) -> usize,
    a: int,
    b: int,
) -> bool {
    name(pts[a].i) == name(pts[b].i) ==> pts[a].i == pts[b].i
}

/// The names of vertices.
pub open spec fn names(s: Seq<usize>, name: spec_fn(usize) -> usize) -> Seq<usize> {
    Seq::new(s.len(), |k: int| name(s[k]))
}

/// The names of vertices in two parts.
proof fn lemma_names(s: Seq<usize>, t: Seq<usize>, name: spec_fn(usize) -> usize)
    ensures
        names(s + t, name) == names(s, name) + names(t, name),
        names(Seq::empty(), name) == Seq::<usize>::empty(),
{
    assert(names(s + t, name) =~= names(s, name) + names(t, name));
    assert(names(Seq::empty(), name) =~= Seq::<usize>::empty());
}

/// The names of the corners of a triangle.
proof fn lemma_named_triangle<C>(
    pts: Seq<Pt<C>>,
    other: Seq<Pt<C>>,
    name: spec_fn(usize) -> usize,
    a: int,
    b: int,
    c: int,
)
    requires
        renamed(pts, other, name),
        0 <= a < pts.len(),
        0 <= b < pts.len(),
        0 <= c < pts.len(),
    ensures
        triangle(other, a, b, c) == names(triangle(pts, a, b, c), name),
{
    assert(same_node(pts, other, name, a) && same_node(pts, other, name, b) && same_node(
        pts,
        other,
        name,
        c,
    ));
    assert(triangle(other, a, b, c) =~= names(triangle(pts, a, b, c), name));
}

/// Doubling nodes keeps their names.
proof fn lemma_renamed_bridged<C>(
    pts: Seq<Pt<C>>,
    other: Seq<Pt<C>>,
    name: spec_fn(usize) -> usize,
    a: int,
    b: int,
)
    requires
        renamed(pts, other, name),
        0 <= a < pts.len(),
        0 <= b < pts.len(),
    ensures
        renamed(bridged(pts, a, b), bridged(other, a, b), name),
{
    let (p, q) = (bridged(pts, a, b), bridged(other, a, b));
    let n = pts.len() as int;
    let from = |h: int|
        if h == n {
            a
        } else if h == n + 1 {
            b
        } else {
            h
        };
    assert forall|h: int| 0 <= h < p.len() implies #[trigger] same_node(p, q, name, h) by {
        assert(same_node(pts, other, name, from(h)));
    }
    assert forall|x: int, y: int|
        0 <= x < p.len() && 0 <= y < p.len() implies #[trigger] told_apart(p, name, x, y) by {
        assert(told_apart(pts, name, from(x), from(y)));
    }
}

// ---------------------------------------------------------------------------------------------
// Dropping nodes
// ---------------------------------------------------------------------------------------------
/// The same nodes are degenerate.
proof fn lemma_renamed_degenerate<C: Scalar>(
    pts: Seq<Pt<C>>,
    other: Seq<Pt<C>>,
    name: spec_fn(usize) -> usize,
    r: Seq<int>,
)
    requires
        renamed(pts, other, name),
        is_ring(r, pts.len() as int),
    ensures
        degenerate(other, r) == degenerate(pts, r),
{
    if r.len() > 1 {
        let n = r.len() as int;
        assert(0 <= r[0] < pts.len() && 0 <= r[1] < pts.len() && 0 <= r[n - 1] < pts.len());
        assert(same_node(pts, other, name, r[0]));
        assert(same_node(pts, other, name, r[1]));
        assert(same_node(pts, other, name, r[n - 1]));
    }
}

/// The same nodes are dropped backwards, and boxes grow alike.
proof fn lemma_renamed_backtracked<C: Scalar>(
    pts: Seq<Pt<C>>,
    other: Seq<Pt<C>>,
    name: spec_fn(usize) -> usize,
    r: Seq<int>,
    owner: Seq<int>,
    boxes: Seq<BBox<C>>,
)
    requires
        renamed(pts, other, name),
        is_ring(r, pts.len() as int),
    ensures
        backtracked(other, r) == backtracked(pts, r),
        backtracked_boxes(other, r, owner, boxes) == backtracked_boxes(pts, r, owner, boxes),
    decreases r.len(),
{
    lemma_renamed_degenerate(pts, other, name, r);
    if degenerate(pts, r) {
        lemma_dropped_ring(r, pts.len() as int);
        assert(0 <= r[1] < pts.len());
        assert(same_node(pts, other, name, r[1]));
        let b = owner[r.last()];
        let tail = pts[r[1]];
        lemma_renamed_backtracked(
            pts,
            other,
            name,
            dropped_back(r),
            owner,
            boxes.update(b, grown_box(boxes[b], tail.x, tail.y)),
        );
    }
}

/// Healing drops the same nodes, and boxes grow alike.
proof fn lemma_renamed_healed<C: Scalar>(
    pts: Seq<Pt<C>>,
    other: Seq<Pt<C>>,
    name: spec_fn(usize) -> usize,
    r: Seq<int>,
    owner: Seq<int>,
    boxes: Seq<BBox<C>>,
)
    requires
        renamed(pts, other, name),
        is_ring(r, pts.len() as int),
    ensures
        healed(other, r) == healed(pts, r),
        healed_boxes(other, r, owner, boxes) == healed_boxes(pts, r, owner, boxes),
{
    let n = pts.len() as int;
    lemma_renamed_backtracked(pts, other, name, r, owner, boxes);
    lemma_backtracked_ring(pts, r, n);
    lemma_turned_ring(backtracked(pts, r), n);
    lemma_renamed_backtracked(
        pts,
        other,
        name,
        turned(backtracked(pts, r)),
        owner,
        backtracked_boxes(pts, r, owner, boxes),
    );
}

/// Sweeping drops the same nodes.
pub(crate) proof fn lemma_renamed_swept<C: Scalar>(
    pts: Seq<Pt<C>>,
    other: Seq<Pt<C>>,
    name: spec_fn(usize) -> usize,
    r: Seq<int>,
    checked: nat,
)
    requires
        renamed(pts, other, name),
        is_ring(r, pts.len() as int),
    ensures
        swept(other, r, checked) == swept(pts, r, checked),
    decreases r.len(), r.len() - checked,
{
    let n = pts.len() as int;
    lemma_renamed_degenerate(pts, other, name, r);
    if degenerate(pts, r) {
        lemma_dropped_ring(r, n);
        lemma_renamed_swept(pts, other, name, dropped_back(r), 0);
    } else if checked + 1 >= r.len() {
    } else {
        lemma_turned_ring(r, n);
        lemma_renamed_swept(pts, other, name, turned(r), checked + 1);
    }
}

// ---------------------------------------------------------------------------------------------
// Ears
// ---------------------------------------------------------------------------------------------
/// The nodes of a ring are where they were.
proof fn lemma_renamed_nodes<C>(
    pts: Seq<Pt<C>>,
    other: Seq<Pt<C>>,
    name: spec_fn(usize) -> usize,
    r: Seq<int>,
)
    requires
        renamed(pts, other, name),
        in_table(r, pts.len() as int),
    ensures
        forall|k: int|
            #![trigger other[r[k]]]
            #![trigger pts[r[k]]]
            0 <= k < r.len() ==> other[r[k]].x == pts[r[k]].x && other[r[k]].y == pts[r[k]].y
                && other[r[k]].steiner == pts[r[k]].steiner && other[r[k]].i == name(pts[r[k]].i),
{
    assert forall|k: int|
        #![trigger other[r[k]]]
        #![trigger pts[r[k]]]
        0 <= k < r.len() implies other[r[k]].x == pts[r[k]].x && other[r[k]].y == pts[r[k]].y
        && other[r[k]].steiner == pts[r[k]].steiner && other[r[k]].i == name(pts[r[k]].i) by {
        assert(0 <= r[k] < pts.len());
        assert(same_node(pts, other, name, r[k]));
    }
}

/// The same nodes are met.
proof fn lemma_renamed_met<C: Scalar>(
    pts: Seq<Pt<C>>,
    other: Seq<Pt<C>>,
    name: spec_fn(usize) -> usize,
    r: Seq<int>,
    ord: Seq<int>,
    g: Grid<C>,
    m: int,
)
    requires
        renamed(pts, other, name),
        is_ring(r, pts.len() as int),
        in_table(ord, pts.len() as int),
        r.len() >= 3,
    ensures
        met(other, r, ord, g, m) == met(pts, r, ord, g, m),
{
    let n = r.len() as int;
    lemma_renamed_nodes(pts, other, name, r);
    lemma_renamed_nodes(pts, other, name, ord);
    assert(other[r[n - 1]].x == pts[r[n - 1]].x && other[r[0]].x == pts[r[0]].x && other[r[1]].x
        == pts[r[1]].x);
    let (low, high) = (ear_min_z(pts, r, g), ear_max_z(pts, r, g));
    assert(ear_min_z(other, r, g) == low && ear_max_z(other, r, g) == high);
    assert forall|j: int| 0 <= j < ord.len() implies z_at(other, g, #[trigger] ord[j]) == z_at(
        pts,
        g,
        ord[j],
    ) by {
        assert(other[ord[j]].x == pts[ord[j]].x);
    }
    if met(pts, r, ord, g, m) {
        let (e, f) = choose|e: int, f: int|
            #![trigger ord[e], ord[f]]
            0 <= e < ord.len() && 0 <= f < ord.len() && ord[e] == r[0] && ord[f] == r[m] && (
            met_below(pts, r, ord, g, e, f, low) || met_above(pts, r, ord, g, e, f, high));
        assert(met_below(other, r, ord, g, e, f, low) || met_above(other, r, ord, g, e, f, high));
    }
    if met(other, r, ord, g, m) {
        let (e, f) = choose|e: int, f: int|
            #![trigger ord[e], ord[f]]
            0 <= e < ord.len() && 0 <= f < ord.len() && ord[e] == r[0] && ord[f] == r[m] && (
            met_below(other, r, ord, g, e, f, low) || met_above(other, r, ord, g, e, f, high));
        assert(met_below(pts, r, ord, g, e, f, low) || met_above(pts, r, ord, g, e, f, high));
    }
}

/// The same nodes are clipped.
proof fn lemma_renamed_clippable<C: Scalar>(
    pts: Seq<Pt<C>>,
    other: Seq<Pt<C>>,
    name: spec_fn(usize) -> usize,
    r: Seq<int>,
    ord: Seq<int>,
    g: Grid<C>,
)
    requires
        renamed(pts, other, name),
        is_ring(r, pts.len() as int),
        in_table(ord, pts.len() as int),
        r.len() >= 3,
    ensures
        clippable(other, r, ord, g) == clippable(pts, r, ord, g),
{
    let n = r.len() as int;
    lemma_renamed_nodes(pts, other, name, r);
    assert(other[r[n - 1]].x == pts[r[n - 1]].x && other[r[0]].x == pts[r[0]].x && other[r[1]].x
        == pts[r[1]].x);
    assert forall|m: int| 0 <= m < n implies #[trigger] obstructs(other, r, m) == obstructs(
        pts,
        r,
        m,
    ) by {
        let (e, f) = (before(m, n), after(m, n));
        assert(other[r[m]].x == pts[r[m]].x && other[r[e]].x == pts[r[e]].x && other[r[f]].x
            == pts[r[f]].x);
    }
    if hashed(g) {
        assert forall|m: int| 0 <= m < n implies #[trigger] met(other, r, ord, g, m) == met(
            pts,
            r,
            ord,
            g,
            m,
        ) by {
            lemma_renamed_met(pts, other, name, r, ord, g, m);
        }
        if is_ear_hashed_spec(pts, r, ord, g) {
            assert forall|m: int|
                2 <= m < r.len() && #[trigger] met(other, r, ord, g, m) implies !obstructs(
                other,
                r,
                m,
            ) by {
                assert(met(pts, r, ord, g, m));
                assert(!obstructs(pts, r, m));
            }
        }
        if is_ear_hashed_spec(other, r, ord, g) {
            assert forall|m: int|
                2 <= m < r.len() && #[trigger] met(pts, r, ord, g, m) implies !obstructs(
                pts,
                r,
                m,
            ) by {
                assert(met(other, r, ord, g, m));
                assert(!obstructs(other, r, m));
            }
        }
    } else {
        if is_ear_spec(pts, r) {
            assert forall|m: int| 2 <= m < r.len() - 1 implies !obstructs(other, r, m) by {
                assert(!obstructs(pts, r, m));
            }
        }
        if is_ear_spec(other, r) {
            assert forall|m: int| 2 <= m < r.len() - 1 implies !obstructs(pts, r, m) by {
                assert(!obstructs(other, r, m));
            }
        }
    }
}

/// Nodes are in the same order on the curve.
proof fn lemma_renamed_ranked<C: Scalar>(
    pts: Seq<Pt<C>>,
    other: Seq<Pt<C>>,
    name: spec_fn(usize) -> usize,
    r: Seq<int>,
    g: Grid<C>,
)
    requires
        renamed(pts, other, name),
        is_ring(r, pts.len() as int),
    ensures
        z_ranked(other, r, g) == z_ranked(pts, r, g),
{
    let a = Seq::new(r.len(), |m: int| (z_at(pts, g, r[m]), r[m]));
    let b = Seq::new(r.len(), |m: int| (z_at(other, g, r[m]), r[m]));
    lemma_renamed_nodes(pts, other, name, r);
    assert(a =~= b) by {
        assert forall|m: int| 0 <= m < r.len() implies a[m] == #[trigger] b[m] by {
            assert(other[r[m]].x == pts[r[m]].x);
        }
    }
}

// ---------------------------------------------------------------------------------------------
// Self-intersections and diagonals
// ---------------------------------------------------------------------------------------------
/// The same self-intersections are cut off.
proof fn lemma_renamed_uncrossed<C: Scalar>(
    pts: Seq<Pt<C>>,
    other: Seq<Pt<C>>,
    name: spec_fn(usize) -> usize,
    r: Seq<int>,
    passed: nat,
)
    requires
        renamed(pts, other, name),
        is_ring(r, pts.len() as int),
    ensures
        uncrossed(other, r, passed).ring == uncrossed(pts, r, passed).ring,
        uncrossed(other, r, passed).tris == names(uncrossed(pts, r, passed).tris, name),
    decreases r.len(), r.len() - passed,
{
    let n = r.len() as int;
    lemma_renamed_nodes(pts, other, name, r);
    lemma_names(Seq::empty(), Seq::empty(), name);
    assert(curable(other, r) == curable(pts, r)) by {
        if n >= 4 {
            assert(other[r[0]].x == pts[r[0]].x && other[r[1]].x == pts[r[1]].x && other[r[2]].x
                == pts[r[2]].x && other[r[3]].x == pts[r[3]].x && other[r[n - 1]].x == pts[r[n
                - 1]].x && other[r[n - 2]].x == pts[r[n - 2]].x);
            let f = after(2, n);
            assert(other[r[f]].x == pts[r[f]].x);
        }
    }
    if curable(pts, r) {
        lemma_shortcut_ring(r, pts.len() as int);
        let rest = r.subrange(3, n).push(r[2]);
        lemma_renamed_uncrossed(pts, other, name, rest, 1);
        assert(0 <= r[0] < pts.len() && 0 <= r[2] < pts.len() && 0 <= r[n - 1] < pts.len());
        lemma_named_triangle(pts, other, name, r[n - 1], r[0], r[2]);
        lemma_names(triangle(pts, r[n - 1], r[0], r[2]), uncrossed(pts, rest, 1).tris, name);
    } else if passed + 1 >= r.len() {
    } else {
        lemma_turned_ring(r, pts.len() as int);
        lemma_renamed_uncrossed(pts, other, name, turned(r), passed + 1);
    }
}

/// The same self-intersections are cut off, and the same nodes dropped after that.
proof fn lemma_renamed_cured<C: Scalar>(
    pts: Seq<Pt<C>>,
    other: Seq<Pt<C>>,
    name: spec_fn(usize) -> usize,
    r: Seq<int>,
)
    requires
        renamed(pts, other, name),
        is_ring(r, pts.len() as int),
    ensures
        cured(other, r).ring == cured(pts, r).ring,
        cured(other, r).tris == names(cured(pts, r).tris, name),
        is_ring(cured(pts, r).ring, pts.len() as int),
{
    let n = pts.len() as int;
    lemma_renamed_uncrossed(pts, other, name, r, 0);
    lemma_uncrossed_ring(pts, r, 0, n);
    let u = uncrossed(pts, r, 0);
    lemma_renamed_swept(pts, other, name, u.ring, 0);
    lemma_swept_ring(pts, u.ring, 0, n);
}

/// As many edges cross the ray.
proof fn lemma_renamed_crossings<C: Scalar>(
    pts: Seq<Pt<C>>,
    other: Seq<Pt<C>>,
    name: spec_fn(usize) -> usize,
    r: Seq<int>,
    px: C,
    py: C,
    m: int,
)
    requires
        renamed(pts, other, name),
        is_ring(r, pts.len() as int),
        m <= r.len(),
    ensures
        odd_crossings(other, r, px, py, m) == odd_crossings(pts, r, px, py, m),
    decreases m,
{
    if m > 0 {
        lemma_renamed_crossings(pts, other, name, r, px, py, m - 1);
        lemma_renamed_nodes(pts, other, name, r);
        let f = after(m - 1, r.len() as int);
        assert(other[r[m - 1]].x == pts[r[m - 1]].x && other[r[f]].x == pts[r[f]].x);
        assert(ray_crosses(other, r, px, py, m - 1) == ray_crosses(pts, r, px, py, m - 1));
    }
}

/// The same diagonals are valid.
proof fn lemma_renamed_splittable<C: Scalar>(
    pts: Seq<Pt<C>>,
    other: Seq<Pt<C>>,
    name: spec_fn(usize) -> usize,
    r: Seq<int>,
    j: int,
)
    requires
        renamed(pts, other, name),
        is_ring(r, pts.len() as int),
        0 <= j < r.len(),
    ensures
        splittable(other, r, j) == splittable(pts, r, j),
{
    let n = r.len() as int;
    lemma_renamed_nodes(pts, other, name, r);
    let (e, f, c, d) = (before(0, n), after(0, n), before(j, n), after(j, n));
    assert(other[r[0]].x == pts[r[0]].x && other[r[j]].x == pts[r[j]].x && other[r[e]].x
        == pts[r[e]].x && other[r[f]].x == pts[r[f]].x && other[r[c]].x == pts[r[c]].x
        && other[r[d]].x == pts[r[d]].x);
    assert forall|a: int, b: int|
        #![trigger other[r[a]], other[r[b]]]
        0 <= a < n && 0 <= b < n implies (other[r[a]].i == other[r[b]].i <==> pts[r[a]].i
        == pts[r[b]].i) by {
        assert(0 <= r[a] < pts.len() && 0 <= r[b] < pts.len());
        assert(told_apart(pts, name, r[a], r[b]));
    }
    assert(other[r[f]].i == other[r[j]].i <==> pts[r[f]].i == pts[r[j]].i);
    assert(other[r[0]].i == other[r[j]].i <==> pts[r[0]].i == pts[r[j]].i);
    assert forall|m: int| 0 <= m < n implies edge_meets(other, r, j, m) == #[trigger] edge_meets(
        pts,
        r,
        j,
        m,
    ) by {
        let l = after(m, n);
        assert(other[r[m]].x == pts[r[m]].x && other[r[l]].x == pts[r[l]].x);
    }
    assert(intersects_polygon_spec(other, r, j) == intersects_polygon_spec(pts, r, j)) by {
        if intersects_polygon_spec(other, r, j) {
            let m = choose|m: int| 0 <= m < r.len() && edge_meets(other, r, j, m);
            assert(edge_meets(pts, r, j, m));
        }
        if intersects_polygon_spec(pts, r, j) {
            let m = choose|m: int| 0 <= m < r.len() && edge_meets(pts, r, j, m);
            assert(edge_meets(other, r, j, m));
        }
    }
    let (a, b) = (pts[r[0]], pts[r[j]]);
    let two = C::from_int_spec(2);
    lemma_renamed_crossings(
        pts,
        other,
        name,
        r,
        a.x.plus_spec(b.x).over_spec(two),
        a.y.plus_spec(b.y).over_spec(two),
        n,
    );
    assert(middle_inside_spec(other, r, j) == middle_inside_spec(pts, r, j));
    assert(touches_reflex(other, r, j) == touches_reflex(pts, r, j));
    assert(locally_inside_spec(other, r, 0, r[j]) == locally_inside_spec(pts, r, 0, r[j]));
    assert(locally_inside_spec(other, r, j, r[0]) == locally_inside_spec(pts, r, j, r[0]));
    assert(valid_diagonal(other, r, j) == valid_diagonal(pts, r, j));
}

/// The first diagonal is the same.
proof fn lemma_renamed_diagonal<C: Scalar>(
    pts: Seq<Pt<C>>,
    other: Seq<Pt<C>>,
    name: spec_fn(usize) -> usize,
    r: Seq<int>,
    j: int,
)
    requires
        renamed(pts, other, name),
        is_ring(r, pts.len() as int),
        0 <= j,
    ensures
        first_diagonal(other, r, j) == first_diagonal(pts, r, j),
    decreases r.len() - j,
{
    if j < r.len() - 1 {
        lemma_renamed_splittable(pts, other, name, r, j);
        lemma_renamed_diagonal(pts, other, name, r, j + 1);
    }
}

/// The first split is the same.
proof fn lemma_renamed_split<C: Scalar>(
    pts: Seq<Pt<C>>,
    other: Seq<Pt<C>>,
    name: spec_fn(usize) -> usize,
    r: Seq<int>,
    left: int,
)
    requires
        renamed(pts, other, name),
        is_ring(r, pts.len() as int),
    ensures
        first_split(other, r, left) == first_split(pts, r, left),
    decreases left,
{
    if left > 0 {
        lemma_renamed_diagonal(pts, other, name, r, 2);
        lemma_turned_ring(r, pts.len() as int);
        lemma_renamed_split(pts, other, name, turned(r), left - 1);
    }
}

// ---------------------------------------------------------------------------------------------
// Slicing
// ---------------------------------------------------------------------------------------------
/// A ring of nodes of vertices with other names is sliced into the same triangles, with those
/// names.
pub proof fn lemma_renamed_sliced<C: Scalar>(
    pts: Seq<Pt<C>>,
    other: Seq<Pt<C>>,
    name: spec_fn(usize) -> usize,
    r: Seq<int>,
    g: Grid<C>,
)
    requires
        renamed(pts, other, name),
        is_ring(r, pts.len() as int),
    ensures
        sliced(other, r, g).tris == names(sliced(pts, r, g).tris, name),
        renamed(sliced(pts, r, g).pts, sliced(other, r, g).pts, name),
    decreases r.len(), 3int, 0int,
{
    if hashed(g) {
        lemma_renamed_ranked(pts, other, name, r, g);
        lemma_ranked_table(pts, r, g);
        lemma_renamed_clipped(pts, other, name, r, z_ranked(pts, r, g), 0, false, g);
    } else {
        lemma_renamed_clipped(pts, other, name, r, Seq::empty(), 0, false, g);
    }
}

/// What is left of a ring is sliced into the same triangles.
#[verifier::spinoff_prover]
proof fn lemma_renamed_clipped<C: Scalar>(
    pts: Seq<Pt<C>>,
    other: Seq<Pt<C>>,
    name: spec_fn(usize) -> usize,
    r: Seq<int>,
    ord: Seq<int>,
    passed: nat,
    cured_once: bool,
    g: Grid<C>,
)
    requires
        renamed(pts, other, name),
        is_ring(r, pts.len() as int),
        in_table(ord, pts.len() as int),
    ensures
        clipped(other, r, ord, passed, cured_once, g).tris == names(
            clipped(pts, r, ord, passed, cured_once, g).tris,
            name,
        ),
        renamed(
            clipped(pts, r, ord, passed, cured_once, g).pts,
            clipped(other, r, ord, passed, cured_once, g).pts,
            name,
        ),
    decreases
            r.len(),
            (if cured_once {
                1int
            } else {
                2int
            }),
            r.len() - passed,
{
    let n = pts.len() as int;
    lemma_names(Seq::empty(), Seq::empty(), name);
    if r.len() <= 2 {
    } else {
        lemma_renamed_clippable(pts, other, name, r, ord, g);
        if clippable(pts, r, ord, g) {
            lemma_dropped_ring(r, n);
            lemma_renamed_clipped(pts, other, name, r.drop_first(), ord, 0, cured_once, g);
            let l = r.len() - 1;
            assert(0 <= r[0] < n && 0 <= r[1] < n && 0 <= r[l] < n);
            lemma_named_triangle(pts, other, name, r[l], r[0], r[1]);
            lemma_names(
                triangle(pts, r[l], r[0], r[1]),
                clipped(pts, r.drop_first(), ord, 0, cured_once, g).tris,
                name,
            );
        } else if passed + 1 < r.len() {
            lemma_turned_ring(r, n);
            lemma_renamed_clipped(pts, other, name, turned(r), ord, passed + 1, cured_once, g);
        } else {
            let t = turned(r);
            let f = swept(pts, t, 0);
            lemma_turned_ring(r, n);
            lemma_renamed_swept(pts, other, name, t, 0);
            lemma_swept_ring(pts, t, 0, n);
            lemma_swept_len(pts, t, 0);
            if f.len() < r.len() {
                lemma_renamed_clipped(pts, other, name, f, ord, 0, cured_once, g);
            } else if !cured_once {
                let c = cured(pts, f);
                lemma_renamed_cured(pts, other, name, f);
                lemma_cured_len(pts, f);
                lemma_renamed_clipped(pts, other, name, c.ring, ord, 0, true, g);
                lemma_names(c.tris, clipped(pts, c.ring, ord, 0, true, g).tris, name);
            } else {
                lemma_renamed_halved(pts, other, name, f, g);
            }
        }
    }
}

/// The parts of a ring are sliced into the same triangles.
#[verifier::spinoff_prover]
proof fn lemma_renamed_halved<C: Scalar>(
    pts: Seq<Pt<C>>,
    other: Seq<Pt<C>>,
    name: spec_fn(usize) -> usize,
    r: Seq<int>,
    g: Grid<C>,
)
    requires
        renamed(pts, other, name),
        is_ring(r, pts.len() as int),
    ensures
        halved(other, r, g).tris == names(halved(pts, r, g).tris, name),
        renamed(halved(pts, r, g).pts, halved(other, r, g).pts, name),
    decreases r.len(), 0int, 0int,
{
    let n = pts.len() as int;
    lemma_names(Seq::empty(), Seq::empty(), name);
    lemma_renamed_split(pts, other, name, r, r.len() as int);
    match first_split(pts, r, r.len() as int) {
        None => {},
        Some((s, j)) => {
            lemma_first_split(pts, r, r.len() as int);
            lemma_first_split_ring(pts, r, r.len() as int, n);
            assert(0 <= s[0] < n && 0 <= s[j] < n);
            let (all, too) = (bridged(pts, s[0], s[j]), bridged(other, s[0], s[j]));
            lemma_renamed_bridged(pts, other, name, s[0], s[j]);
            let (near0, far0) = (near_part(s, j), far_part(s, j, n));
            lemma_parts_rings(s, j, n);
            lemma_renamed_healed(all, too, name, near0, Seq::empty(), Seq::empty());
            lemma_renamed_healed(all, too, name, far0, Seq::empty(), Seq::empty());
            lemma_healed_ring(all, near0, n + 2);
            lemma_healed_ring(all, far0, n + 2);
            lemma_healed_len(all, near0);
            lemma_healed_len(all, far0);
            let (near, far) = (healed(all, near0), healed(all, far0));
            lemma_renamed_sliced(all, too, name, near, g);
            let (one, uno) = (sliced(all, near, g), sliced(too, near, g));
            lemma_sliced(all, near, g, usize::MAX + 1);
            assert(is_ring(far, one.pts.len() as int)) by {
                assert forall|i: int| 0 <= i < far.len() implies 0 <= #[trigger] far[i]
                    < one.pts.len() by {
                    assert(0 <= far[i] < n + 2);
                }
            }
            lemma_renamed_sliced(one.pts, uno.pts, name, far, g);
            lemma_names(one.tris, sliced(one.pts, far, g).tris, name);
        },
    }
}

// ---------------------------------------------------------------------------------------------
// Holes
// ---------------------------------------------------------------------------------------------
/// The leftmost node is the same.
pub(crate) proof fn lemma_renamed_leftmost<C: Scalar>(
    pts: Seq<Pt<C>>,
    other: Seq<Pt<C>>,
    name: spec_fn(usize) -> usize,
    r: Seq<int>,
    m: int,
)
    requires
        renamed(pts, other, name),
        in_table(r, pts.len() as int),
        m <= r.len(),
        r.len() > 0,
    ensures
        leftmost(other, r, m) == leftmost(pts, r, m),
    decreases m,
{
    if m > 1 {
        lemma_renamed_leftmost(pts, other, name, r, m - 1);
        lemma_leftmost(pts, r, m - 1);
        lemma_renamed_nodes(pts, other, name, r);
        let b = leftmost(pts, r, m - 1);
        assert(other[r[m - 1]].x == pts[r[m - 1]].x && other[r[b]].x == pts[r[b]].x);
    }
}

/// The rings are of nodes of the table.
pub(crate) open spec fn in_tables(q: Seq<Seq<int>>, n: int) -> bool {
    forall|j: int| 0 <= j < q.len() ==> in_table(#[trigger] q[j], n) && q[j].len() > 0
}

/// A hole is put in the same place.
proof fn lemma_renamed_put_in<C: Scalar>(
    pts: Seq<Pt<C>>,
    other: Seq<Pt<C>>,
    name: spec_fn(usize) -> usize,
    q: Seq<Seq<int>>,
    hole: Seq<int>,
)
    requires
        renamed(pts, other, name),
        in_tables(q, pts.len() as int),
        in_table(hole, pts.len() as int),
        hole.len() > 0,
    ensures
        put_in(other, q, hole) == put_in(pts, q, hole),
    decreases q.len(),
{
    if q.len() > 0 {
        let a = q[q.len() - 1];
        assert(in_table(a, pts.len() as int) && a.len() > 0);
        lemma_renamed_nodes(pts, other, name, a);
        lemma_renamed_nodes(pts, other, name, hole);
        let (e, f) = (after(0, a.len() as int), after(0, hole.len() as int));
        assert(other[a[0]].x == pts[a[0]].x && other[a[e]].x == pts[a[e]].x && other[hole[0]].x
            == pts[hole[0]].x && other[hole[f]].x == pts[hole[f]].x);
        assert(comes_after(other, a, hole) == comes_after(pts, a, hole));
        let d = q.drop_last();
        assert(in_tables(d, pts.len() as int)) by {
            assert forall|j: int| 0 <= j < d.len() implies in_table(
                #[trigger] d[j],
                pts.len() as int,
            ) && d[j].len() > 0 by {
                assert(d[j] == q[j]);
            }
        }
        lemma_renamed_put_in(pts, other, name, d, hole);
    }
}

/// Holes are put in the same order.
pub(crate) proof fn lemma_renamed_in_order<C: Scalar>(
    pts: Seq<Pt<C>>,
    other: Seq<Pt<C>>,
    name: spec_fn(usize) -> usize,
    q: Seq<Seq<int>>,
)
    requires
        renamed(pts, other, name),
        in_tables(q, pts.len() as int),
    ensures
        in_order(other, q) == in_order(pts, q),
    decreases q.len(),
{
    if q.len() > 0 {
        let d = q.drop_last();
        assert(in_tables(d, pts.len() as int)) by {
            assert forall|j: int| 0 <= j < d.len() implies in_table(
                #[trigger] d[j],
                pts.len() as int,
            ) && d[j].len() > 0 by {
                assert(d[j] == q[j]);
            }
        }
        lemma_renamed_in_order(pts, other, name, d);
        lemma_in_order_ok(pts, d, pts.len() as int);
        assert(in_table(q[q.len() - 1], pts.len() as int) && q[q.len() - 1].len() > 0);
        lemma_renamed_put_in(pts, other, name, in_order(pts, d), q.last());
    }
}

/// The second outline is the first, of vertices with other names.
pub(crate) open spec fn renamed_outline<C>(
    o: Outline<C>,
    w: Outline<C>,
    name: spec_fn(usize) -> usize,
) -> bool {
    &&& renamed(o.pts, w.pts, name)
    &&& w == (Outline { pts: w.pts, ..o })
    &&& is_ring(o.ring, o.pts.len() as int)
}

/// The box around a run is the same.
proof fn lemma_renamed_run_box<C: Scalar>(
    pts: Seq<Pt<C>>,
    other: Seq<Pt<C>>,
    name: spec_fn(usize) -> usize,
    run: Seq<int>,
    tail: int,
    from: int,
    to: int,
)
    requires
        renamed(pts, other, name),
        in_table(run, pts.len() as int),
        0 <= tail < pts.len(),
        0 <= from,
        to <= run.len(),
    ensures
        run_box(other, run, tail, from, to) == run_box(pts, run, tail, from, to),
    decreases to - from,
{
    if to > from {
        lemma_renamed_run_box(pts, other, name, run, tail, from, to - 1);
        let n = run_next(run, tail, to - 1);
        assert(0 <= run[to - 1] < pts.len());
        assert(0 <= n < pts.len()) by {
            if to < run.len() {
                assert(0 <= run[to] < pts.len());
            }
        }
        assert(same_node(pts, other, name, run[to - 1]) && same_node(pts, other, name, n));
    }
}

/// The blocks of a run are added alike.
proof fn lemma_renamed_indexed<C: Scalar>(
    o: Outline<C>,
    w: Outline<C>,
    name: spec_fn(usize) -> usize,
    run: Seq<int>,
    tail: int,
)
    requires
        renamed_outline(o, w, name),
        in_table(run, o.pts.len() as int),
        0 <= tail < o.pts.len(),
    ensures
        renamed_outline(indexed(o, run, tail), indexed(w, run, tail), name),
{
    let (a, b) = (indexed(o, run, tail), indexed(w, run, tail));
    assert(a.boxes =~= b.boxes) by {
        assert forall|j: int| 0 <= j < a.boxes.len() implies #[trigger] a.boxes[j]
            == b.boxes[j] by {
            let n = o.boxes.len() as int;
            if j >= n {
                lemma_renamed_run_box(
                    o.pts,
                    w.pts,
                    name,
                    run,
                    tail,
                    chunk_start(run, j - n),
                    chunk_start(run, j - n + 1),
                );
            }
        }
    }
    assert(a.lists =~= b.lists);
    assert(a.owner =~= b.owner);
}

/// The ray meets the same edges.
proof fn lemma_renamed_ray<C: Scalar>(
    pts: Seq<Pt<C>>,
    other: Seq<Pt<C>>,
    name: spec_fn(usize) -> usize,
    r: Seq<int>,
    hx: C,
    hy: C,
    nodes: Seq<int>,
    s: Ray<C>,
)
    requires
        renamed(pts, other, name),
        is_ring(r, pts.len() as int),
    ensures
        ray_over(other, r, hx, hy, nodes, s) == ray_over(pts, r, hx, hy, nodes, s),
    decreases nodes.len(),
{
    if nodes.len() > 0 {
        lemma_renamed_ray(pts, other, name, r, hx, hy, nodes.drop_last(), s);
        let p = nodes.last();
        if r.contains(p) {
            let i = r.index_of(p);
            assert(r[i] == p && 0 <= i < r.len());
            let j = after(i, r.len() as int);
            assert(0 <= r[i] < pts.len() && 0 <= r[j] < pts.len());
            assert(same_node(pts, other, name, p) && same_node(pts, other, name, r[j]));
        }
    }
}

/// The ray meets the same edges in the blocks.
proof fn lemma_renamed_blocks<C: Scalar>(
    o: Outline<C>,
    w: Outline<C>,
    name: spec_fn(usize) -> usize,
    hx: C,
    hy: C,
    m: int,
)
    requires
        renamed_outline(o, w, name),
    ensures
        ray_blocks(w, hx, hy, m) == ray_blocks(o, hx, hy, m),
    decreases m,
{
    if m > 0 {
        lemma_renamed_blocks(o, w, name, hx, hy, m - 1);
        lemma_renamed_ray(
            o.pts,
            w.pts,
            name,
            o.ring,
            hx,
            hy,
            o.lists[m - 1],
            ray_blocks(o, hx, hy, m - 1),
        );
    }
}

/// The same nodes are the best.
proof fn lemma_renamed_lean<C: Scalar>(
    pts: Seq<Pt<C>>,
    other: Seq<Pt<C>>,
    name: spec_fn(usize) -> usize,
    r: Seq<int>,
    hole: int,
    qx: C,
    m0: int,
    nodes: Seq<int>,
    s: Lean<C>,
)
    requires
        renamed(pts, other, name),
        is_ring(r, pts.len() as int),
        0 <= hole < pts.len(),
        r.contains(m0),
        r.contains(s.m),
    ensures
        lean_over(other, r, hole, qx, m0, nodes, s) == lean_over(pts, r, hole, qx, m0, nodes, s),
        r.contains(lean_over(pts, r, hole, qx, m0, nodes, s).m),
    decreases nodes.len(),
{
    if nodes.len() > 0 {
        let first = nodes.drop_last();
        lemma_renamed_lean(pts, other, name, r, hole, qx, m0, first, s);
        let p = nodes.last();
        if r.contains(p) {
            let t = lean_over(pts, r, hole, qx, m0, first, s);
            let n = r.len() as int;
            let (i, j, l) = (r.index_of(p), r.index_of(t.m), r.index_of(m0));
            assert(r[i] == p && 0 <= i < n && r[j] == t.m && 0 <= j < n && r[l] == m0 && 0 <= l
                < n);
            lemma_renamed_nodes(pts, other, name, r);
            let (a, b, c, d) = (before(i, n), after(i, n), before(j, n), after(j, n));
            assert(other[r[i]].x == pts[r[i]].x && other[r[j]].x == pts[r[j]].x && other[r[l]].x
                == pts[r[l]].x && other[r[a]].x == pts[r[a]].x && other[r[b]].x == pts[r[b]].x
                && other[r[c]].x == pts[r[c]].x && other[r[d]].x == pts[r[d]].x);
            assert(same_node(pts, other, name, hole));
            assert(lean_node(other, r, hole, qx, m0, t, p) == lean_node(
                pts,
                r,
                hole,
                qx,
                m0,
                t,
                p,
            ));
        }
    }
}

/// The same nodes of the blocks are the best.
proof fn lemma_renamed_lean_blocks<C: Scalar>(
    o: Outline<C>,
    w: Outline<C>,
    name: spec_fn(usize) -> usize,
    hole: int,
    qx: C,
    m0: int,
    m: int,
)
    requires
        renamed_outline(o, w, name),
        0 <= hole < o.pts.len(),
        o.ring.contains(m0),
    ensures
        lean_blocks(w, hole, qx, m0, m) == lean_blocks(o, hole, qx, m0, m),
        o.ring.contains(lean_blocks(o, hole, qx, m0, m).m),
    decreases m,
{
    if m > 0 {
        lemma_renamed_lean_blocks(o, w, name, hole, qx, m0, m - 1);
        let i = o.ring.index_of(m0);
        assert(o.ring[i] == m0 && 0 <= i < o.ring.len());
        assert(0 <= o.ring[i] < o.pts.len());
        assert(same_node(o.pts, w.pts, name, hole) && same_node(o.pts, w.pts, name, m0));
        lemma_renamed_lean(
            o.pts,
            w.pts,
            name,
            o.ring,
            hole,
            qx,
            m0,
            o.lists[m - 1],
            lean_blocks(o, hole, qx, m0, m - 1),
        );
    }
}

/// A hole is connected to the same node.
#[verifier::spinoff_prover]
proof fn lemma_renamed_bridge<C: Scalar>(
    o: Outline<C>,
    w: Outline<C>,
    name: spec_fn(usize) -> usize,
    hole: int,
)
    requires
        renamed_outline(o, w, name),
        0 <= hole < o.pts.len(),
    ensures
        bridge(w, hole) == bridge(o, hole),
{
    let h = o.pts[hole];
    assert(0 <= o.ring[0] < o.pts.len());
    assert(same_node(o.pts, w.pts, name, hole) && same_node(o.pts, w.pts, name, o.ring[0]));
    lemma_renamed_ray(o.pts, w.pts, name, o.ring, h.x, h.y, o.ring, ray_start());
    lemma_renamed_blocks(o, w, name, h.x, h.y, o.boxes.len() as int);
    lemma_ray_over_in(o.pts, o.ring, h.x, h.y, o.ring, ray_start());
    lemma_ray_blocks_in(o, h.x, h.y, o.boxes.len() as int);
    let ray = ray_cast(o, h.x, h.y);
    if ray.m is Some {
        let m0 = ray.m->0;
        lemma_renamed_lean(
            o.pts,
            w.pts,
            name,
            o.ring,
            hole,
            ray.qx,
            m0,
            o.ring,
            Lean { m: m0, tan: C::infinity_spec() },
        );
        lemma_renamed_lean_blocks(o, w, name, hole, ray.qx, m0, o.boxes.len() as int);
    }
}

/// Outlines heal alike.
proof fn lemma_renamed_healed_outline<C: Scalar>(
    o: Outline<C>,
    w: Outline<C>,
    name: spec_fn(usize) -> usize,
)
    requires
        renamed_outline(o, w, name),
    ensures
        renamed_outline(healed_outline(o), healed_outline(w), name),
{
    lemma_renamed_healed(o.pts, w.pts, name, o.ring, o.owner, o.boxes);
    lemma_healed_ring(o.pts, o.ring, o.pts.len() as int);
}

/// A hole is merged alike.
#[verifier::spinoff_prover]
proof fn lemma_renamed_merged<C: Scalar>(
    o: Outline<C>,
    w: Outline<C>,
    name: spec_fn(usize) -> usize,
    hole: Seq<int>,
)
    requires
        renamed_outline(o, w, name),
        is_ring(hole, o.pts.len() as int),
        apart_from(o.ring, hole),
    ensures
        renamed_outline(merged(o, hole), merged(w, hole), name),
{
    assert(0 <= hole[0] < o.pts.len());
    lemma_renamed_bridge(o, w, name, hole[0]);
    lemma_bridge(o, hole[0]);
    match bridge(o, hole[0]) {
        None => {},
        Some(b) => {
            lemma_renamed_connected(o, w, name, hole, b);
            let (c, d) = (connected(o, hole, b), connected(w, hole, b));
            lemma_renamed_healed_outline(c, d, name);
            lemma_renamed_backtracked(c.pts, d.pts, name, c.ring, c.owner, c.boxes);
            let (one, uno) = (healed_outline(c), healed_outline(d));
            if one.ring.contains(b) {
                let at = one.ring.index_of(b);
                assert(0 <= at < one.ring.len() && one.ring[at] == b);
                lemma_turned_to_ring(one.ring, at, one.pts.len() as int);
                lemma_renamed_healed_outline(
                    Outline { ring: seen_from(one.ring, b), ..one },
                    Outline { ring: seen_from(uno.ring, b), ..uno },
                    name,
                );
            } else {
                lemma_renamed_healed_outline(one, uno, name);
            }
            assert(renamed_outline(slit_healed(c, b), slit_healed(d, b), name));
        },
    }
}

/// A hole is joined alike.
proof fn lemma_renamed_connected<C: Scalar>(
    o: Outline<C>,
    w: Outline<C>,
    name: spec_fn(usize) -> usize,
    hole: Seq<int>,
    b: int,
)
    requires
        renamed_outline(o, w, name),
        is_ring(hole, o.pts.len() as int),
        apart_from(o.ring, hole),
        o.ring.contains(b),
    ensures
        renamed_outline(connected(o, hole, b), connected(w, hole, b), name),
{
    let n = o.pts.len() as int;
    let i = o.ring.index_of(b);
    assert(0 <= i < o.ring.len() && o.ring[i] == b);
    assert(0 <= o.ring[i] < n && 0 <= hole[0] < n);
    let r = seen_from(o.ring, b);
    lemma_turned_to_ring(o.ring, i, n);
    assert forall|h: int| #[trigger] hole.contains(h) implies !r.contains(h) by {
        assert(!o.ring.contains(h));
    }
    lemma_joined_ring(r, hole, n);
    lemma_renamed_bridged(o.pts, w.pts, name, b, hole[0]);
    let all = Outline {
        pts: bridged(o.pts, b, hole[0]),
        ring: joined(r, hole, n),
        owner: o.owner.push(0).push(0),
        ..o
    };
    let too = Outline {
        pts: bridged(w.pts, b, hole[0]),
        ring: joined(r, hole, n),
        owner: w.owner.push(0).push(0),
        ..w
    };
    assert(renamed_outline(all, too, name));
    if o.boxes.len() > 0 {
        let run = slit_run(b, hole, n);
        let j = after(0, r.len() as int);
        assert(0 <= r[j] < n);
        assert(in_table(run, n + 2)) by {
            assert forall|m: int| 0 <= m < run.len() implies 0 <= #[trigger] run[m] < n + 2 by {
                if 1 <= m <= hole.len() {
                    assert(run[m] == hole[m - 1]);
                    assert(0 <= hole[m - 1] < n);
                }
            }
        }
        lemma_renamed_indexed(all, too, name, run, succ(r, 0));
    }
}

/// Holes are merged alike.
pub(crate) proof fn lemma_renamed_merged_all<C: Scalar>(
    o: Outline<C>,
    w: Outline<C>,
    name: spec_fn(usize) -> usize,
    q: Seq<Seq<int>>,
    m: int,
)
    requires
        renamed_outline(o, w, name),
        rings_apart(o.ring, q, o.pts.len() as int),
        0 <= m <= q.len(),
    ensures
        renamed_outline(merged_all(o, q, m), merged_all(w, q, m), name),
    decreases m,
{
    if m > 0 {
        lemma_renamed_merged_all(o, w, name, q, m - 1);
        lemma_merged_all_ring(o, q, m - 1);
        let a = merged_all(o, q, m - 1);
        assert(is_ring(q[m - 1], o.pts.len() as int));
        assert(is_ring(q[m - 1], a.pts.len() as int)) by {
            assert forall|i: int| 0 <= i < q[m - 1].len() implies 0 <= #[trigger] q[m - 1][i]
                < a.pts.len() by {}
        }
        assert(apart_from(a.ring, q[m - 1]));
        lemma_renamed_merged(a, merged_all(w, q, m - 1), name, q[m - 1]);
    }
}

/// The outline before any hole is merged.
pub(crate) proof fn lemma_renamed_outline<C: Scalar>(
    pts: Seq<Pt<C>>,
    other: Seq<Pt<C>>,
    name: spec_fn(usize) -> usize,
    ring: Seq<int>,
    count: int,
)
    requires
        renamed(pts, other, name),
        is_ring(ring, pts.len() as int),
    ensures
        renamed_outline(outline(pts, ring, count), outline(other, ring, count), name),
{
    let a = Outline::<C> {
        pts,
        ring,
        boxes: seq![],
        lists: seq![],
        owner: Seq::new(pts.len(), |h: int| 0),
    };
    let b = Outline::<C> {
        pts: other,
        ring,
        boxes: seq![],
        lists: seq![],
        owner: Seq::new(other.len(), |h: int| 0),
    };
    assert(a.owner =~= b.owner);
    assert(renamed_outline(a, b, name));
    if count >= BLOCK_INDEX_MIN_NODES {
        assert(0 <= ring[0] < pts.len());
        lemma_renamed_indexed(a, b, name, ring, ring[0]);
    }
}

} // verus!
