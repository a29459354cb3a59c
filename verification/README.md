# rearcut

A verified 2D polygon triangulation library, based on ear slicing with a z-order curve hash. It
triangulates simple polygons that can be concave and have holes. The library is written in Verus:
what its functions return is stated in their contracts and proved.

## Usage

```rust
use rearcut::{earcut, Exact};

// a quadrilateral: (10,0) (0,50) (60,60) (70,10)
let data: Vec<Exact> = [10, 0, 0, 50, 60, 60, 70, 10].map(Exact::new).to_vec();
let triangles: Vec<u32> = earcut(&data, &[], 2);
```

Polygons with holes are given as a flat vertex array plus the vertex index at which each hole ring
starts. `flatten` converts rings of points (outer ring first, holes behind it) into that form, and
`deviation` computes the relative area error of a triangulation. The output index type is one of
`u16`, `u32`, `u64` and `usize`. For repeated triangulations, `Earcut` reuses its allocations.

Coordinates are of any type that implements `Scalar`. The library holds one, `Exact`, for rational
numbers; `app/` holds one for `f64`, with the same functions on plain `f64` slices. Nothing is
asked of the arithmetic of a `Scalar` but that its operations are functions of their operands, and
that walking to a point and back encloses no area.

## What is proved

What `earcut` returns is stated exactly, for any coordinates, by `triangulation` in
`src/triangulation.rs`. Of that the library proves among others:

- A simple polygon without holes, whose `n` corners have integer coordinates of moderate size, is
  cut into `n - 2` triangles, which together have its area, cover it and do not overlap
  (`lemma_simple_polygon` and `lemma_simple_tiling` in `src/exact_simple.rs`).
- A polygon with holes is triangulated completely where no three of its vertices lie on one line:
  if its `n` corners have integer coordinates of moderate size, its rings are simple and do not
  cross, and its `h` holes are inside the outer ring and beside each other, there are
  `n + 2 * h - 2` triangles, which together have its area, cover it and leave its holes out
  (`lemma_holes_polygon`, `lemma_holed_polygon` and `lemma_holes_tiling` in
  `src/holed_polygons.rs`). The last vertex of a ring may repeat the first. Where vertices lie on
  one line this can fail; an example stands at the law.
- Whatever lies on one line, the triangles of a polygon with holes have its area, cover it and leave
  its holes out where all holes could be connected to the outer ring and every triangle was cut off
  as an ear (`lemma_no_deviation` in `src/exact_areas.rs`, `lemma_integral_tiling` in
  `src/exact_simple.rs`). It is so whenever there are as many triangles as there can be
  (`lemma_full_area` and `lemma_full_tiling` in `src/counting.rs`).
- Holes inside a simple outer ring and beside each other all get connected, whichever way the rings
  run (`lemma_given_holes_connected` in `src/holes_given.rs`), each to a node further left
  (`lemma_bridge_leftward` in `src/holes_apart.rs`). Where no three vertices lie on one line, each
  of them is connected to a corner that it sees (`lemma_bridge_in_turn` in `src/holed_polygons.rs`,
  `lemma_first_bridge_seen` in `src/bridge_sight.rs`). A fresh index of the ring changes no bridge
  (`lemma_fresh_index` in `src/fresh_index.rs`).
- A simple ring no three corners of which lie on one line has a diagonal to split it along, and both
  parts are sliced completely (`lemma_split_completely` in `src/exact_splitting.rs`).
- No triangle is degenerate, whatever the coordinates (`lemma_no_flat_triangle` and
  `lemma_three_vertices` in `src/spread.rs`).
- Searching ears by z-order gives the triangles that searching through all nodes gives
  (`lemma_hashing_changes_nothing` in `src/hashing.rs`, `lemma_exact_slices` in
  `src/exact_curve.rs`).
- Neither multiplying all coordinates by a positive integer (`lemma_scaling` in
  `src/scaling_holes.rs`) nor adding further numbers to each vertex (`lemma_planar` in
  `src/planar.rs`) nor giving rings backwards (`lemma_orientation` in `src/orientation.rs`)
  changes a triangle.
- With integer coordinates, segments are found to meet exactly if they have a point in common
  (`lemma_meeting` in `src/meeting.rs`), and a diagonal of a simple ring in general position is
  valid exactly if all points between its ends are inside (`lemma_valid_diagonal` in
  `src/exact_diagonals.rs`).
- The deviation is the difference of the areas over that of the polygon, and zero exactly if they
  agree (`lemma_deviation` in `src/exact_measures.rs`).
- The signed area of a simple ring is positive exactly if it runs counterclockwise, and twice the
  area of its triangles, wherever in the data the ring starts (`lemma_range_sign` and
  `lemma_range_twice` in `src/area_ranges.rs`).

## Layout

- `src/triangulation.rs`, `src/deviation.rs`, `src/flatten.rs`: the public functions.
- `src/model.rs`, `src/hole_model.rs`: what they compute, over sequences of nodes.
- `src/arena.rs`, `src/lists.rs`, `src/filter.rs`, `src/query.rs`, `src/clip.rs`, `src/blocks.rs`,
  `src/bridge.rs`, `src/holes.rs`, `src/zsort.rs`: the linked rings that compute it.
- `src/bounds.rs`, `src/counting.rs`, `src/rings.rs`, `src/areas.rs`, `src/polygon_areas.rs`,
  `src/spread.rs`, `src/hashing.rs`, `src/covering.rs`, `src/planar.rs`, `src/renaming.rs`,
  `src/laws.rs`: laws of the model.
- `src/segments.rs`, `src/winding.rs`, `src/simple.rs`, `src/simple_polygons.rs`, `src/tiling.rs`:
  every simple ring has an ear, is sliced completely, and is covered by its triangles once.
- `src/meeting.rs`, `src/diagonals.rs`, `src/splitting.rs`, `src/sight.rs`, `src/zooming.rs`: what
  it means that segments meet and that points are inside or seen, between integer points as well.
- `src/weak.rs`, `src/weak_cuts.rs`, `src/weak_ears.rs`, `src/weak_slices.rs`, `src/weak_joins.rs`:
  rings that touch themselves at corners have ears and diagonals, are sliced completely, and come of
  joining holes.
- `src/exact.rs`, `src/exact_areas.rs`, `src/exact_curve.rs`, `src/exact_diagonals.rs`,
  `src/exact_measures.rs`, `src/exact_polygons.rs`, `src/exact_simple.rs`,
  `src/exact_splitting.rs`: exact coordinates, and the laws for polygons with integer coordinates.
- `src/fresh_index.rs`, `src/connecting.rs`, `src/holes_apart.rs`, `src/holes_given.rs`,
  `src/bridge_sight.rs`, `src/simple_holes.rs`, `src/holed_rings.rs`, `src/holed_polygons.rs`,
  `src/scaling.rs`, `src/scaling_holes.rs`, `src/orientation.rs`, `src/area_ranges.rs`: laws of
  connecting holes, of scaling, of orientation and of areas, for such polygons.
- `tests/`: tests, with `f64` and with exact coordinates.
- `app/`: the library on `f64` slices.
