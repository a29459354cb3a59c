//! Polygon triangulation by ear slicing, with z-order curve hashing for larger polygons.
//!
//! [`earcut`] triangulates simple polygons (which may be non-convex and contain holes) given as
//! one or more flat rings of 2D coordinates. It is generic over the type of the coordinates, see
//! [`Scalar`]; [`Exact`] is one such type.
//!
//! ```
//! use rearcut::{deviation, earcut, Exact, Scalar};
//!
//! // a quadrilateral: (10,0) (0,50) (60,60) (70,10)
//! let data: Vec<Exact> = [10, 0, 0, 50, 60, 60, 70, 10].map(Exact::new).to_vec();
//! let triangles: Vec<u32> = earcut(&data, &[], 2);
//! assert_eq!(triangles.len(), 6); // two triangles
//! assert!(deviation(&data, &[], 2, &triangles).same(Exact::new(0)));
//! ```
//!
//! Polygons with holes are supported via `hole_indices`, which lists the starting vertex index of
//! each hole ring within `data`.
//!
//! What the functions return is stated by [`triangulation::triangulation`] and
//! [`deviation::deviation_spec`], over the models in [`model`] and [`hole_model`]. What follows
//! from that is stated by the public proof functions:
//!
//! - triangles are made of vertices of the polygon, there are not too many of them
//!   ([`triangulation`], [`bounds`]), and none is degenerate ([`spread`]);
//! - a polygon that is sliced completely has the area of its triangles ([`areas`],
//!   [`polygon_areas`]), so that with integer coordinates its triangulation has no deviation
//!   ([`exact_areas`]), and its triangles cover it and leave its holes out ([`tiling`]); it is
//!   sliced completely if it has as many triangles as there can be ([`counting`]);
//! - every simple ring has an ear, and is simple without it ([`simple`], by the windings of
//!   [`winding`] and the segments of [`segments`]), so that simple polygons are sliced completely
//!   ([`simple_polygons`], [`exact_simple`]), also where they are split along a diagonal
//!   ([`splitting`], [`exact_splitting`]);
//! - searching ears by z-order changes no result ([`hashing`], [`exact_curve`]);
//! - the boxes of the hole-bridge index cover the edges of the ring at all times ([`covering`]), a
//!   fresh index changes no bridge ([`fresh_index`]), holes inside a simple ring and beside
//!   each other get connected ([`connecting`], [`holes_apart`], [`holes_given`]), where no three
//!   vertices lie on one line to nodes that they see ([`sight`], [`bridge_sight`]);
//! - a ring that touches itself at corners at most has ears and diagonals ([`weak`], [`weak_cuts`],
//!   [`weak_ears`]) and is sliced completely ([`weak_slices`]), and joining holes gives such rings
//!   ([`weak_joins`], [`simple_holes`], [`holed_rings`]), so that polygons with holes are
//!   triangulated completely where no three vertices lie on one line ([`holed_polygons`]);
//! - segments are found to meet, and diagonals to lie inside, as they do ([`meeting`],
//!   [`diagonals`], [`exact_diagonals`]);
//! - neither the scale ([`scaling`], [`scaling_holes`]) nor further dimensions ([`planar`]) nor the
//!   way in which rings run ([`orientation`], by [`renaming`]) change a triangle;
//! - areas and deviation do not depend on where a ring starts, which way it runs, and in what order
//!   triangles come ([`exact_measures`]), nor on where in the data a ring lies ([`area_ranges`]);
//! - sweeping a ring reaches a fixpoint, and sorting sorts ([`laws`]);
//! - flattening lays rings out one behind the other ([`flatten()`]), every vertex is read into one
//!   ring, where the data say that it is ([`reading`]), and the numbers that are returned are the
//!   vertex indices themselves ([`index`]);
//! - holes are merged in order, from left to right, each from its leftmost node ([`hole_order`]),
//!   by slits, also where they touch the ring ([`touching`]), and holes of a single vertex stay
//!   ([`steiner`]);
//! - rings are sliced ear by ear ([`steps`]), each triangle cutting off its middle corner
//!   ([`tips`]), convex polygons into fans ([`fans`]); what is swept, cut off and split is found as
//!   it is, however a ring runs ([`exact_rings`], [`exact_cuts`]);
//! - exact coordinates compute with rational numbers ([`exact_values`]), so that turns and meetings
//!   are found as they are among large integers ([`large_values`]) and fractions ([`fractions`]).
pub mod area_ranges;
pub mod areas;
pub mod bounds;
pub mod bridge_sight;
pub mod connecting;
pub mod counting;
pub mod covering;
pub mod deviation;
pub mod diagonals;
pub mod exact;
pub mod exact_areas;
pub mod exact_curve;
pub mod exact_cuts;
pub mod exact_diagonals;
pub mod exact_measures;
pub mod exact_polygons;
pub mod exact_rings;
pub mod exact_simple;
pub mod exact_splitting;
pub mod exact_values;
pub mod fans;
pub mod flatten;
pub mod fractions;
pub mod fresh_index;
pub mod geometry;
pub mod hashing;
pub mod hole_model;
pub mod hole_order;
pub mod holed_polygons;
pub mod holed_rings;
pub mod holes_apart;
pub mod holes_given;
pub mod index;
pub mod large_values;
pub mod laws;
pub mod meeting;
pub mod model;
pub mod orientation;
pub mod planar;
pub mod polygon_areas;
pub mod reading;
pub mod renaming;
pub mod rings;
pub mod scalar;
pub mod scaling;
pub mod scaling_holes;
pub mod segments;
pub mod sight;
pub mod simple;
pub mod simple_holes;
pub mod simple_polygons;
pub mod splitting;
pub mod spread;
pub mod steiner;
pub mod steps;
pub mod tiling;
pub mod tips;
pub mod touching;
pub mod triangulation;
pub mod weak;
pub mod weak_cuts;
pub mod weak_ears;
pub mod weak_joins;
pub mod weak_slices;
pub mod winding;
pub mod zooming;
pub mod zsort;

mod arena;
mod blocks;
mod bridge;
mod clip;
mod filter;
mod holes;
mod lists;
mod query;

pub use crate::deviation::deviation;
pub use crate::exact::Exact;
pub use crate::flatten::flatten;
pub use crate::index::EarcutIndex;
pub use crate::scalar::Scalar;
pub use crate::triangulation::{earcut, earcut_into, Earcut};
