//! Collision detection for irregular cutting and packing.
//!
//! A solver that packs items into a bin asks, over and over, whether a shape
//! at a candidate position overlaps anything that forbids placement there.
//! This crate answers that question, and proves its answers right.
//!
//! # The grid
//!
//! All geometry lies on an integer grid. A [`geometry::cell::Cell`] is a unit
//! square of the grid, and every region is a set of cells: a shape is a union
//! of rectangles with corners on the grid, and its view is the set of cells
//! that it covers. Two regions collide when they share a cell, which is to
//! say when their intersection has positive area; regions that only touch
//! along an edge or at a corner share no cell. Shapes turn by quarter turns
//! and move by whole cells, so that they stay on the grid. How fine the grid
//! is against the shapes at hand is for the caller to choose. An outline
//! given by its corners is turned into a shape by
//! [`geometry::simple_polygon::SimplePolygon::to_shape`], which keeps the
//! cells whose centers lie inside the outline.
//!
//! # The parts
//!
//! - [`geometry`]: rectangles, shapes, polygons, disks, transformations, and the
//!   surrogate of a shape, a few disks and strips inside the shape that stand
//!   in for it in fast queries.
//! - [`collision_detection::hazard`]: a hazard is a region in which nothing
//!   may be placed, with the entity that occupies it.
//! - [`collision_detection::hazard_filter`]: filters mark hazards that one
//!   query is to ignore.
//! - [`collision_detection::quadtree`]: the index, a quadtree over the bin's
//!   bounding box.
//! - [`collision_detection::haz_prox_grid`]: a cache of proximities to the
//!   nearest hazard.
//! - [`collision_detection::cd_engine`]: the engine, which holds the hazards
//!   of a layout and answers the queries.
//! - [`entities`]: bins, items and layouts.
//!
//! # What is proved
//!
//! The model of an engine is a map from each registered entity to the cells
//! of its hazard. Every operation states what it does to that map, and every
//! query states its answer over it: the exact query answers whether the
//! shape shares a cell with a relevant hazard, no more and no less, whatever
//! was registered and deregistered before.

pub mod collision_detection;
pub mod entities;
pub mod geometry;
pub mod util;
