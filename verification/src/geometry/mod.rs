//! Geometry on an integer grid: cells, axis-aligned rectangles and the shapes
//! built from them.

pub mod aa_rectangle;
pub mod cell;
pub mod circle;
pub mod edge;
pub mod fitting;
pub mod point;
pub mod shape;
pub mod simple_polygon;
pub mod surrogate;
pub mod transformation;
