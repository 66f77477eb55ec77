//! The quadtree: a fixed decomposition of the bin's bounding box in which
//! every node knows the hazards that reach into its box.

pub mod qt_hazard;
pub mod qt_node;
pub mod qt_traits;
