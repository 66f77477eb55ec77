//! Hazards, hazard filters and the spatial index that answers collision queries.

pub mod cd_engine;
pub mod haz_prox_grid;
pub mod hazard;
pub mod hazard_filter;
pub mod hazard_map;
pub mod quadtree;
