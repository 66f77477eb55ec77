//! Bins, items and layouts.

pub mod bin;
pub mod item;
pub mod layout;
