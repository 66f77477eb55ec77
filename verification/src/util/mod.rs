//! Configuration of the engine, and helpers.

pub mod config;
pub mod select;
