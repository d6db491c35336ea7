//! A small entity-component-system core with a deterministic scheduler.
//!
//! Coordinates are fixed-point numbers: an `i64` counts thousandths of a unit.

pub mod component;
pub mod entity;
pub mod render;
pub mod scheduler;
pub mod simulation;
pub mod storage;
pub mod systems;
pub mod world;
