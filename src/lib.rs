//! Core of a small 2D game: a generational handle pool, collision layers, a
//! uniform-grid broad phase, input state and resource handles, each verified
//! against its contract.

pub mod collision;
pub mod grid;
pub mod input;
pub mod pool;
pub mod resources;
