//! fondoso grows a raster image outward from seed cells: a frontier of
//! pending cells is drained by a pluggable selection strategy, each
//! extracted cell commits a randomly diffused colour to the canvas, and its
//! unclaimed neighbours join the frontier carrying that colour. The engine
//! is verified to commit every cell of the grid exactly once and to insert
//! exactly one frontier entry per cell.

pub mod engine;
pub mod grid;
pub mod pendingkind;
pub mod point;
mod rng;
