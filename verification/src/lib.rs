//! A redstone circuit simulator: a voxel world of redstone components is
//! lowered into a weighted directed graph, the graph is pruned, and the
//! pruned graph is advanced one tick at a time.

pub mod blocks;
pub mod cblock;
pub mod determinism;
pub mod edge;
pub mod facing;
pub mod graph;
pub mod merge;
pub mod names;
pub mod order;
pub mod parse;
pub mod siblings;
pub mod state;
pub mod wires;
pub mod world;
pub mod world_build;
pub mod world_data;
pub mod world_logic;
pub mod world_prune;
