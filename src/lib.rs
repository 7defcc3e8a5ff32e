//! Sliding-pipe puzzle search: tile expansion, connectivity evaluation,
//! move generation, state transitions and three search strategies.

pub mod board;
pub mod config;
pub mod grid;
pub mod moves;
pub mod queue;
pub mod rng;
pub mod search;
pub mod state;
pub mod sums;
pub mod tile;
