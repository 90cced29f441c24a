//! Exact endgame solver for a two-player sowing game on a ring of twelve pits.
//!
//! The crate ranks board partitions into dense indices, simulates moves,
//! keeps a tri-state score table and resolves positions by a worklist that
//! tolerates cycles in the position graph.
pub mod configuration;
pub mod enumeration;
pub mod laws;
pub mod partition;
pub mod score;
pub mod search;
pub mod solver;
pub mod tablebase;
pub mod tables;
pub mod termination;
