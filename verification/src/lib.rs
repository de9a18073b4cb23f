//! A four-dimensional maze library: a dense grid model, a randomized
//! recursive-backtracker generator, a depth-first path solver, and a
//! chunked serializer for external visualization.

pub mod space;
pub mod grid;
pub mod counting;
pub mod shuffle;
pub mod paths;
pub mod solver;
pub mod generator;
pub mod chunks;
