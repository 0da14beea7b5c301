//! Graph structures for minimum-cut estimation by random edge contraction,
//! plus a directed multigraph with per-neighbour edge multiplicities.
pub mod directed;
pub mod multigraph;
pub mod driver;
