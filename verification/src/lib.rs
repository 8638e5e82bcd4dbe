//! An incremental PageRank engine.
//!
//! A directed multigraph is built one edge at a time; each node carries an
//! importance score, updated by synchronous power-iteration sweeps with a
//! damping factor, until a root-mean-square convergence metric drops under a
//! threshold.  Scores are IEEE-754 binary64 values held as raw bit patterns;
//! see the `fp` module.

pub mod fp;
pub mod graph;
pub mod model;

pub use graph::Pagerank;
