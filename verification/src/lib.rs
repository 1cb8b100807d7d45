//! Multi-agent path finding on weighted graphs.
//!
//! The crate plans time-indexed, collision-free routes for several agents
//! that share one graph, minimising the sum of the edge weights travelled.
//! Every function is verified against the contract written beside it.

pub mod api;
pub mod coordinate;
pub mod grid;
pub mod mapf;
pub mod marked_coordinate;
pub mod problem;
pub mod train;
