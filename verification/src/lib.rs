//! A backtracking bin-packing solver.
//!
//! Items are positive weights; bins have fixed capacities. The solver
//! assigns every item to a bin without exceeding any capacity, using a
//! resumable, explicit-stack backtracking search with symmetry pruning,
//! and a driver that searches for the fewest bins of a uniform capacity.

pub mod bins;
pub mod driver;
pub mod engine;
pub mod model;
pub mod packing;
pub mod parse;
pub mod weights;

pub use bins::Bin;
pub use driver::{solve_packing, SolutionState};
pub use engine::Fitter;
