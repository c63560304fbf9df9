//! Exact solvers for the 0/1 knapsack problem: choose, among items that each
//! have a value and a weight, those of the highest total value whose total
//! weight does not exceed a capacity.
//!
//! - [`knapsack`]: the problem model, and what feasible and optimal mean.
//! - [`relaxation`]: the fractional relaxation bound and its soundness.
//! - [`node`], [`frontier`], [`search`]: the best-first search as a state
//!   machine over partial assignments.
//! - [`branch_and_bound`]: the search run against the clock.
//! - [`matrix`], [`dynamic_programming`]: the table-filling solver.
//! - [`strategy`]: which solver an instance goes to.
//! - [`file_reader`], [`printer`]: the text forms of instances and solutions.

pub mod branch_and_bound;
pub mod dynamic_programming;
pub mod file_reader;
pub mod frontier;
pub mod knapsack;
pub mod knapsack_solver;
pub mod matrix;
pub mod node;
pub mod printer;
pub mod relaxation;
pub mod search;
pub mod strategy;
