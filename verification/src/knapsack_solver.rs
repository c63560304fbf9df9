//! What every solver offers.

use crate::knapsack::{solves, KnapsackProblem, KnapsackSolution};
use vstd::prelude::*;

verus! {

/// A solver turns an instance that it accepts into a solution of it.
pub trait KnapsackSolver {
    /// The instances that this solver can work on.
    spec fn accepts(&self, problem: &KnapsackProblem) -> bool;

    fn solve(&mut self, problem: &KnapsackProblem) -> (solution: KnapsackSolution)
        requires
            old(self).accepts(problem),
        ensures
            solves(*problem, solution),
    ;
}

} // verus!
