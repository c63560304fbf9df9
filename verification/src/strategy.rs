//! Which solver an instance goes to.

use crate::branch_and_bound::BranchAndBoundSolver;
use crate::dynamic_programming::DynamicProgrammingSolver;
use crate::knapsack::{solves, KnapsackProblem, KnapsackSolution};
use crate::knapsack_solver::KnapsackSolver;
use vstd::prelude::*;

verus! {

/// The problem size, items times capacity, from which on the table of the
/// dynamic-programming solver is too large and the search takes over.
pub const DENSE_SIZE_LIMIT: usize = 1_000_000;

/// The two solvers.
#[derive(Clone, Copy, Debug, PartialEq, Eq, Structural)]
pub enum Strategy {
    BranchAndBound,
    DynamicProgramming,
}

/// The strategy for `problem`: dynamic programming for the small and dense
/// instances, those whose size is under the limit and whose table has an
/// address for every cell; branch and bound for all others.
pub open spec fn strategy_for(problem: KnapsackProblem) -> Strategy {
    if problem.n_items * problem.capacity < DENSE_SIZE_LIMIT && (problem.capacity + 1) * (
    problem.n_items + 1) <= usize::MAX {
        Strategy::DynamicProgramming
    } else {
        Strategy::BranchAndBound
    }
}

/// Picks the strategy for `problem` by its size.
pub fn select_strategy(problem: &KnapsackProblem) -> (strategy: Strategy)
    ensures
        strategy == strategy_for(*problem),
{
    let n: u128 = problem.n_items as u128;
    let c: u128 = problem.capacity as u128;
    assert(n * c <= 0xFFFF_FFFF_FFFF_FFFF * 0xFFFF_FFFF_FFFF_FFFF && (c + 1) * (n + 1) == n * c
        + n + c + 1) by (nonlinear_arith)
        requires
            0 <= n <= 0xFFFF_FFFF_FFFF_FFFF,
            0 <= c <= 0xFFFF_FFFF_FFFF_FFFF,
    ;
    let size = n * c;
    if size < DENSE_SIZE_LIMIT as u128 && size + n + c + 1 <= usize::MAX as u128 {
        Strategy::DynamicProgramming
    } else {
        Strategy::BranchAndBound
    }
}

/// Solves `problem` with the solver that its size calls for.
pub fn solve(problem: &KnapsackProblem) -> (solution: KnapsackSolution)
    requires
        problem.valid(),
    ensures
        solves(*problem, solution),
        strategy_for(*problem) == Strategy::DynamicProgramming ==> solution.opt,
{
    match select_strategy(problem) {
        Strategy::DynamicProgramming => {
            let mut solver = DynamicProgrammingSolver;
            solver.solve(problem)
        },
        Strategy::BranchAndBound => {
            let mut solver = BranchAndBoundSolver::default();
            solver.solve(problem)
        },
    }
}

} // verus!
