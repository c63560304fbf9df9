//! The branch-and-bound solver: a best-first search under a time budget.

use crate::knapsack::{is_density_ordering, KnapsackProblem, KnapsackSolution};
use crate::knapsack_solver::KnapsackSolver;
pub use crate::node::BranchAndBoundNode;
use crate::knapsack::KnapsackItem;
use crate::node::root;
use crate::search::{work, Search, SearchState};
use std::time::Instant;
use vstd::prelude::*;

verus! {

/// `std::time::Instant`, a point in time that Verus cannot look into.
#[verifier::external_type_specification]
#[verifier::external_body]
pub struct ExInstant(std::time::Instant);

/// `std::time::Instant::now` reads the clock. Nothing is claimed of the
/// instant that it returns.
pub assume_specification[ std::time::Instant::now ]() -> (now: std::time::Instant)
;

/// `std::time::Instant::elapsed` measures the time since `start`. Nothing is
/// claimed of the duration that it returns.
pub assume_specification[ std::time::Instant::elapsed ](start: &std::time::Instant) -> (elapsed:
    std::time::Duration)
;

/// `std::time::Duration::as_secs` gives the whole seconds of a duration.
/// Nothing is claimed of the number that it returns.
pub assume_specification[ std::time::Duration::as_secs ](duration: &std::time::Duration) -> (secs:
    u64)
;

/// The solver, with what it recorded of its last search: the number of nodes
/// that it expanded, the bound of the root, and whether the time budget
/// ended the search.
pub struct BranchAndBoundSolver {
    pub nodes_explored: usize,
    pub best_relaxation: usize,
    pub early_stopping_activated: bool,
}

impl Default for BranchAndBoundSolver {
    fn default() -> (solver: Self)
        ensures
            solver.nodes_explored == 0,
            solver.best_relaxation == 10000000,
            !solver.early_stopping_activated,
    {
        Self { nodes_explored: 0, best_relaxation: 10000000, early_stopping_activated: false }
    }
}

impl KnapsackSolver for BranchAndBoundSolver {
    open spec fn accepts(&self, problem: &KnapsackProblem) -> bool {
        problem.valid()
    }

    /// Searches until no node is open or the time budget is spent, one tick
    /// after the other, each with the seconds that have passed. The solution
    /// claims optimality exactly if the search was not stopped early.
    fn solve(&mut self, problem: &KnapsackProblem) -> (solution: KnapsackSolution)
        ensures
            solution.opt == !final(self).early_stopping_activated,
            exists|order: Seq<(usize, KnapsackItem)>|
                is_density_ordering(problem.treasure_items@, order) && final(self).best_relaxation
                    == (#[trigger] root(*problem, order)).best_relaxation,
    {
        let start_time = Instant::now();
        let sorted_items = problem.get_best_value_per_weight_items();
        let mut search = Search::start(&sorted_items, problem);
        self.best_relaxation = search.incumbent.best_relaxation;
        loop
            invariant_except_break
                search@.state == SearchState::Running,
            invariant
                problem.valid(),
                is_density_ordering(problem.treasure_items@, sorted_items@),
                search@.inv(*problem, sorted_items@),
            ensures
                search@.state != SearchState::Running,
            decreases work(search@.frontier, problem.treasure_items@.len()),
        {
            let elapsed = start_time.elapsed().as_secs();
            search.tick(&sorted_items, problem, elapsed);
            if !search.is_running() {
                break ;
            }
        }
        self.nodes_explored = search.nodes_explored;
        self.early_stopping_activated = match search.state {
            SearchState::Exhausted => false,
            _ => true,
        };
        search.into_solution(problem)
    }
}

} // verus!
