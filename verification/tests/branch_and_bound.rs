use knapsack::branch_and_bound::BranchAndBoundSolver;
use knapsack::frontier::Frontier;
use knapsack::knapsack::{is_denser, KnapsackItem, KnapsackProblem, KnapsackSolution};
use knapsack::knapsack_solver::KnapsackSolver;
use knapsack::node::{create_new_node, create_root_node, BranchAndBoundNode};
use knapsack::relaxation::calc_best_relaxation_fractionals;
use knapsack::search::{Search, SearchState, COMPACTION_INTERVAL, TIME_BUDGET_SECS};

fn problem_of(capacity: usize, pairs: &[(usize, usize)]) -> KnapsackProblem {
    let items: Vec<KnapsackItem> =
        pairs.iter().map(|&(value, weight)| KnapsackItem { value, weight }).collect();
    KnapsackProblem::new(items.len(), capacity, items)
}

fn brute_force(problem: &KnapsackProblem, fixed: &[u8]) -> usize {
    let n = problem.n_items;
    let mut best = 0usize;
    for mask in 0u32..(1u32 << n) {
        let mut value = 0usize;
        let mut weight = 0usize;
        let mut agrees = true;
        for i in 0..n {
            let taken = (mask >> i) & 1 == 1;
            if i < fixed.len() && (fixed[i] == 1) != taken {
                agrees = false;
            }
            if taken {
                value += problem.treasure_items[i].value;
                weight += problem.treasure_items[i].weight;
            }
        }
        if agrees && weight <= problem.capacity && value > best {
            best = value;
        }
    }
    best
}

fn weight_of(problem: &KnapsackProblem, selection: &[u8]) -> usize {
    (0..selection.len()).filter(|&i| selection[i] == 1).map(|i| problem.treasure_items[i].weight).sum()
}

fn value_of(problem: &KnapsackProblem, selection: &[u8]) -> usize {
    (0..selection.len()).filter(|&i| selection[i] == 1).map(|i| problem.treasure_items[i].value).sum()
}

fn instances() -> Vec<KnapsackProblem> {
    let mut seed: u64 = 0x2545_F491_4F6C_DD1D;
    let mut next = move |modulus: u64| -> usize {
        seed ^= seed << 13;
        seed ^= seed >> 7;
        seed ^= seed << 17;
        (seed % modulus) as usize
    };
    let mut all = Vec::new();
    for n in 0..11usize {
        for _ in 0..6 {
            let pairs: Vec<(usize, usize)> = (0..n).map(|_| (next(50), next(30))).collect();
            let capacity = next(80);
            all.push(problem_of(capacity, &pairs));
        }
    }
    all
}

fn solve(problem: &KnapsackProblem) -> KnapsackSolution {
    let mut solver = BranchAndBoundSolver::default();
    solver.solve(problem)
}

#[test]
fn three_items_capacity_fifty() {
    let problem = problem_of(50, &[(60, 10), (100, 20), (120, 30)]);
    let solution = solve(&problem);
    assert_eq!(solution.obj, 220);
    assert_eq!(solution.selected_items, vec![0, 1, 1]);
    assert!(solution.opt);
}

#[test]
fn capacity_zero_selects_nothing() {
    let problem = problem_of(0, &[(60, 10), (100, 20), (120, 30)]);
    let solution = solve(&problem);
    assert_eq!(solution.obj, 0);
    assert_eq!(solution.selected_items, vec![0, 0, 0]);
    assert!(solution.opt);
}

#[test]
fn single_item_too_heavy() {
    let problem = problem_of(5, &[(10, 6)]);
    let solution = solve(&problem);
    assert_eq!(solution.obj, 0);
    assert_eq!(solution.selected_items, vec![0]);
    assert!(solution.opt);
}

#[test]
fn no_items_at_all() {
    let problem = problem_of(7, &[]);
    let solution = solve(&problem);
    assert_eq!(solution.obj, 0);
    assert!(solution.selected_items.is_empty());
    assert!(solution.opt);
}

#[test]
fn weightless_items_are_always_taken() {
    let problem = problem_of(3, &[(5, 0), (0, 0), (7, 4), (2, 3)]);
    let solution = solve(&problem);
    assert_eq!(solution.obj, 7);
    assert_eq!(solution.selected_items[0], 1);
    assert_eq!(solution.selected_items[2], 0);
    assert_eq!(solution.selected_items[3], 1);
}

#[test]
fn objective_is_the_brute_force_optimum() {
    for problem in instances() {
        let solution = solve(&problem);
        assert!(solution.opt);
        assert_eq!(solution.obj, brute_force(&problem, &[]));
    }
}

#[test]
fn selection_is_feasible_and_worth_the_objective() {
    for problem in instances() {
        let solution = solve(&problem);
        assert!(solution.selected_items.iter().all(|&b| b <= 1));
        assert!(weight_of(&problem, &solution.selected_items) <= problem.capacity);
        assert_eq!(value_of(&problem, &solution.selected_items), solution.obj);
    }
}

#[test]
fn selection_has_one_decision_per_item() {
    for problem in instances() {
        let solution = solve(&problem);
        assert_eq!(solution.selected_items.len(), problem.n_items);
    }
}

#[test]
fn solving_twice_gives_the_same_objective() {
    for problem in instances() {
        assert_eq!(solve(&problem).obj, solve(&problem).obj);
    }
}

#[test]
fn solver_records_its_last_search() {
    let problem = problem_of(50, &[(60, 10), (100, 20), (120, 30)]);
    let mut solver = BranchAndBoundSolver::default();
    assert_eq!(solver.nodes_explored, 0);
    assert_eq!(solver.best_relaxation, 10000000);
    assert!(!solver.early_stopping_activated);
    let solution = solver.solve(&problem);
    assert!(solution.opt);
    assert!(!solver.early_stopping_activated);
    assert_eq!(solver.best_relaxation, 240);
    assert!(solver.nodes_explored > 0);
}

#[test]
fn root_bound_takes_a_fraction_of_the_first_misfit() {
    let problem = problem_of(50, &[(60, 10), (100, 20), (120, 30)]);
    let order = problem.get_best_value_per_weight_items();
    assert_eq!(calc_best_relaxation_fractionals(&order, &problem, 0, 0, 0), 240);
}

#[test]
fn bound_skips_decided_items() {
    let problem = problem_of(50, &[(60, 10), (100, 20), (120, 30)]);
    let order = problem.get_best_value_per_weight_items();
    assert_eq!(calc_best_relaxation_fractionals(&order, &problem, 0, 0, 1), 220);
    assert_eq!(calc_best_relaxation_fractionals(&order, &problem, 60, 10, 1), 60 + 100 + 80);
    assert_eq!(calc_best_relaxation_fractionals(&order, &problem, 160, 30, 2), 160 + 80);
    assert_eq!(calc_best_relaxation_fractionals(&order, &problem, 160, 30, 3), 160);
}

#[test]
fn bound_truncates_the_fraction() {
    let problem = problem_of(10, &[(10, 3), (7, 3), (5, 3), (9, 7)]);
    let order = problem.get_best_value_per_weight_items();
    // 10 + 7 + 5 whole, then one unit of room for the last: 1 * 9 / 7 = 1
    assert_eq!(calc_best_relaxation_fractionals(&order, &problem, 0, 0, 0), 23);
    // room 4: the first whole, then one unit of room for the second: 1 * 7 / 3 = 2
    assert_eq!(calc_best_relaxation_fractionals(&order, &problem, 0, 6, 0), 10 + 2);
}

#[test]
fn bound_with_no_room_is_the_value_plus_weightless_items() {
    let problem = problem_of(10, &[(4, 10), (3, 0), (9, 2)]);
    let order = problem.get_best_value_per_weight_items();
    assert_eq!(calc_best_relaxation_fractionals(&order, &problem, 4, 10, 1), 7);
}

#[test]
fn bound_is_sound_for_every_prefix() {
    for problem in instances() {
        if problem.n_items > 6 {
            continue;
        }
        let order = problem.get_best_value_per_weight_items();
        let mut open = vec![create_root_node(&order, &problem)];
        while let Some(node) = open.pop() {
            assert!(node.best_relaxation >= node.obj);
            assert!(node.best_relaxation >= brute_force(&problem, &node.selected));
            assert!(node.current_weight <= problem.capacity);
            if node.selected.len() < problem.n_items {
                for take in [true, false] {
                    if let Some(child) = create_new_node(&order, &problem, &node, take) {
                        assert!(child.best_relaxation <= node.best_relaxation);
                        open.push(child);
                    }
                }
            }
        }
    }
}

#[test]
fn children_carry_the_decision() {
    let problem = problem_of(50, &[(60, 10), (100, 20), (120, 30)]);
    let order = problem.get_best_value_per_weight_items();
    let root = create_root_node(&order, &problem);
    assert!(root.selected.is_empty());
    assert_eq!((root.current_weight, root.obj, root.best_relaxation), (0, 0, 240));
    let with = create_new_node(&order, &problem, &root, true).unwrap();
    assert_eq!(with.selected, vec![1]);
    assert_eq!((with.current_weight, with.obj, with.best_relaxation), (10, 60, 240));
    let without = create_new_node(&order, &problem, &root, false).unwrap();
    assert_eq!(without.selected, vec![0]);
    assert_eq!((without.current_weight, without.obj, without.best_relaxation), (0, 0, 220));
}

#[test]
fn child_that_does_not_fit_is_not_created() {
    let problem = problem_of(25, &[(60, 10), (100, 20), (120, 30)]);
    let order = problem.get_best_value_per_weight_items();
    let root = create_root_node(&order, &problem);
    let first = create_new_node(&order, &problem, &root, true).unwrap();
    assert!(create_new_node(&order, &problem, &first, true).is_none());
    let second = create_new_node(&order, &problem, &first, false).unwrap();
    assert_eq!(second.selected, vec![1, 0]);
    assert!(create_new_node(&order, &problem, &second, true).is_none());
    assert!(create_new_node(&order, &problem, &second, false).is_some());
}

#[test]
fn child_that_fits_exactly_is_created() {
    let problem = problem_of(30, &[(60, 10), (100, 20)]);
    let order = problem.get_best_value_per_weight_items();
    let root = create_root_node(&order, &problem);
    let first = create_new_node(&order, &problem, &root, true).unwrap();
    let second = create_new_node(&order, &problem, &first, true).unwrap();
    assert_eq!((second.current_weight, second.obj, second.best_relaxation), (30, 160, 160));
}

fn node(bound: usize, mark: u8) -> BranchAndBoundNode {
    BranchAndBoundNode { selected: vec![mark], current_weight: 0, obj: 0, best_relaxation: bound }
}

#[test]
fn frontier_hands_out_the_highest_bound_first() {
    let mut frontier = Frontier::new();
    assert_eq!(frontier.len(), 0);
    assert!(frontier.extract_max().is_none());
    for (bound, mark) in [(5, 0), (9, 1), (3, 2), (9, 3), (7, 4)] {
        frontier.insert(node(bound, mark));
    }
    assert_eq!(frontier.len(), 5);
    let order: Vec<(usize, u8)> = std::iter::from_fn(|| frontier.extract_max())
        .map(|n| (n.best_relaxation, n.selected[0]))
        .collect();
    let bounds: Vec<usize> = order.iter().map(|&(bound, _)| bound).collect();
    assert_eq!(bounds, vec![9, 9, 7, 5, 3]);
    let mut ties = vec![order[0].1, order[1].1];
    ties.sort();
    assert_eq!(ties, vec![1, 3]);
    assert_eq!(&order[2..], &[(7, 4), (5, 0), (3, 2)]);
    assert_eq!(frontier.len(), 0);
}

#[test]
fn frontier_sorts_many_bounds() {
    let mut seed: u64 = 0x1234_5678_9ABC_DEF1;
    let mut frontier = Frontier::new();
    let mut bounds = Vec::new();
    for round in 0..2000usize {
        seed ^= seed << 13;
        seed ^= seed >> 7;
        seed ^= seed << 17;
        let bound = (seed % 500) as usize;
        bounds.push(bound);
        frontier.insert(node(bound, 0));
        if round % 5 == 4 {
            let top = frontier.extract_max().unwrap().best_relaxation;
            let highest = *bounds.iter().max().unwrap();
            assert_eq!(top, highest);
            let at = bounds.iter().position(|&b| b == highest).unwrap();
            bounds.swap_remove(at);
        }
    }
    bounds.sort();
    bounds.reverse();
    let rest: Vec<usize> =
        std::iter::from_fn(|| frontier.extract_max()).map(|n| n.best_relaxation).collect();
    assert_eq!(rest, bounds);
}

#[test]
fn compaction_drops_what_cannot_beat_the_floor() {
    let mut frontier = Frontier::new();
    for (bound, mark) in [(5, 0), (9, 1), (3, 2), (6, 3), (7, 4), (9, 5)] {
        frontier.insert(node(bound, mark));
    }
    frontier.compact(6);
    assert_eq!(frontier.len(), 3);
    let mut kept: Vec<(usize, u8)> = std::iter::from_fn(|| frontier.extract_max())
        .map(|n| (n.best_relaxation, n.selected[0]))
        .collect();
    kept.sort();
    assert_eq!(kept, vec![(7, 4), (9, 1), (9, 5)]);
    for (bound, mark) in [(5, 0), (9, 1)] {
        frontier.insert(node(bound, mark));
    }
    frontier.compact(9);
    assert_eq!(frontier.len(), 0);
}

#[test]
fn long_search_compacts_and_still_finds_the_optimum() {
    let mut seed: u64 = 0x0F1E_2D3C_4B5A_6978;
    let mut pairs = Vec::new();
    let mut total = 0usize;
    for _ in 0..20 {
        seed ^= seed << 13;
        seed ^= seed >> 7;
        seed ^= seed << 17;
        let weight = 2 * (1 + (seed % 100) as usize);
        total += weight;
        pairs.push((weight, weight));
    }
    let capacity = (total / 2) | 1;
    let problem = problem_of(capacity, &pairs);
    let mut solver = BranchAndBoundSolver::default();
    let solution = solver.solve(&problem);
    assert!(solution.opt);
    assert!(solver.nodes_explored >= COMPACTION_INTERVAL);
    assert_eq!(solution.obj, brute_force(&problem, &[]));
    assert_eq!(value_of(&problem, &solution.selected_items), solution.obj);
    assert!(weight_of(&problem, &solution.selected_items) <= capacity);
}

#[test]
fn search_starts_with_the_root() {
    let problem = problem_of(50, &[(60, 10), (100, 20), (120, 30)]);
    let order = problem.get_best_value_per_weight_items();
    let search = Search::start(&order, &problem);
    assert!(search.is_running());
    assert_eq!(search.frontier.len(), 1);
    assert_eq!(search.nodes_explored, 0);
    assert_eq!(search.incumbent.obj, 0);
    assert_eq!(search.incumbent.best_relaxation, 240);
}

#[test]
fn first_tick_branches_on_the_root() {
    let problem = problem_of(50, &[(60, 10), (100, 20), (120, 30)]);
    let order = problem.get_best_value_per_weight_items();
    let mut search = Search::start(&order, &problem);
    search.tick(&order, &problem, 0);
    assert!(search.is_running());
    assert_eq!(search.nodes_explored, 1);
    assert_eq!(search.frontier.len(), 2);
    let mut open: Vec<(Vec<u8>, usize)> = search
        .frontier
        .nodes
        .iter()
        .map(|n| (n.selected.clone(), n.best_relaxation))
        .collect();
    open.sort();
    assert_eq!(open, vec![(vec![0], 220), (vec![1], 240)]);
    search.tick(&order, &problem, 0);
    assert_eq!(search.incumbent.obj, 60);
    assert_eq!(search.incumbent.selected, vec![1]);
}

#[test]
fn tick_after_the_budget_times_out() {
    let problem = problem_of(50, &[(60, 10), (100, 20), (120, 30)]);
    let order = problem.get_best_value_per_weight_items();
    let mut search = Search::start(&order, &problem);
    search.tick(&order, &problem, TIME_BUDGET_SECS - 1);
    search.tick(&order, &problem, TIME_BUDGET_SECS - 1);
    assert!(search.is_running());
    search.tick(&order, &problem, TIME_BUDGET_SECS);
    assert_eq!(search.state, SearchState::TimedOut);
    assert_eq!(search.frontier.len(), 3);
    search.tick(&order, &problem, 0);
    assert_eq!(search.state, SearchState::TimedOut);
    let solution = search.into_solution(&problem);
    assert!(!solution.opt);
    assert_eq!(solution.obj, 60);
    assert_eq!(solution.selected_items, vec![1, 0, 0]);
}

#[test]
fn tick_on_an_empty_frontier_exhausts() {
    let problem = problem_of(0, &[(1, 1)]);
    let order = problem.get_best_value_per_weight_items();
    let mut search = Search::start(&order, &problem);
    search.tick(&order, &problem, 0);
    assert!(search.is_running());
    assert_eq!(search.frontier.len(), 0);
    search.tick(&order, &problem, 0);
    assert_eq!(search.state, SearchState::Exhausted);
    search.tick(&order, &problem, TIME_BUDGET_SECS);
    assert_eq!(search.state, SearchState::Exhausted);
    assert!(search.into_solution(&problem).opt);
}

#[test]
fn incumbent_never_gets_worse() {
    for problem in instances() {
        let order = problem.get_best_value_per_weight_items();
        let mut search = Search::start(&order, &problem);
        let mut last = search.incumbent.obj;
        while search.is_running() {
            search.tick(&order, &problem, 0);
            assert!(search.incumbent.obj >= last);
            last = search.incumbent.obj;
        }
        assert_eq!(search.state, SearchState::Exhausted);
        assert_eq!(last, brute_force(&problem, &[]));
    }
}

#[test]
fn budget_and_interval() {
    assert_eq!(TIME_BUDGET_SECS, 120);
    assert_eq!(COMPACTION_INTERVAL, 100_000);
}

#[test]
fn density_ordering_puts_the_densest_first() {
    let problem = problem_of(10, &[(4, 2), (9, 3), (1, 1), (6, 3), (5, 0), (3, 1)]);
    let order: Vec<usize> =
        problem.get_best_value_per_weight_items().iter().map(|(i, _)| *i).collect();
    assert_eq!(order, vec![4, 1, 5, 0, 3, 2]);
}

#[test]
fn density_ordering_keeps_each_item_with_its_index() {
    for problem in instances() {
        let order = problem.get_best_value_per_weight_items();
        assert_eq!(order.len(), problem.n_items);
        let mut seen = vec![false; problem.n_items];
        for (i, item) in &order {
            assert!(!seen[*i]);
            seen[*i] = true;
            assert_eq!(item.value, problem.treasure_items[*i].value);
            assert_eq!(item.weight, problem.treasure_items[*i].weight);
        }
        for pair in order.windows(2) {
            assert!(!is_denser(&pair[1].1, &pair[0].1));
        }
    }
}

#[test]
fn denser_compares_value_per_weight() {
    let item = |value, weight| KnapsackItem { value, weight };
    assert!(is_denser(&item(3, 2), &item(4, 3)));
    assert!(!is_denser(&item(4, 3), &item(3, 2)));
    assert!(!is_denser(&item(2, 4), &item(1, 2)));
    assert!(is_denser(&item(0, 0), &item(9, 1)));
    assert!(!is_denser(&item(9, 1), &item(0, 0)));
    assert!(!is_denser(&item(1, 0), &item(2, 0)));
    assert!(is_denser(&item(usize::MAX, usize::MAX - 1), &item(usize::MAX - 1, usize::MAX - 1)));
}

#[test]
fn weights_come_in_item_order() {
    let problem = problem_of(50, &[(60, 10), (100, 20), (120, 30)]);
    assert_eq!(problem.get_weights(), vec![10, 20, 30]);
    assert_eq!(problem.n_items, 3);
    assert_eq!(problem.capacity, 50);
}
