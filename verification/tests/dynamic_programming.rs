use knapsack::branch_and_bound::BranchAndBoundSolver;
use knapsack::dynamic_programming::DynamicProgrammingSolver;
use knapsack::knapsack::{KnapsackItem, KnapsackProblem};
use knapsack::knapsack_solver::KnapsackSolver;
use knapsack::matrix::Matrix;
use knapsack::strategy::{select_strategy, solve, Strategy, DENSE_SIZE_LIMIT};

fn dp_problem_of(capacity: usize, pairs: &[(usize, usize)]) -> KnapsackProblem {
    let items: Vec<KnapsackItem> =
        pairs.iter().map(|&(value, weight)| KnapsackItem { value, weight }).collect();
    KnapsackProblem::new(items.len(), capacity, items)
}

fn dp_instances() -> Vec<KnapsackProblem> {
    let mut seed: u64 = 0x9E37_79B9_7F4A_7C15;
    let mut next = move |modulus: u64| -> usize {
        seed ^= seed << 13;
        seed ^= seed >> 7;
        seed ^= seed << 17;
        (seed % modulus) as usize
    };
    let mut all = Vec::new();
    for n in 0..10usize {
        for _ in 0..5 {
            let pairs: Vec<(usize, usize)> = (0..n).map(|_| (next(40), next(25))).collect();
            let capacity = next(70);
            all.push(dp_problem_of(capacity, &pairs));
        }
    }
    all
}

#[test]
fn matrix_starts_filled() {
    let m = Matrix::new(3, 4, 7);
    assert_eq!((m.rows, m.cols), (3, 4));
    assert_eq!(m.data, vec![7; 12]);
    assert_eq!(m.get(2, 3), 7);
}

#[test]
fn matrix_set_changes_one_cell() {
    let mut m = Matrix::new(3, 4, 0);
    m.set(1, 2, 9);
    m.set(2, 0, 5);
    for row in 0..3 {
        for col in 0..4 {
            let expected = match (row, col) {
                (1, 2) => 9,
                (2, 0) => 5,
                _ => 0,
            };
            assert_eq!(m.get(row, col), expected);
        }
    }
    assert_eq!(m.data[1 * 4 + 2], 9);
}

#[test]
fn matrix_without_cells() {
    let m = Matrix::new(0, 5, 1);
    assert!(m.data.is_empty());
}

#[test]
fn value_table_of_three_items() {
    let problem = dp_problem_of(5, &[(6, 1), (10, 2), (12, 3)]);
    let table = DynamicProgrammingSolver::fill_value_matrix(&problem);
    assert_eq!((table.rows, table.cols), (6, 4));
    let column = |i: usize| -> Vec<usize> { (0..6).map(|c| table.get(c, i)).collect() };
    assert_eq!(column(0), vec![0, 0, 0, 0, 0, 0]);
    assert_eq!(column(1), vec![0, 6, 6, 6, 6, 6]);
    assert_eq!(column(2), vec![0, 6, 10, 16, 16, 16]);
    assert_eq!(column(3), vec![0, 6, 10, 16, 18, 22]);
}

#[test]
fn value_table_counts_weightless_items() {
    let problem = dp_problem_of(1, &[(4, 0), (3, 1)]);
    let table = DynamicProgrammingSolver::fill_value_matrix(&problem);
    assert_eq!(table.get(0, 1), 4);
    assert_eq!(table.get(0, 2), 4);
    assert_eq!(table.get(1, 2), 7);
}

#[test]
fn walk_back_finds_the_selection() {
    let problem = dp_problem_of(50, &[(60, 10), (100, 20), (120, 30)]);
    let table = DynamicProgrammingSolver::fill_value_matrix(&problem);
    assert_eq!(DynamicProgrammingSolver::find_selected_items(&table, &problem), vec![0, 1, 1]);
}

#[test]
fn dynamic_programming_three_items_capacity_fifty() {
    let problem = dp_problem_of(50, &[(60, 10), (100, 20), (120, 30)]);
    let solution = DynamicProgrammingSolver.solve(&problem);
    assert_eq!(solution.obj, 220);
    assert_eq!(solution.selected_items, vec![0, 1, 1]);
    assert!(solution.opt);
}

#[test]
fn dynamic_programming_capacity_zero() {
    let problem = dp_problem_of(0, &[(60, 10), (100, 20)]);
    let solution = DynamicProgrammingSolver.solve(&problem);
    assert_eq!(solution.obj, 0);
    assert_eq!(solution.selected_items, vec![0, 0]);
    assert!(solution.opt);
}

#[test]
fn dynamic_programming_single_item_too_heavy() {
    let problem = dp_problem_of(5, &[(10, 6)]);
    let solution = DynamicProgrammingSolver.solve(&problem);
    assert_eq!(solution.obj, 0);
    assert_eq!(solution.selected_items, vec![0]);
    assert!(solution.opt);
}

#[test]
fn both_solvers_agree() {
    for problem in dp_instances() {
        let by_table = DynamicProgrammingSolver.solve(&problem);
        let by_search = BranchAndBoundSolver::default().solve(&problem);
        assert!(by_table.opt && by_search.opt);
        assert_eq!(by_table.obj, by_search.obj);
        let weight: usize = (0..problem.n_items)
            .filter(|&i| by_table.selected_items[i] == 1)
            .map(|i| problem.treasure_items[i].weight)
            .sum();
        let value: usize = (0..problem.n_items)
            .filter(|&i| by_table.selected_items[i] == 1)
            .map(|i| problem.treasure_items[i].value)
            .sum();
        assert_eq!(by_table.selected_items.len(), problem.n_items);
        assert!(weight <= problem.capacity);
        assert_eq!(value, by_table.obj);
    }
}

#[test]
fn strategy_goes_by_size() {
    let items = |n: usize| -> Vec<KnapsackItem> { vec![KnapsackItem { value: 1, weight: 1 }; n] };
    assert_eq!(DENSE_SIZE_LIMIT, 1_000_000);
    let small = KnapsackProblem::new(10, 99_999, items(10));
    assert_eq!(select_strategy(&small), Strategy::DynamicProgramming);
    let large = KnapsackProblem::new(10, 100_000, items(10));
    assert_eq!(select_strategy(&large), Strategy::BranchAndBound);
    let empty_but_wide = KnapsackProblem::new(0, usize::MAX, items(0));
    assert_eq!(select_strategy(&empty_but_wide), Strategy::BranchAndBound);
    let huge = KnapsackProblem::new(3, usize::MAX, items(3));
    assert_eq!(select_strategy(&huge), Strategy::BranchAndBound);
}

#[test]
fn solve_picks_a_solver_and_solves() {
    let problem = dp_problem_of(50, &[(60, 10), (100, 20), (120, 30)]);
    let solution = solve(&problem);
    assert_eq!(solution.obj, 220);
    assert!(solution.opt);
    let wide = dp_problem_of(1_000_000, &[(60, 10), (100, 20), (120, 30)]);
    let solution = solve(&wide);
    assert_eq!(solution.obj, 280);
    assert_eq!(solution.selected_items, vec![1, 1, 1]);
    assert!(solution.opt);
}

#[test]
fn validity_needs_matching_count_and_values_that_fit() {
    let item = |value| KnapsackItem { value, weight: 1 };
    let good = KnapsackProblem { n_items: 2, capacity: 5, treasure_items: vec![item(1), item(2)] };
    assert!(good.is_valid());
    let short = KnapsackProblem { n_items: 3, capacity: 5, treasure_items: vec![item(1), item(2)] };
    assert!(!short.is_valid());
    let brim = KnapsackProblem {
        n_items: 2,
        capacity: 5,
        treasure_items: vec![item(usize::MAX - 1), item(1)],
    };
    assert!(brim.is_valid());
    let over = KnapsackProblem {
        n_items: 3,
        capacity: 5,
        treasure_items: vec![item(usize::MAX - 1), item(1), item(1)],
    };
    assert!(!over.is_valid());
}
