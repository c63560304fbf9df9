//! The dynamic-programming solver: a table of the best values for every
//! capacity and every prefix of the items, and a walk back through it.

use crate::knapsack::{
    all_taken, feasible, is_binary, is_upper_bound, lemma_sum_prefix, none_taken, selected_sum,
    selected_value, selected_weight, values, weights, KnapsackItem, KnapsackProblem,
    KnapsackSolution,
};
use crate::knapsack_solver::KnapsackSolver;
use crate::matrix::Matrix;
use vstd::prelude::*;

verus! {

/// The best value that the first `n` items can reach in a knapsack with
/// `room`: each item is either left out, or taken if it fits.
pub open spec fn best_value(items: Seq<KnapsackItem>, n: int, room: int) -> int
    decreases n,
{
    if n <= 0 {
        0
    } else {
        let item = items[n - 1];
        let without = best_value(items, n - 1, room);
        let with = item.value + best_value(items, n - 1, room - item.weight);
        if item.weight <= room && with > without {
            with
        } else {
            without
        }
    }
}

/// `table` holds, for each capacity up to `capacity` (the rows) and each
/// number of items up to `n` (the columns), the best value.
pub open spec fn is_value_table(
    table: Matrix,
    items: Seq<KnapsackItem>,
    capacity: int,
    n: int,
) -> bool {
    &&& table.wf()
    &&& table.rows == capacity + 1
    &&& table.cols == items.len() + 1
    &&& forall|room: int, i: int|
        0 <= room <= capacity && 0 <= i <= n ==> #[trigger] table.at(room, i) == best_value(
            items,
            i,
            room,
        )
}

/// The selection that the walk back through the best values finds for the
/// first `n` items and `room`: an item is taken exactly if the best value
/// falls without it.
pub open spec fn walk_back(items: Seq<KnapsackItem>, n: int, room: int) -> Seq<u8>
    decreases n,
{
    if n <= 0 {
        Seq::empty()
    } else if best_value(items, n - 1, room) < best_value(items, n, room) {
        walk_back(items, n - 1, room - items[n - 1].weight).push(1u8)
    } else {
        walk_back(items, n - 1, room).push(0u8)
    }
}

/// The best value is never negative, and never more than the first `n`
/// items are worth together.
pub proof fn lemma_best_value_range(items: Seq<KnapsackItem>, n: int, room: int)
    requires
        0 <= n <= items.len(),
    ensures
        0 <= best_value(items, n, room) <= selected_value(items, all_taken(n as nat)),
    decreases n,
{
    if n > 0 {
        lemma_best_value_range(items, n - 1, room);
        lemma_best_value_range(items, n - 1, room - items[n - 1].weight);
        assert(all_taken(n as nat).drop_last() == all_taken((n - 1) as nat));
    }
}

/// No selection of the first `sel.len()` items that fits into `room` is
/// worth more than the best value.
pub proof fn lemma_best_value_bounds(items: Seq<KnapsackItem>, sel: Seq<u8>, room: int)
    requires
        sel.len() <= items.len(),
        selected_weight(items, sel) <= room,
    ensures
        selected_value(items, sel) <= best_value(items, sel.len() as int, room),
    decreases sel.len(),
{
    if sel.len() > 0 {
        let n = sel.len() as int;
        if sel.last() == 1 {
            lemma_best_value_bounds(items, sel.drop_last(), room - items[n - 1].weight);
        } else {
            lemma_best_value_bounds(items, sel.drop_last(), room);
        }
    }
}

/// Taking one more item that was left out adds its amount to the sum.
pub proof fn lemma_sum_update(amounts: Seq<nat>, sel: Seq<u8>, k: int)
    requires
        0 <= k < sel.len(),
        sel[k] != 1,
    ensures
        selected_sum(amounts, sel.update(k, 1u8)) == selected_sum(amounts, sel) + amounts[k],
    decreases sel.len(),
{
    let taken = sel.update(k, 1u8);
    if k == sel.len() - 1 {
        assert(taken.drop_last() == sel.drop_last());
    } else {
        assert(taken.drop_last() == sel.drop_last().update(k, 1u8));
        lemma_sum_update(amounts, sel.drop_last(), k);
    }
}

/// Nothing taken sums to nothing.
pub proof fn lemma_sum_none(amounts: Seq<nat>, n: nat)
    ensures
        selected_sum(amounts, none_taken(n)) == 0,
    decreases n,
{
    if n > 0 {
        assert(none_taken(n).drop_last() == none_taken((n - 1) as nat));
        lemma_sum_none(amounts, (n - 1) as nat);
    }
}

/// The solver that fills the whole table of best values. It always finds the
/// optimum.
pub struct DynamicProgrammingSolver;

impl DynamicProgrammingSolver {
    /// The instances whose table fits into memory's address space.
    pub open spec fn fits(problem: &KnapsackProblem) -> bool {
        &&& problem.valid()
        &&& (problem.capacity + 1) * (problem.n_items + 1) <= usize::MAX
    }

    /// Fills the table of best values, column by column.
    pub fn fill_value_matrix(problem: &KnapsackProblem) -> (table: Matrix)
        requires
            Self::fits(problem),
        ensures
            is_value_table(
                table,
                problem.treasure_items@,
                problem.capacity as int,
                problem.n_items as int,
            ),
    {
        let ghost items = problem.treasure_items@;
        assert(problem.capacity + 1 <= usize::MAX && problem.n_items + 1 <= usize::MAX)
            by (nonlinear_arith)
            requires
                (problem.capacity + 1) * (problem.n_items + 1) <= usize::MAX,
                problem.capacity >= 0,
                problem.n_items >= 0,
        ;
        let mut value_matrix = Matrix::new(problem.capacity + 1, problem.n_items + 1, 0);
        let mut cur_item_no: usize = 1;
        while cur_item_no <= problem.n_items
            invariant
                1 <= cur_item_no <= problem.n_items + 1,
                problem.n_items + 1 <= usize::MAX,
                problem.capacity + 1 <= usize::MAX,
                problem.valid(),
                items == problem.treasure_items@,
                is_value_table(value_matrix, items, problem.capacity as int, cur_item_no - 1),
            decreases problem.n_items + 1 - cur_item_no,
        {
            let cur_item = problem.treasure_items[cur_item_no - 1];
            let mut cur_capacity: usize = 0;
            while cur_capacity <= problem.capacity
                invariant
                    1 <= cur_item_no <= problem.n_items,
                    cur_capacity <= problem.capacity + 1,
                    problem.capacity + 1 <= usize::MAX,
                    problem.valid(),
                    items == problem.treasure_items@,
                    cur_item == items[cur_item_no - 1],
                    is_value_table(value_matrix, items, problem.capacity as int, cur_item_no - 1),
                    forall|room: int|
                        0 <= room < cur_capacity ==> #[trigger] value_matrix.at(
                            room,
                            cur_item_no as int,
                        ) == best_value(items, cur_item_no as int, room),
                decreases problem.capacity + 1 - cur_capacity,
            {
                let ghost before = value_matrix;
                let best_value_without_item = value_matrix.get(cur_capacity, cur_item_no - 1);
                assert(before.at(cur_capacity as int, cur_item_no - 1) == best_value(
                    items,
                    cur_item_no - 1,
                    cur_capacity as int,
                ));
                if cur_item.weight <= cur_capacity {
                    let rest = value_matrix.get(cur_capacity - cur_item.weight, cur_item_no - 1);
                    proof {
                        assert(before.at(cur_capacity - cur_item.weight, cur_item_no - 1)
                            == best_value(items, cur_item_no - 1, cur_capacity - cur_item.weight));
                        lemma_best_value_range(items, cur_item_no as int, cur_capacity as int);
                        lemma_best_value_range(
                            items,
                            cur_item_no - 1,
                            cur_capacity - cur_item.weight,
                        );
                        lemma_sum_prefix(
                            values(items),
                            all_taken(items.len()),
                            cur_item_no as int,
                        );
                        assert(all_taken(items.len()).take(cur_item_no as int) == all_taken(
                            cur_item_no as nat,
                        ));
                        assert(all_taken(cur_item_no as nat).drop_last() == all_taken(
                            (cur_item_no - 1) as nat,
                        ));
                    }
                    let best_value_with_item = cur_item.value + rest;
                    if best_value_with_item > best_value_without_item {
                        value_matrix.set(cur_capacity, cur_item_no, best_value_with_item);
                    } else {
                        value_matrix.set(cur_capacity, cur_item_no, best_value_without_item);
                    }
                } else {
                    value_matrix.set(cur_capacity, cur_item_no, best_value_without_item);
                }
                proof {
                    assert forall|room: int, i: int|
                        0 <= room <= problem.capacity && 0 <= i <= cur_item_no
                            - 1 implies #[trigger] value_matrix.at(room, i) == best_value(
                        items,
                        i,
                        room,
                    ) by {
                        assert(before.at(room, i) == best_value(items, i, room));
                    }
                    assert forall|room: int| 0 <= room < cur_capacity + 1 implies #[trigger] value_matrix.at(
                    room, cur_item_no as int) == best_value(items, cur_item_no as int, room) by {
                        if room < cur_capacity {
                            assert(before.at(room, cur_item_no as int) == best_value(
                                items,
                                cur_item_no as int,
                                room,
                            ));
                        }
                    }
                }
                cur_capacity += 1;
            }
            proof {
                assert forall|room: int, i: int|
                    0 <= room <= problem.capacity && 0 <= i <= cur_item_no implies #[trigger] value_matrix.at(
                room, i) == best_value(items, i, room) by {
                    if i < cur_item_no {
                        assert(value_matrix.at(room, i) == best_value(items, i, room));
                    }
                }
            }
            cur_item_no += 1;
        }
        value_matrix
    }

    /// Walks back through the table from its last cell and finds a selection
    /// that reaches the best value: the item of a column is taken exactly if
    /// the value falls without it.
    pub fn find_selected_items(value_matrix: &Matrix, problem: &KnapsackProblem) -> (selected_items:
        Vec<u8>)
        requires
            problem.wf(),
            is_value_table(
                *value_matrix,
                problem.treasure_items@,
                problem.capacity as int,
                problem.n_items as int,
            ),
        ensures
            selected_items@ == walk_back(
                problem.treasure_items@,
                problem.n_items as int,
                problem.capacity as int,
            ),
            feasible(problem.treasure_items@, problem.capacity as nat, selected_items@),
            selected_value(problem.treasure_items@, selected_items@) == value_matrix.at(
                problem.capacity as int,
                problem.n_items as int,
            ),
    {
        let ghost items = problem.treasure_items@;
        let mut selected_items: Vec<u8> = vec![0; value_matrix.cols - 1];
        let mut cur_val = value_matrix.get(value_matrix.rows - 1, value_matrix.cols - 1);
        let mut cur_row = value_matrix.rows - 1;
        let mut cur_col = value_matrix.cols - 1;
        proof {
            assert(selected_items@ =~= none_taken(problem.n_items as nat));
            lemma_sum_none(values(items), problem.n_items as nat);
            lemma_sum_none(weights(items), problem.n_items as nat);
        }
        while cur_col > 0
            invariant
                problem.wf(),
                items == problem.treasure_items@,
                is_value_table(*value_matrix, items, problem.capacity as int, problem.n_items as int),
                cur_col <= problem.n_items,
                cur_row <= problem.capacity,
                selected_items@.len() == problem.n_items,
                is_binary(selected_items@),
                forall|i: int| 0 <= i < cur_col ==> selected_items@[i] == 0,
                cur_val == best_value(items, cur_col as int, cur_row as int),
                selected_value(items, selected_items@) + cur_val == value_matrix.at(
                    problem.capacity as int,
                    problem.n_items as int,
                ),
                selected_weight(items, selected_items@) + cur_row == problem.capacity,
                walk_back(items, problem.n_items as int, problem.capacity as int) == walk_back(
                    items,
                    cur_col as int,
                    cur_row as int,
                ) + selected_items@.subrange(cur_col as int, problem.n_items as int),
            decreases cur_col,
        {
            let ghost before = selected_items@;
            let ghost shorter = walk_back(
                items,
                cur_col - 1,
                if best_value(items, cur_col - 1, cur_row as int) < cur_val {
                    cur_row - items[cur_col - 1].weight
                } else {
                    cur_row as int
                },
            );
            let new_val = value_matrix.get(cur_row, cur_col - 1);
            assert(value_matrix.at(cur_row as int, cur_col - 1) == best_value(
                items,
                cur_col - 1,
                cur_row as int,
            ));
            if new_val < cur_val {
                let weight = problem.treasure_items[cur_col - 1].weight;
                proof {
                    lemma_sum_update(values(items), selected_items@, cur_col - 1);
                    lemma_sum_update(weights(items), selected_items@, cur_col - 1);
                }
                selected_items.set(cur_col - 1, 1);
                cur_row -= weight;
                cur_val = value_matrix.get(cur_row, cur_col - 1);
                assert(value_matrix.at(cur_row as int, cur_col - 1) == best_value(
                    items,
                    cur_col - 1,
                    cur_row as int,
                ));
            }
            cur_col -= 1;
            proof {
                let n = problem.n_items as int;
                let bit = selected_items@[cur_col as int];
                assert(shorter.push(bit) + before.subrange(cur_col + 1, n) =~= shorter
                    + selected_items@.subrange(cur_col as int, n));
            }
        }
        assert(selected_items@.subrange(0, problem.n_items as int) == selected_items@);
        selected_items
    }
}

impl KnapsackSolver for DynamicProgrammingSolver {
    open spec fn accepts(&self, problem: &KnapsackProblem) -> bool {
        Self::fits(problem)
    }

    /// Fills the table, reads the optimum from its last cell and walks back
    /// to a selection that reaches it.
    fn solve(&mut self, problem: &KnapsackProblem) -> (solution: KnapsackSolution)
        ensures
            solution.opt,
            solution.obj == best_value(
                problem.treasure_items@,
                problem.n_items as int,
                problem.capacity as int,
            ),
            solution.selected_items@ == walk_back(
                problem.treasure_items@,
                problem.n_items as int,
                problem.capacity as int,
            ),
    {
        let value_matrix = Self::fill_value_matrix(problem);
        let obj_value = value_matrix.get(problem.capacity, problem.n_items);
        let selected_items = Self::find_selected_items(&value_matrix, problem);
        proof {
            let items = problem.treasure_items@;
            assert forall|sel: Seq<u8>| #[trigger]
                feasible(items, problem.capacity as nat, sel) implies selected_value(items, sel)
                <= obj_value by {
                lemma_best_value_bounds(items, sel, problem.capacity as int);
            }
            assert(is_upper_bound(items, problem.capacity as nat, obj_value as nat));
        }
        KnapsackSolution { obj: obj_value, opt: true, selected_items }
    }
}

} // verus!
