//! Search nodes: partial assignments that have decided a prefix of the items.

use crate::knapsack::{
    feasible, is_binary, is_density_ordering, lemma_sum_at_most_all, lemma_sum_prefix,
    lemma_sum_push, rest_value, selected_value, selected_weight, values, weights, KnapsackItem,
    KnapsackProblem,
};
use crate::relaxation::{
    calc_best_relaxation_fractionals, lemma_bound_sound, lemma_relaxation_at_most_rest,
    relaxation_bound,
};
use vstd::prelude::*;

verus! {

/// A partial assignment: the decisions for the first `selected.len()` items,
/// what they weigh and are worth, and the relaxation bound of their subtree.
#[derive(Debug)]
pub struct BranchAndBoundNode {
    pub selected: Vec<u8>,
    pub current_weight: usize,
    pub obj: usize,
    pub best_relaxation: usize,
}

/// The mathematical content of a node.
pub struct NodeView {
    pub selected: Seq<u8>,
    pub current_weight: usize,
    pub obj: usize,
    pub best_relaxation: usize,
}

impl View for BranchAndBoundNode {
    type V = NodeView;

    open spec fn view(&self) -> NodeView {
        NodeView {
            selected: self.selected@,
            current_weight: self.current_weight,
            obj: self.obj,
            best_relaxation: self.best_relaxation,
        }
    }
}

impl Clone for BranchAndBoundNode {
    fn clone(&self) -> (copy: Self)
        ensures
            copy@ == self@,
    {
        BranchAndBoundNode {
            selected: self.selected.clone(),
            current_weight: self.current_weight,
            obj: self.obj,
            best_relaxation: self.best_relaxation,
        }
    }
}

/// `sel` agrees with `prefix` on every item that `prefix` decides.
pub open spec fn extends(sel: Seq<u8>, prefix: Seq<u8>) -> bool {
    prefix.len() <= sel.len() && sel.take(prefix.len() as int) == prefix
}

impl NodeView {
    /// The node's numbers are those of its decisions: it fits into the
    /// knapsack, its weight and value are the sums over what it takes, and
    /// its bound is the relaxation bound of its prefix.
    pub open spec fn valid(self, problem: KnapsackProblem, order: Seq<(usize, KnapsackItem)>) -> bool {
        let items = problem.treasure_items@;
        &&& self.selected.len() <= items.len()
        &&& is_binary(self.selected)
        &&& self.current_weight == selected_weight(items, self.selected)
        &&& self.current_weight <= problem.capacity
        &&& self.obj == selected_value(items, self.selected)
        &&& self.best_relaxation == relaxation_bound(
            order,
            problem.capacity as int,
            self.obj as int,
            self.current_weight as int,
            self.selected.len() as int,
        )
    }

    /// The node has decided every item.
    pub open spec fn is_terminal(self, problem: KnapsackProblem) -> bool {
        self.selected.len() == problem.treasure_items.len()
    }

    /// The child has room in the knapsack: the exclude child always, the
    /// include child if the next item still fits.
    pub open spec fn has_child(self, problem: KnapsackProblem, include_next: bool) -> bool {
        include_next ==> self.current_weight + problem.treasure_items[
            self.selected.len() as int
        ].weight <= problem.capacity
    }

    /// The child that decides the next item.
    pub open spec fn child(
        self,
        problem: KnapsackProblem,
        order: Seq<(usize, KnapsackItem)>,
        include_next: bool,
    ) -> NodeView {
        let item = problem.treasure_items[self.selected.len() as int];
        let weight = if include_next {
            self.current_weight + item.weight
        } else {
            self.current_weight as int
        };
        let obj = if include_next {
            self.obj + item.value
        } else {
            self.obj as int
        };
        NodeView {
            selected: self.selected.push(
                if include_next {
                    1u8
                } else {
                    0u8
                },
            ),
            current_weight: weight as usize,
            obj: obj as usize,
            best_relaxation: relaxation_bound(
                order,
                problem.capacity as int,
                obj,
                weight,
                (self.selected.len() + 1) as int,
            ) as usize,
        }
    }
}

/// The root: nothing decided, bounded by the relaxation over all items.
pub open spec fn root(problem: KnapsackProblem, order: Seq<(usize, KnapsackItem)>) -> NodeView {
    NodeView {
        selected: Seq::empty(),
        current_weight: 0,
        obj: 0,
        best_relaxation: relaxation_bound(order, problem.capacity as int, 0, 0, 0) as usize,
    }
}

/// Bound soundness: a valid node's bound is at least its own value, and at
/// least the value of every feasible selection that completes its decisions.
pub proof fn lemma_node_bound_sound(
    problem: KnapsackProblem,
    order: Seq<(usize, KnapsackItem)>,
    node: NodeView,
    sel: Seq<u8>,
)
    requires
        problem.wf(),
        is_density_ordering(problem.treasure_items@, order),
        node.valid(problem, order),
        feasible(problem.treasure_items@, problem.capacity as nat, sel),
        extends(sel, node.selected),
    ensures
        node.obj <= node.best_relaxation,
        selected_value(problem.treasure_items@, sel) <= node.best_relaxation,
{
    let items = problem.treasure_items@;
    let d = node.selected.len() as int;
    lemma_bound_sound(items, order, problem.capacity as nat, sel, d);
    lemma_sum_prefix(values(items), sel, d);
}

/// A valid node's value and bound never exceed what all items are worth.
pub proof fn lemma_node_in_range(
    problem: KnapsackProblem,
    order: Seq<(usize, KnapsackItem)>,
    selected: Seq<u8>,
)
    requires
        problem.valid(),
        is_density_ordering(problem.treasure_items@, order),
        selected.len() <= problem.treasure_items.len(),
        selected_weight(problem.treasure_items@, selected) <= problem.capacity,
    ensures
        selected_value(problem.treasure_items@, selected) <= relaxation_bound(
            order,
            problem.capacity as int,
            selected_value(problem.treasure_items@, selected) as int,
            selected_weight(problem.treasure_items@, selected) as int,
            selected.len() as int,
        ) <= usize::MAX,
        selected_value(problem.treasure_items@, selected) + rest_value(
            problem.treasure_items@,
            selected.len(),
        ) <= usize::MAX,
{
    let items = problem.treasure_items@;
    let d = selected.len();
    lemma_sum_at_most_all(values(items), selected);
    lemma_relaxation_at_most_rest(
        items,
        order,
        d as int,
        problem.capacity - selected_weight(items, selected),
    );
}

/// A child that has room in the knapsack is a valid node again.
pub proof fn lemma_child_valid(
    problem: KnapsackProblem,
    order: Seq<(usize, KnapsackItem)>,
    node: NodeView,
    include_next: bool,
)
    requires
        problem.valid(),
        is_density_ordering(problem.treasure_items@, order),
        node.valid(problem, order),
        !node.is_terminal(problem),
        node.has_child(problem, include_next),
    ensures
        node.child(problem, order, include_next).valid(problem, order),
{
    let items = problem.treasure_items@;
    let bit = if include_next {
        1u8
    } else {
        0u8
    };
    lemma_sum_push(values(items), node.selected, bit);
    lemma_sum_push(weights(items), node.selected, bit);
    lemma_node_in_range(problem, order, node.selected.push(bit));
}

/// The root is a valid node.
pub proof fn lemma_root_valid(problem: KnapsackProblem, order: Seq<(usize, KnapsackItem)>)
    requires
        problem.valid(),
        is_density_ordering(problem.treasure_items@, order),
    ensures
        root(problem, order).valid(problem, order),
{
    lemma_node_in_range(problem, order, Seq::empty());
}

/// The root of the search tree.
pub fn create_root_node(sorted_items: &Vec<(usize, KnapsackItem)>, problem: &KnapsackProblem) -> (node:
    BranchAndBoundNode)
    requires
        problem.valid(),
        is_density_ordering(problem.treasure_items@, sorted_items@),
    ensures
        node@ == root(*problem, sorted_items@),
        node@.valid(*problem, sorted_items@),
{
    proof {
        lemma_node_in_range(*problem, sorted_items@, Seq::empty());
    }
    BranchAndBoundNode {
        selected: Vec::new(),
        current_weight: 0,
        obj: 0,
        best_relaxation: calc_best_relaxation_fractionals(sorted_items, problem, 0, 0, 0),
    }
}

/// Branches `current_node` on its next undecided item. The include child
/// exists only if the item still fits; the exclude child always exists.
pub fn create_new_node(
    sorted_items: &Vec<(usize, KnapsackItem)>,
    problem: &KnapsackProblem,
    current_node: &BranchAndBoundNode,
    include_next: bool,
) -> (child: Option<BranchAndBoundNode>)
    requires
        problem.valid(),
        is_density_ordering(problem.treasure_items@, sorted_items@),
        current_node@.valid(*problem, sorted_items@),
        !current_node@.is_terminal(*problem),
    ensures
        child is Some <==> current_node@.has_child(*problem, include_next),
        child is Some ==> child.unwrap()@ == current_node@.child(
            *problem,
            sorted_items@,
            include_next,
        ) && child.unwrap()@.valid(*problem, sorted_items@),
{
    let depth = current_node.selected.len();
    let item = problem.treasure_items[depth];
    let mut new_weight = current_node.current_weight;
    let mut new_obj = current_node.obj;
    let ghost items = problem.treasure_items@;
    let ghost bit = if include_next {
        1u8
    } else {
        0u8
    };
    let ghost decisions = current_node.selected@.push(bit);
    proof {
        lemma_sum_push(values(items), current_node.selected@, bit);
        lemma_sum_push(weights(items), current_node.selected@, bit);
    }
    if include_next {
        if item.weight > problem.capacity - current_node.current_weight {
            return None;
        }
        proof {
            lemma_node_in_range(*problem, sorted_items@, decisions);
        }
        new_weight = new_weight + item.weight;
        new_obj = new_obj + item.value;
    }
    proof {
        lemma_node_in_range(*problem, sorted_items@, decisions);
    }
    let mut selected_items = current_node.selected.clone();
    selected_items.push(if include_next {
        1u8
    } else {
        0u8
    });
    let bound = calc_best_relaxation_fractionals(
        sorted_items,
        problem,
        new_obj,
        new_weight,
        depth + 1,
    );
    Some(
        BranchAndBoundNode {
            selected: selected_items,
            current_weight: new_weight,
            obj: new_obj,
            best_relaxation: bound,
        },
    )
}

} // verus!
