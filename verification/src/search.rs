//! The branch-and-bound driver as a state machine: one tick pops the most
//! promising node, updates the incumbent, and prunes or branches.

use crate::frontier::{is_heap, is_highest, promising, Frontier};
use crate::knapsack::{
    feasible, is_binary, is_density_ordering, is_upper_bound, lemma_sum_padded, lemma_sum_prefix,
    lemma_sum_push, none_taken, selected_value, solves, values, weights, KnapsackItem,
    KnapsackProblem, KnapsackSolution,
};
use crate::node::{
    create_new_node, create_root_node, extends, lemma_child_valid, lemma_node_bound_sound, root,
    BranchAndBoundNode, NodeView,
};
use vstd::multiset::Multiset;
use vstd::prelude::*;
use vstd::seq_lib::{to_multiset_build, to_multiset_contains, to_multiset_len, to_multiset_remove};

verus! {

/// The seconds after which a search gives up and hands back its incumbent.
pub const TIME_BUDGET_SECS: u64 = 120;

/// The number of node expansions between two compactions of the frontier.
pub const COMPACTION_INTERVAL: usize = 100_000;

/// Where a search stands. `TimedOut` and `Exhausted` are final.
#[derive(Clone, Copy, Debug, PartialEq, Eq, Structural)]
pub enum SearchState {
    Running,
    TimedOut,
    Exhausted,
}

/// One search: the open nodes, the best node seen, the number of nodes
/// expanded, and the state.
pub struct Search {
    pub frontier: Frontier,
    pub incumbent: BranchAndBoundNode,
    pub nodes_explored: usize,
    pub state: SearchState,
}

/// The mathematical content of a search.
pub struct SearchView {
    pub frontier: Seq<NodeView>,
    pub incumbent: NodeView,
    pub nodes_explored: usize,
    pub state: SearchState,
}

impl View for Search {
    type V = SearchView;

    open spec fn view(&self) -> SearchView {
        SearchView {
            frontier: self.frontier@,
            incumbent: self.incumbent@,
            nodes_explored: self.nodes_explored,
            state: self.state,
        }
    }
}

/// Some open node has made only decisions that `sel` makes too.
pub open spec fn covered(frontier: Seq<NodeView>, sel: Seq<u8>) -> bool {
    exists|i: int| 0 <= i < frontier.len() && extends(sel, (#[trigger] frontier[i]).selected)
}

/// The number of nodes in a full decision tree of height `h`.
pub open spec fn tree_size(h: nat) -> nat
    decreases h,
{
    if h == 0 {
        1
    } else {
        2 * tree_size((h - 1) as nat) + 1
    }
}

/// The work that is left: the sizes of the subtrees under the open nodes.
pub open spec fn work(frontier: Seq<NodeView>, n_items: nat) -> nat
    decreases frontier.len(),
{
    if frontier.len() == 0 {
        0
    } else {
        work(frontier.drop_last(), n_items) + tree_size(
            (n_items - frontier.last().selected.len()) as nat,
        )
    }
}

impl SearchView {
    /// The start of a search: only the root is open, and it is the incumbent.
    pub open spec fn initial(problem: KnapsackProblem, order: Seq<(usize, KnapsackItem)>) -> SearchView {
        SearchView {
            frontier: seq![root(problem, order)],
            incumbent: root(problem, order),
            nodes_explored: 0,
            state: SearchState::Running,
        }
    }

    /// What holds of every state of a search: all its nodes are valid, and
    /// every feasible selection either is worth no more than the incumbent or
    /// lies under an open node. An exhausted search has no open node. The
    /// open nodes form a heap.
    pub open spec fn inv(self, problem: KnapsackProblem, order: Seq<(usize, KnapsackItem)>) -> bool {
        &&& self.incumbent.valid(problem, order)
        &&& forall|i: int|
            0 <= i < self.frontier.len() ==> (#[trigger] self.frontier[i]).valid(problem, order)
        &&& forall|sel: Seq<u8>| #[trigger]
            feasible(problem.treasure_items@, problem.capacity as nat, sel) ==> selected_value(
                problem.treasure_items@,
                sel,
            ) <= self.incumbent.obj || covered(self.frontier, sel)
        &&& self.state == SearchState::Exhausted ==> self.frontier.len() == 0
        &&& is_heap(self.frontier)
    }

    /// The incumbent after `node` was popped: `node` if it is worth more.
    pub open spec fn improved(self, node: NodeView) -> NodeView {
        if node.obj > self.incumbent.obj {
            node
        } else {
            self.incumbent
        }
    }

    /// The popped node `node` is branched on: it is not terminal, and its
    /// bound is higher than the incumbent's value.
    pub open spec fn branches(self, node: NodeView, problem: KnapsackProblem) -> bool {
        !node.is_terminal(problem) && node.best_relaxation > self.improved(node).obj
    }

    /// The number of expansions after one more.
    pub open spec fn explored_after(self) -> usize {
        if self.nodes_explored < usize::MAX {
            (self.nodes_explored + 1) as usize
        } else {
            self.nodes_explored
        }
    }

    /// The open nodes `rest` together with the children of `node`.
    pub open spec fn branched(
        rest: Multiset<NodeView>,
        node: NodeView,
        problem: KnapsackProblem,
        order: Seq<(usize, KnapsackItem)>,
    ) -> Multiset<NodeView> {
        let with_taken = if node.has_child(problem, true) {
            rest.insert(node.child(problem, order, true))
        } else {
            rest
        };
        with_taken.insert(node.child(problem, order, false))
    }

    /// The open nodes after `node` was popped: the others, and if `node` is
    /// branched on, its children; every so many expansions, only those that
    /// can still beat the incumbent.
    pub open spec fn open_after(
        self,
        node: NodeView,
        problem: KnapsackProblem,
        order: Seq<(usize, KnapsackItem)>,
    ) -> Multiset<NodeView> {
        let rest = self.frontier.to_multiset().remove(node);
        if !self.branches(node, problem) {
            rest
        } else {
            let grown = Self::branched(rest, node, problem, order);
            if self.explored_after() % COMPACTION_INTERVAL == 0 {
                promising(grown, self.improved(node).obj)
            } else {
                grown
            }
        }
    }

    /// A tick of a running search that pops `node`, an open node with the
    /// highest bound, leads to `next`.
    pub open spec fn pops(
        self,
        next: SearchView,
        node: NodeView,
        problem: KnapsackProblem,
        order: Seq<(usize, KnapsackItem)>,
    ) -> bool {
        &&& self.frontier.to_multiset().contains(node)
        &&& is_highest(self.frontier, node)
        &&& next.state == SearchState::Running
        &&& next.incumbent == self.improved(node)
        &&& next.nodes_explored == if self.branches(node, problem) {
            self.explored_after()
        } else {
            self.nodes_explored
        }
        &&& next.frontier.to_multiset() == self.open_after(node, problem, order)
        &&& is_heap(next.frontier)
    }

    /// One tick of the search, `elapsed_secs` seconds after its start, leads
    /// to `next`. Which of several open nodes with the highest bound is
    /// popped is left open; all else is determined.
    pub open spec fn steps_to(
        self,
        next: SearchView,
        problem: KnapsackProblem,
        order: Seq<(usize, KnapsackItem)>,
        elapsed_secs: u64,
    ) -> bool {
        if self.state != SearchState::Running {
            next == self
        } else if elapsed_secs >= TIME_BUDGET_SECS {
            next == (SearchView { state: SearchState::TimedOut, ..self })
        } else if self.frontier.len() == 0 {
            next == (SearchView { state: SearchState::Exhausted, ..self })
        } else {
            exists|node: NodeView| #[trigger] self.pops(next, node, problem, order)
        }
    }
}

/// A pushed node adds the size of its subtree to the work.
pub proof fn lemma_work_push(frontier: Seq<NodeView>, node: NodeView, n_items: nat)
    ensures
        work(frontier.push(node), n_items) == work(frontier, n_items) + tree_size(
            (n_items - node.selected.len()) as nat,
        ),
{
    assert(frontier.push(node).drop_last() == frontier);
}

/// A removed node takes the size of its subtree from the work.
pub proof fn lemma_work_remove(frontier: Seq<NodeView>, i: int, n_items: nat)
    requires
        0 <= i < frontier.len(),
    ensures
        work(frontier, n_items) == work(frontier.remove(i), n_items) + tree_size(
            (n_items - frontier[i].selected.len()) as nat,
        ),
    decreases frontier.len(),
{
    if i == frontier.len() - 1 {
        assert(frontier.remove(i) == frontier.drop_last());
    } else {
        assert(frontier.remove(i).drop_last() == frontier.drop_last().remove(i));
        assert(frontier.remove(i).last() == frontier.last());
        lemma_work_remove(frontier.drop_last(), i, n_items);
    }
}

/// Nodes that are all among the nodes of `more`, counted with multiplicity,
/// leave no more work than `more`.
pub proof fn lemma_work_of_fewer(fewer: Seq<NodeView>, more: Seq<NodeView>, n_items: nat)
    requires
        fewer.to_multiset().subset_of(more.to_multiset()),
    ensures
        work(fewer, n_items) <= work(more, n_items),
    decreases fewer.len(),
{
    broadcast use vstd::multiset::group_multiset_axioms;

    if fewer.len() > 0 {
        let last = fewer.last();
        let init = fewer.drop_last();
        assert(fewer == init.push(last));
        to_multiset_build(init, last);
        to_multiset_contains(more, last);
        assert(more.to_multiset().count(last) > 0);
        let k = choose|k: int| 0 <= k < more.len() && more[k] == last;
        to_multiset_remove(more, k);
        assert(init.to_multiset().subset_of(more.remove(k).to_multiset()));
        lemma_work_of_fewer(init, more.remove(k), n_items);
        lemma_work_remove(more, k, n_items);
    }
}

/// A node of the sequence is a node of its multiset, and the other way round.
pub proof fn lemma_node_at(nodes: Seq<NodeView>, node: NodeView)
    ensures
        nodes.to_multiset().contains(node) <==> exists|i: int|
            0 <= i < nodes.len() && #[trigger] nodes[i] == node,
{
    to_multiset_contains(nodes, node);
}

/// The start of a search satisfies the invariant.
pub proof fn lemma_initial_inv(problem: KnapsackProblem, order: Seq<(usize, KnapsackItem)>)
    requires
        problem.valid(),
        is_density_ordering(problem.treasure_items@, order),
    ensures
        SearchView::initial(problem, order).inv(problem, order),
{
    let start = SearchView::initial(problem, order);
    crate::node::lemma_root_valid(problem, order);
    assert forall|sel: Seq<u8>| #[trigger]
        feasible(problem.treasure_items@, problem.capacity as nat, sel) implies covered(
        start.frontier,
        sel,
    ) by {
        assert(sel.take(0) == Seq::<u8>::empty());
        assert(extends(sel, start.frontier[0].selected));
    }
}

/// A feasible selection under the popped node, if the node is branched on,
/// lies under one of its children.
pub proof fn lemma_child_covers(
    problem: KnapsackProblem,
    order: Seq<(usize, KnapsackItem)>,
    node: NodeView,
    sel: Seq<u8>,
) -> (taken: bool)
    requires
        problem.valid(),
        is_density_ordering(problem.treasure_items@, order),
        node.valid(problem, order),
        !node.is_terminal(problem),
        feasible(problem.treasure_items@, problem.capacity as nat, sel),
        extends(sel, node.selected),
    ensures
        node.has_child(problem, taken),
        extends(sel, node.child(problem, order, taken).selected),
{
    let items = problem.treasure_items@;
    let d = node.selected.len() as int;
    assert(sel.take(d + 1) == node.selected.push(sel[d]));
    assert(sel[d] <= 1);
    if sel[d] == 1 {
        lemma_sum_push(weights(items), node.selected, 1u8);
        lemma_sum_prefix(weights(items), sel, d + 1);
    }
    sel[d] == 1
}

/// A tick that pops a node keeps the invariant.
pub proof fn lemma_pop_inv(
    state: SearchView,
    next: SearchView,
    node: NodeView,
    problem: KnapsackProblem,
    order: Seq<(usize, KnapsackItem)>,
)
    requires
        problem.valid(),
        is_density_ordering(problem.treasure_items@, order),
        state.inv(problem, order),
        state.pops(next, node, problem, order),
    ensures
        next.inv(problem, order),
{
    broadcast use vstd::multiset::group_multiset_axioms;

    let items = problem.treasure_items@;
    let capacity = problem.capacity as nat;
    let open = state.frontier.to_multiset();
    let rest = open.remove(node);
    let floor = next.incumbent.obj;
    let branches = state.branches(node, problem);
    let compacts = branches && state.explored_after() % COMPACTION_INTERVAL == 0;
    lemma_node_at(state.frontier, node);
    assert(node.valid(problem, order));
    if branches {
        lemma_child_valid(problem, order, node, false);
        if node.has_child(problem, true) {
            lemma_child_valid(problem, order, node, true);
        }
    }
    assert forall|i: int| 0 <= i < next.frontier.len() implies (#[trigger] next.frontier[i]).valid(
        problem,
        order,
    ) by {
        let x = next.frontier[i];
        lemma_node_at(next.frontier, x);
        assert(next.frontier.to_multiset().count(x) > 0);
        if open.count(x) > 0 {
            lemma_node_at(state.frontier, x);
        } else {
            assert(branches);
            assert(x == node.child(problem, order, false) || (node.has_child(problem, true) && x
                == node.child(problem, order, true)));
        }
    }
    assert forall|sel: Seq<u8>| #[trigger] feasible(items, capacity, sel) implies selected_value(
        items,
        sel,
    ) <= floor || covered(next.frontier, sel) by {
        if selected_value(items, sel) > floor {
            assert(covered(state.frontier, sel));
            let j = choose|j: int|
                0 <= j < state.frontier.len() && extends(
                    sel,
                    (#[trigger] state.frontier[j]).selected,
                );
            let x = state.frontier[j];
            lemma_node_at(state.frontier, x);
            lemma_node_bound_sound(problem, order, x, sel);
            let y = if x == node {
                if node.is_terminal(problem) {
                    assert(sel.take(sel.len() as int) == sel);
                }
                let taken = lemma_child_covers(problem, order, node, sel);
                node.child(problem, order, taken)
            } else {
                x
            };
            assert(y.valid(problem, order));
            lemma_node_bound_sound(problem, order, y, sel);
            assert(next.frontier.to_multiset().count(y) > 0);
            lemma_node_at(next.frontier, y);
        }
    }
}

/// A tick that pops a node has done some of the work.
pub proof fn lemma_pop_progress(
    state: SearchView,
    next: SearchView,
    node: NodeView,
    problem: KnapsackProblem,
    order: Seq<(usize, KnapsackItem)>,
)
    requires
        state.inv(problem, order),
        state.pops(next, node, problem, order),
    ensures
        work(next.frontier, problem.treasure_items@.len()) < work(
            state.frontier,
            problem.treasure_items@.len(),
        ),
{
    broadcast use vstd::multiset::group_multiset_axioms;

    let n = problem.treasure_items@.len();
    lemma_node_at(state.frontier, node);
    let i = choose|i: int| 0 <= i < state.frontier.len() && #[trigger] state.frontier[i] == node;
    let rest = state.frontier.remove(i);
    to_multiset_remove(state.frontier, i);
    lemma_work_remove(state.frontier, i, n);
    if state.branches(node, problem) {
        let with_item = node.child(problem, order, true);
        let without_item = node.child(problem, order, false);
        let with_taken = if node.has_child(problem, true) {
            rest.push(with_item)
        } else {
            rest
        };
        let grown = with_taken.push(without_item);
        to_multiset_build(rest, with_item);
        to_multiset_build(with_taken, without_item);
        lemma_work_push(rest, with_item, n);
        lemma_work_push(with_taken, without_item, n);
        lemma_work_of_fewer(next.frontier, grown, n);
    } else {
        lemma_work_of_fewer(next.frontier, rest, n);
    }
}

/// Every tick keeps the invariant.
pub proof fn lemma_step_inv(
    state: SearchView,
    next: SearchView,
    problem: KnapsackProblem,
    order: Seq<(usize, KnapsackItem)>,
    elapsed_secs: u64,
)
    requires
        problem.valid(),
        is_density_ordering(problem.treasure_items@, order),
        state.inv(problem, order),
        state.steps_to(next, problem, order, elapsed_secs),
    ensures
        next.inv(problem, order),
{
    if state.state == SearchState::Running && elapsed_secs < TIME_BUDGET_SECS
        && state.frontier.len() > 0 {
        let node = choose|node: NodeView| #[trigger] state.pops(next, node, problem, order);
        lemma_pop_inv(state, next, node, problem, order);
    }
}

/// Anytime monotonicity: no tick lowers the incumbent's value.
pub proof fn lemma_step_monotone(
    state: SearchView,
    next: SearchView,
    problem: KnapsackProblem,
    order: Seq<(usize, KnapsackItem)>,
    elapsed_secs: u64,
)
    requires
        state.steps_to(next, problem, order, elapsed_secs),
    ensures
        next.incumbent.obj >= state.incumbent.obj,
{
}

/// Every tick that leaves the search running has done some of the work.
pub proof fn lemma_step_progress(
    state: SearchView,
    next: SearchView,
    problem: KnapsackProblem,
    order: Seq<(usize, KnapsackItem)>,
    elapsed_secs: u64,
)
    requires
        state.inv(problem, order),
        state.state == SearchState::Running,
        next.state == SearchState::Running,
        state.steps_to(next, problem, order, elapsed_secs),
    ensures
        work(next.frontier, problem.treasure_items@.len()) < work(
            state.frontier,
            problem.treasure_items@.len(),
        ),
{
    let node = choose|node: NodeView| #[trigger] state.pops(next, node, problem, order);
    lemma_pop_progress(state, next, node, problem, order);
}

/// A search that has run out of open nodes holds the optimum.
pub proof fn lemma_exhausted_is_optimal(
    state: SearchView,
    problem: KnapsackProblem,
    order: Seq<(usize, KnapsackItem)>,
)
    requires
        state.inv(problem, order),
        state.frontier.len() == 0,
    ensures
        is_upper_bound(problem.treasure_items@, problem.capacity as nat, state.incumbent.obj as nat),
{
}

impl Search {
    /// Starts a search of `problem`: only the root is open.
    pub fn start(sorted_items: &Vec<(usize, KnapsackItem)>, problem: &KnapsackProblem) -> (search:
        Search)
        requires
            problem.valid(),
            is_density_ordering(problem.treasure_items@, sorted_items@),
        ensures
            search@ == SearchView::initial(*problem, sorted_items@),
            search@.inv(*problem, sorted_items@),
    {
        let root_node = create_root_node(sorted_items, problem);
        let mut frontier = Frontier::new();
        frontier.insert(root_node.clone());
        proof {
            broadcast use vstd::multiset::group_multiset_axioms;

            lemma_initial_inv(*problem, sorted_items@);
            to_multiset_len(frontier@);
            to_multiset_len(Seq::<NodeView>::empty());
            lemma_node_at(frontier@, frontier@[0]);
            assert(frontier@ =~= seq![root(*problem, sorted_items@)]);
        }
        Search { frontier, incumbent: root_node, nodes_explored: 0, state: SearchState::Running }
    }

    /// Whether the search can still go on.
    pub fn is_running(&self) -> (running: bool)
        ensures
            running == (self@.state == SearchState::Running),
    {
        match self.state {
            SearchState::Running => true,
            _ => false,
        }
    }

    /// One tick, `elapsed_secs` seconds after the start of the search. A
    /// search that is over stays as it is. A running one times out when the
    /// budget is spent and is exhausted when no node is open; otherwise it
    /// pops an open node with the highest bound, makes it the incumbent if
    /// it is worth more, and unless the node is terminal or cannot beat the
    /// incumbent, opens its children.
    pub fn tick(
        &mut self,
        sorted_items: &Vec<(usize, KnapsackItem)>,
        problem: &KnapsackProblem,
        elapsed_secs: u64,
    )
        requires
            problem.valid(),
            is_density_ordering(problem.treasure_items@, sorted_items@),
            old(self)@.inv(*problem, sorted_items@),
        ensures
            old(self)@.steps_to(final(self)@, *problem, sorted_items@, elapsed_secs),
            final(self)@.inv(*problem, sorted_items@),
            final(self)@.incumbent.obj >= old(self)@.incumbent.obj,
            old(self)@.state == SearchState::Running && final(self)@.state == SearchState::Running
                ==> work(final(self)@.frontier, problem.treasure_items@.len()) < work(
                old(self)@.frontier,
                problem.treasure_items@.len(),
            ),
    {
        if !self.is_running() {
            return ;
        }
        if elapsed_secs >= TIME_BUDGET_SECS {
            self.state = SearchState::TimedOut;
            return ;
        }
        let node = match self.frontier.extract_max() {
            None => {
                self.state = SearchState::Exhausted;
                return ;
            },
            Some(node) => node,
        };
        proof {
            lemma_node_at(old(self)@.frontier, node@);
        }
        if node.obj > self.incumbent.obj {
            self.incumbent = node.clone();
        }
        let branches = node.selected.len() != problem.n_items && node.best_relaxation
            > self.incumbent.obj;
        if branches {
            if self.nodes_explored < usize::MAX {
                self.nodes_explored += 1;
            }
            match create_new_node(sorted_items, problem, &node, true) {
                Some(child) => {
                    self.frontier.insert(child);
                },
                None => {},
            }
            match create_new_node(sorted_items, problem, &node, false) {
                Some(child) => {
                    self.frontier.insert(child);
                },
                None => {},
            }
            if self.nodes_explored % COMPACTION_INTERVAL == 0 {
                self.frontier.compact(self.incumbent.obj);
            }
        }
        proof {
            assert(old(self)@.pops(self@, node@, *problem, sorted_items@));
            lemma_pop_inv(old(self)@, self@, node@, *problem, sorted_items@);
            lemma_pop_progress(old(self)@, self@, node@, *problem, sorted_items@);
        }
    }

    /// The solution that the search has reached: the incumbent's decisions,
    /// with every undecided item left out, and optimal if the search was
    /// exhausted.
    pub fn into_solution(self, problem: &KnapsackProblem) -> (solution: KnapsackSolution)
        requires
            problem.valid(),
            exists|order: Seq<(usize, KnapsackItem)>| #[trigger] self@.inv(*problem, order),
        ensures
            solution.obj == self@.incumbent.obj,
            solution.opt == (self@.state == SearchState::Exhausted),
            solution.selected_items@ == self@.incumbent.selected + none_taken(
                (problem.n_items - self@.incumbent.selected.len()) as nat,
            ),
            solves(*problem, solution),
    {
        let ghost order = choose|order: Seq<(usize, KnapsackItem)>| #[trigger]
            self@.inv(*problem, order);
        let ghost decided = self@.incumbent.selected;
        let ghost items = problem.treasure_items@;
        let opt = match self.state {
            SearchState::Exhausted => true,
            _ => false,
        };
        let obj = self.incumbent.obj;
        let mut selected = self.incumbent.selected;
        while selected.len() < problem.n_items
            invariant
                decided.len() <= selected.len() <= problem.n_items,
                selected@ == decided + none_taken((selected.len() - decided.len()) as nat),
            decreases problem.n_items - selected.len(),
        {
            selected.push(0);
            assert(selected@ =~= decided + none_taken((selected.len() - decided.len()) as nat));
        }
        proof {
            let padding = (problem.n_items - decided.len()) as nat;
            lemma_sum_padded(values(items), decided, padding);
            lemma_sum_padded(weights(items), decided, padding);
            assert(is_binary(selected@));
            assert(feasible(items, problem.capacity as nat, selected@));
        }
        KnapsackSolution { obj, opt, selected_items: selected }
    }
}

} // verus!
