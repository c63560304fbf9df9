//! The problem model: items, instances, solutions, and what it means for a
//! selection to be feasible or optimal.

use vstd::prelude::*;

verus! {

/// One item: what it is worth and what it weighs.
#[derive(Debug, Clone, Copy)]
pub struct KnapsackItem {
    pub value: usize,
    pub weight: usize,
}

/// An instance: `n_items` items and the weight the knapsack can carry.
#[derive(Debug)]
pub struct KnapsackProblem {
    pub n_items: usize,
    pub capacity: usize,
    pub treasure_items: Vec<KnapsackItem>,
}

/// What a solver hands back: the value reached, whether it is proved to be
/// the best possible, and one 0/1 decision per item.
pub struct KnapsackSolution {
    pub obj: usize,
    pub opt: bool,
    pub selected_items: Vec<u8>,
}

/// Every decision is 0 (left out) or 1 (taken).
pub open spec fn is_binary(sel: Seq<u8>) -> bool {
    forall|i: int| 0 <= i < sel.len() ==> #[trigger] sel[i] <= 1
}

/// The values of `items`, in item order.
pub open spec fn values(items: Seq<KnapsackItem>) -> Seq<nat> {
    Seq::new(items.len(), |i: int| items[i].value as nat)
}

/// The weights of `items`, in item order.
pub open spec fn weights(items: Seq<KnapsackItem>) -> Seq<nat> {
    Seq::new(items.len(), |i: int| items[i].weight as nat)
}

/// The sum of `amounts[i]` over the decided indices `i` with `sel[i] == 1`.
/// `sel` may decide only a prefix of the indices.
pub open spec fn selected_sum(amounts: Seq<nat>, sel: Seq<u8>) -> nat
    decreases sel.len(),
{
    if sel.len() == 0 {
        0
    } else {
        let rest = selected_sum(amounts, sel.drop_last());
        if sel.last() == 1 {
            rest + amounts[sel.len() - 1]
        } else {
            rest
        }
    }
}

/// Total value of the items that `sel` takes.
pub open spec fn selected_value(items: Seq<KnapsackItem>, sel: Seq<u8>) -> nat {
    selected_sum(values(items), sel)
}

/// Total weight of the items that `sel` takes.
pub open spec fn selected_weight(items: Seq<KnapsackItem>, sel: Seq<u8>) -> nat {
    selected_sum(weights(items), sel)
}

/// The selection that takes each of the first `n` items.
pub open spec fn all_taken(n: nat) -> Seq<u8> {
    Seq::new(n, |i: int| 1u8)
}

/// The selection that decides `n` items and takes none.
pub open spec fn none_taken(n: nat) -> Seq<u8> {
    Seq::new(n, |i: int| 0u8)
}

/// Total value of the items from index `d` on.
pub open spec fn rest_value(items: Seq<KnapsackItem>, d: nat) -> int {
    selected_value(items, all_taken(items.len())) - selected_value(items, all_taken(d))
}

/// One more decision adds the amount of the item decided, if it is taken.
pub proof fn lemma_sum_push(amounts: Seq<nat>, sel: Seq<u8>, b: u8)
    ensures
        selected_sum(amounts, sel.push(b)) == selected_sum(amounts, sel) + if b == 1 {
            amounts[sel.len() as int]
        } else {
            0
        },
{
    assert(sel.push(b).drop_last() == sel);
}

/// A prefix of a selection sums to no more than the whole.
pub proof fn lemma_sum_prefix(amounts: Seq<nat>, sel: Seq<u8>, d: int)
    requires
        0 <= d <= sel.len(),
    ensures
        selected_sum(amounts, sel.take(d)) <= selected_sum(amounts, sel),
    decreases sel.len(),
{
    if d == sel.len() {
        assert(sel.take(d) == sel);
    } else {
        assert(sel.drop_last().take(d) == sel.take(d));
        lemma_sum_prefix(amounts, sel.drop_last(), d);
    }
}

/// A binary selection of `d` items sums to no more than all of them taken.
pub proof fn lemma_sum_at_most_all(amounts: Seq<nat>, sel: Seq<u8>)
    ensures
        selected_sum(amounts, sel) <= selected_sum(amounts, all_taken(sel.len())),
    decreases sel.len(),
{
    if sel.len() > 0 {
        assert(all_taken(sel.len()).drop_last() == all_taken((sel.len() - 1) as nat));
        lemma_sum_at_most_all(amounts, sel.drop_last());
    }
}

/// Undecided or left-out items add nothing: padding a selection with zeros
/// keeps its sum.
pub proof fn lemma_sum_padded(amounts: Seq<nat>, sel: Seq<u8>, n: nat)
    ensures
        selected_sum(amounts, sel + none_taken(n)) == selected_sum(amounts, sel),
    decreases n,
{
    if n == 0 {
        assert(sel + none_taken(n) == sel);
    } else {
        assert((sel + none_taken(n)).drop_last() == sel + none_taken((n - 1) as nat));
        lemma_sum_padded(amounts, sel, (n - 1) as nat);
    }
}

/// `sel` decides every item and what it takes fits into the knapsack.
pub open spec fn feasible(items: Seq<KnapsackItem>, capacity: nat, sel: Seq<u8>) -> bool {
    &&& sel.len() == items.len()
    &&& is_binary(sel)
    &&& selected_weight(items, sel) <= capacity
}

/// No feasible selection is worth more than `v`.
pub open spec fn is_upper_bound(items: Seq<KnapsackItem>, capacity: nat, v: nat) -> bool {
    forall|sel: Seq<u8>| #[trigger]
        feasible(items, capacity, sel) ==> selected_value(items, sel) <= v
}

/// `v` is the optimum: some feasible selection reaches it and none exceeds it.
pub open spec fn is_optimum(items: Seq<KnapsackItem>, capacity: nat, v: nat) -> bool {
    &&& exists|sel: Seq<u8>| #[trigger]
        feasible(items, capacity, sel) && selected_value(items, sel) == v
    &&& is_upper_bound(items, capacity, v)
}


/// `a` is strictly denser than `b`: worth more per unit of weight. An item
/// without weight is denser than every item that has some, and no item is
/// denser than one without weight.
pub open spec fn denser(a: KnapsackItem, b: KnapsackItem) -> bool {
    b.weight > 0 && (a.weight == 0 || a.value * b.weight > b.value * a.weight)
}

/// The order of the density ordering: the denser item first, and of two
/// equally dense items the one with the smaller index.
pub open spec fn ranks_before(a: (usize, KnapsackItem), b: (usize, KnapsackItem)) -> bool {
    denser(a.1, b.1) || (!denser(b.1, a.1) && a.0 < b.0)
}

/// `order` lists every item of `items` once, each with its index, the
/// densest first.
pub open spec fn is_density_ordering(
    items: Seq<KnapsackItem>,
    order: Seq<(usize, KnapsackItem)>,
) -> bool {
    &&& order.len() == items.len()
    &&& forall|p: int|
        0 <= p < order.len() ==> (#[trigger] order[p]).0 < items.len() && order[p].1
            == items[order[p].0 as int]
    &&& forall|i: int| 0 <= i < items.len() ==> #[trigger] occurs(order, i)
    &&& forall|p: int, q: int|
        0 <= p < q < order.len() ==> ranks_before(#[trigger] order[p], #[trigger] order[q])
}

/// Position `p` of `order` holds the item with index `i`.
pub open spec fn occurs_at(order: Seq<(usize, KnapsackItem)>, p: int, i: int) -> bool {
    0 <= p < order.len() && order[p].0 == i
}

/// Some position of `order` holds the item with index `i`.
pub open spec fn occurs(order: Seq<(usize, KnapsackItem)>, i: int) -> bool {
    exists|p: int| occurs_at(order, p, i)
}

/// Density is transitive: what is denser than `b` is denser than all that
/// `b` is at least as dense as.
pub proof fn lemma_denser_transitive(a: KnapsackItem, b: KnapsackItem, c: KnapsackItem)
    requires
        denser(a, b),
        !denser(c, b),
    ensures
        denser(a, c),
{
    let (av, aw) = (a.value as int, a.weight as int);
    let (bv, bw) = (b.value as int, b.weight as int);
    let (cv, cw) = (c.value as int, c.weight as int);
    assert(cw > 0 && bv * cw >= cv * bw);
    if aw > 0 {
        assert(av * cw > cv * aw) by (nonlinear_arith)
            requires
                av * bw > bv * aw,
                bv * cw >= cv * bw,
                aw > 0,
                bw > 0,
                cw > 0,
                av >= 0,
                bv >= 0,
                cv >= 0,
        {
            assert((av * bw) * cw > (bv * aw) * cw);
            assert((bv * cw) * aw >= (cv * bw) * aw);
            assert((av * cw) * bw == (av * bw) * cw);
            assert((bv * aw) * cw == (bv * cw) * aw);
            assert((cv * bw) * aw == (cv * aw) * bw);
            assert((av * cw) * bw > (cv * aw) * bw);
        }
    }
}

/// Whether `a` is strictly denser than `b`.
pub fn is_denser(a: &KnapsackItem, b: &KnapsackItem) -> (r: bool)
    ensures
        r == denser(*a, *b),
{
    if b.weight == 0 {
        return false;
    }
    if a.weight == 0 {
        return true;
    }
    let av: u128 = a.value as u128;
    let aw: u128 = a.weight as u128;
    let bv: u128 = b.value as u128;
    let bw: u128 = b.weight as u128;
    assert(av * bw <= 0xFFFF_FFFF_FFFF_FFFF * 0xFFFF_FFFF_FFFF_FFFF) by (nonlinear_arith)
        requires
            0 <= av <= 0xFFFF_FFFF_FFFF_FFFF,
            0 <= bw <= 0xFFFF_FFFF_FFFF_FFFF,
    ;
    assert(bv * aw <= 0xFFFF_FFFF_FFFF_FFFF * 0xFFFF_FFFF_FFFF_FFFF) by (nonlinear_arith)
        requires
            0 <= bv <= 0xFFFF_FFFF_FFFF_FFFF,
            0 <= aw <= 0xFFFF_FFFF_FFFF_FFFF,
    ;
    av * bw > bv * aw
}

/// The optimum is unique: two values that are both optimal are equal. So two
/// searches of one instance that both run to the end report one objective.
pub proof fn lemma_optimum_unique(items: Seq<KnapsackItem>, capacity: nat, v1: nat, v2: nat)
    requires
        is_optimum(items, capacity, v1),
        is_optimum(items, capacity, v2),
    ensures
        v1 == v2,
{
    let s1 = choose|sel: Seq<u8>| #[trigger]
        feasible(items, capacity, sel) && selected_value(items, sel) == v1;
    let s2 = choose|sel: Seq<u8>| #[trigger]
        feasible(items, capacity, sel) && selected_value(items, sel) == v2;
    assert(feasible(items, capacity, s1));
    assert(feasible(items, capacity, s2));
}

/// `solution` answers `problem`: its selection is feasible, its objective is
/// what the selection is worth, and if it claims optimality, its objective
/// is the optimum.
pub open spec fn solves(problem: KnapsackProblem, solution: KnapsackSolution) -> bool {
    let items = problem.treasure_items@;
    let capacity = problem.capacity as nat;
    &&& feasible(items, capacity, solution.selected_items@)
    &&& solution.obj == selected_value(items, solution.selected_items@)
    &&& solution.opt ==> is_optimum(items, capacity, solution.obj as nat)
}

/// Two solutions of one instance that both claim optimality have the same
/// objective, though their selections may differ.
pub proof fn lemma_optimal_solutions_agree(
    problem: KnapsackProblem,
    first: KnapsackSolution,
    second: KnapsackSolution,
)
    requires
        solves(problem, first),
        solves(problem, second),
        first.opt,
        second.opt,
    ensures
        first.obj == second.obj,
{
    lemma_optimum_unique(
        problem.treasure_items@,
        problem.capacity as nat,
        first.obj as nat,
        second.obj as nat,
    );
}

impl KnapsackProblem {
    /// The item count agrees with the item list.
    pub open spec fn wf(&self) -> bool {
        self.n_items == self.treasure_items.len()
    }

    /// A well-formed instance whose values, all taken together, still fit
    /// into a machine word, so that no objective can overflow.
    pub open spec fn valid(&self) -> bool {
        &&& self.wf()
        &&& selected_value(self.treasure_items@, all_taken(self.n_items as nat)) <= usize::MAX
    }

    pub fn new(n_items: usize, capacity: usize, treasure_items: Vec<KnapsackItem>) -> (p:
        KnapsackProblem)
        requires
            treasure_items.len() == n_items,
        ensures
            p.wf(),
            p.n_items == n_items,
            p.capacity == capacity,
            p.treasure_items == treasure_items,
    {
        KnapsackProblem { n_items, capacity, treasure_items }
    }

    /// Whether the instance is valid: the item count agrees with the item
    /// list, and all values together fit into a machine word.
    pub fn is_valid(&self) -> (ok: bool)
        ensures
            ok == self.valid(),
    {
        if self.treasure_items.len() != self.n_items {
            return false;
        }
        let ghost items = self.treasure_items@;
        let ghost all = all_taken(self.n_items as nat);
        let mut total: usize = 0;
        let mut i: usize = 0;
        while i < self.n_items
            invariant
                self.wf(),
                items == self.treasure_items@,
                all == all_taken(self.n_items as nat),
                i <= self.n_items,
                total == selected_value(items, all_taken(i as nat)),
            decreases self.n_items - i,
        {
            let value = self.treasure_items[i].value;
            proof {
                assert(all_taken((i + 1) as nat).drop_last() == all_taken(i as nat));
                assert(all.take(i + 1) == all_taken((i + 1) as nat));
                lemma_sum_prefix(values(items), all, i + 1);
            }
            if value > usize::MAX - total {
                return false;
            }
            total += value;
            i += 1;
        }
        true
    }

    /// The weights, in item order.
    pub fn get_weights(&self) -> (weights: Vec<usize>)
        ensures
            weights.len() == self.treasure_items.len(),
            forall|i: int|
                0 <= i < weights.len() ==> weights[i] == #[trigger] self.treasure_items[i].weight,
    {
        let mut weights: Vec<usize> = Vec::new();
        let mut i: usize = 0;
        while i < self.treasure_items.len()
            invariant
                i <= self.treasure_items.len(),
                weights.len() == i,
                forall|j: int|
                    0 <= j < i ==> weights[j] == #[trigger] self.treasure_items[j].weight,
            decreases self.treasure_items.len() - i,
        {
            weights.push(self.treasure_items[i].weight);
            i += 1;
        }
        weights
    }
    /// The density ordering: every item with its index, sorted by value per
    /// weight, the densest first; equally dense items keep their order.
    pub fn get_best_value_per_weight_items(&self) -> (order: Vec<(usize, KnapsackItem)>)
        ensures
            is_density_ordering(self.treasure_items@, order@),
    {
        let items = &self.treasure_items;
        let mut order: Vec<(usize, KnapsackItem)> = Vec::new();
        let mut i: usize = 0;
        while i < items.len()
            invariant
                i <= items.len(),
                is_density_ordering(items@.take(i as int), order@),
            decreases items.len() - i,
        {
            let item = items[i];
            let mut pos: usize = 0;
            while pos < order.len() && !is_denser(&item, &order[pos].1)
                invariant
                    pos <= order.len(),
                    forall|k: int| 0 <= k < pos ==> !denser(item, (#[trigger] order[k]).1),
                decreases order.len() - pos,
            {
                pos += 1;
            }
            let ghost before = order@;
            order.insert(pos, (i, item));
            proof {
                let now = order@;
                let part = items@.take(i as int + 1);
                assert forall|p: int| 0 <= p < now.len() implies (#[trigger] now[p]).0
                    < part.len() && now[p].1 == part[now[p].0 as int] by {
                    if p < pos {
                        assert(now[p] == before[p]);
                    } else if p > pos {
                        assert(now[p] == before[p - 1]);
                    }
                }
                assert forall|k: int| 0 <= k < part.len() implies #[trigger] occurs(now, k) by {
                    if k == i {
                        assert(occurs_at(now, pos as int, k));
                    } else {
                        assert(occurs(before, k));
                        let p = choose|p: int| occurs_at(before, p, k);
                        if p < pos {
                            assert(occurs_at(now, p, k));
                        } else {
                            assert(occurs_at(now, p + 1, k));
                        }
                    }
                }
                assert forall|p: int, q: int| 0 <= p < q < now.len() implies ranks_before(
                    #[trigger] now[p],
                    #[trigger] now[q],
                ) by {
                    if q < pos {
                        assert(now[p] == before[p] && now[q] == before[q]);
                    } else if p > pos {
                        assert(now[p] == before[p - 1] && now[q] == before[q - 1]);
                    } else if q == pos {
                        assert(now[p] == before[p]);
                    } else if p == pos {
                        assert(now[q] == before[q - 1]);
                        if q - 1 > pos {
                            assert(ranks_before(before[pos as int], before[q - 1]));
                        }
                        lemma_denser_transitive(item, before[pos as int].1, before[q - 1].1);
                    } else {
                        assert(now[p] == before[p] && now[q] == before[q - 1]);
                    }
                }
            }
            i += 1;
        }
        assert(items@.take(i as int) == items@);
        order
    }
}

} // verus!
