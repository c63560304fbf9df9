//! The relaxation bound: the most that any completion of a partial assignment
//! can be worth, found by filling the room that is left with the densest
//! undecided items and a fraction of the first that no longer fits.

use crate::knapsack::{
    all_taken, denser, feasible, is_density_ordering, lemma_sum_prefix, occurs, occurs_at,
    ranks_before, rest_value, selected_sum, selected_value, selected_weight, values, weights,
    KnapsackItem, KnapsackProblem,
};
use vstd::prelude::*;

verus! {

/// The value that the greedy walk adds from position `pos` of the density
/// ordering on, with `room` left in the knapsack and the items below index
/// `decided` already fixed: whole items while they fit, then the fraction of
/// the first that does not, rounded down.
pub open spec fn relaxation(
    order: Seq<(usize, KnapsackItem)>,
    pos: int,
    room: int,
    decided: int,
) -> int
    decreases order.len() - pos,
{
    if pos < 0 || pos >= order.len() {
        0
    } else if order[pos].0 < decided {
        relaxation(order, pos + 1, room, decided)
    } else if order[pos].1.weight <= room {
        order[pos].1.value + relaxation(
            order,
            pos + 1,
            room - order[pos].1.weight,
            decided,
        )
    } else {
        (room * order[pos].1.value) / (order[pos].1.weight as int)
    }
}

/// The relaxation bound of a partial assignment that has fixed the first
/// `decided` items, reached `value` and used `weight` of the capacity.
pub open spec fn relaxation_bound(
    order: Seq<(usize, KnapsackItem)>,
    capacity: int,
    value: int,
    weight: int,
    decided: int,
) -> int {
    value + relaxation(order, 0, capacity - weight, decided)
}

/// What the item with index `i` adds to a sum over the undecided items.
pub open spec fn term(amounts: Seq<nat>, sel: Seq<u8>, decided: int, i: int) -> nat {
    if decided <= i < sel.len() && sel[i] == 1 {
        amounts[i]
    } else {
        0
    }
}

/// The sum of `amounts` over the undecided items that `sel` takes, walked in
/// the density ordering from position `pos` on.
pub open spec fn ordered_sum(
    order: Seq<(usize, KnapsackItem)>,
    amounts: Seq<nat>,
    sel: Seq<u8>,
    decided: int,
    pos: int,
) -> nat
    decreases order.len() - pos,
{
    if pos < 0 || pos >= order.len() {
        0
    } else {
        term(amounts, sel, decided, order[pos].0 as int) + ordered_sum(
            order,
            amounts,
            sel,
            decided,
            pos + 1,
        )
    }
}

/// `order` names each index below `m` exactly once.
pub open spec fn is_permutation(order: Seq<(usize, KnapsackItem)>, m: nat) -> bool {
    &&& order.len() == m
    &&& forall|p: int| 0 <= p < order.len() ==> (#[trigger] order[p]).0 < m
    &&& forall|p: int, q: int|
        0 <= p < q < order.len() ==> (#[trigger] order[p]).0 != (#[trigger] order[q]).0
    &&& forall|i: int| 0 <= i < m ==> #[trigger] occurs(order, i)
}

proof fn lemma_ordered_sum_shift(
    order: Seq<(usize, KnapsackItem)>,
    amounts: Seq<nat>,
    sel: Seq<u8>,
    decided: int,
    q: int,
    pos: int,
)
    requires
        0 <= q < pos <= order.len(),
    ensures
        ordered_sum(order, amounts, sel, decided, pos) == ordered_sum(
            order.remove(q),
            amounts,
            sel,
            decided,
            pos - 1,
        ),
    decreases order.len() - pos,
{
    if pos < order.len() {
        assert(order.remove(q)[pos - 1] == order[pos]);
        lemma_ordered_sum_shift(order, amounts, sel, decided, q, pos + 1);
    }
}

proof fn lemma_ordered_sum_remove(
    order: Seq<(usize, KnapsackItem)>,
    amounts: Seq<nat>,
    sel: Seq<u8>,
    decided: int,
    q: int,
    pos: int,
)
    requires
        0 <= pos <= q < order.len(),
    ensures
        ordered_sum(order, amounts, sel, decided, pos) == term(
            amounts,
            sel,
            decided,
            order[q].0 as int,
        ) + ordered_sum(order.remove(q), amounts, sel, decided, pos),
    decreases q - pos,
{
    if pos == q {
        lemma_ordered_sum_shift(order, amounts, sel, decided, q, pos + 1);
    } else {
        assert(order.remove(q)[pos] == order[pos]);
        lemma_ordered_sum_remove(order, amounts, sel, decided, q, pos + 1);
    }
}

proof fn lemma_ordered_sum_same_terms(
    order: Seq<(usize, KnapsackItem)>,
    amounts: Seq<nat>,
    sel1: Seq<u8>,
    d1: int,
    sel2: Seq<u8>,
    d2: int,
    pos: int,
)
    requires
        0 <= pos,
        forall|p: int|
            pos <= p < order.len() ==> term(amounts, sel1, d1, (#[trigger] order[p]).0 as int)
                == term(amounts, sel2, d2, order[p].0 as int),
    ensures
        ordered_sum(order, amounts, sel1, d1, pos) == ordered_sum(order, amounts, sel2, d2, pos),
    decreases order.len() - pos,
{
    if pos < order.len() {
        assert(term(amounts, sel1, d1, order[pos].0 as int) == term(
            amounts,
            sel2,
            d2,
            order[pos].0 as int,
        ));
        lemma_ordered_sum_same_terms(order, amounts, sel1, d1, sel2, d2, pos + 1);
    }
}

/// Walking the undecided items in any order that names each index once gives
/// the same sum as walking them by index.
pub proof fn lemma_ordered_sum_is_rest(
    order: Seq<(usize, KnapsackItem)>,
    amounts: Seq<nat>,
    sel: Seq<u8>,
    decided: int,
)
    requires
        is_permutation(order, sel.len()),
        0 <= decided <= sel.len(),
    ensures
        ordered_sum(order, amounts, sel, decided, 0) + selected_sum(
            amounts,
            sel.take(decided),
        ) == selected_sum(amounts, sel),
    decreases sel.len(),
{
    let m = sel.len();
    if decided == m {
        assert(sel.take(decided) == sel);
        lemma_ordered_sum_same_terms(order, amounts, sel, decided, Seq::empty(), 0, 0);
        lemma_ordered_sum_none(order, amounts, 0);
    } else {
        let top: int = m - 1;
        assert(occurs(order, top));
        let q = choose|q: int| occurs_at(order, q, top);
        let fewer = order.remove(q);
        let init = sel.drop_last();
        assert forall|i: int| 0 <= i < m - 1 implies #[trigger] occurs(fewer, i) by {
            assert(occurs(order, i));
            let p = choose|p: int| occurs_at(order, p, i);
            if p < q {
                assert(occurs_at(fewer, p, i));
            } else {
                assert(occurs_at(fewer, p - 1, i));
            }
        }
        assert forall|p: int| 0 <= p < fewer.len() implies (#[trigger] fewer[p]).0 < m - 1 by {
            if p < q {
                assert(fewer[p] == order[p]);
            } else {
                assert(fewer[p] == order[p + 1]);
            }
        }
        assert forall|p: int, r: int| 0 <= p < r < fewer.len() implies (#[trigger] fewer[p]).0 != (
        #[trigger] fewer[r]).0 by {
            let p0 = if p < q { p } else { p + 1 };
            let r0 = if r < q { r } else { r + 1 };
            assert(fewer[p] == order[p0] && fewer[r] == order[r0]);
        }
        lemma_ordered_sum_remove(order, amounts, sel, decided, q, 0);
        lemma_ordered_sum_same_terms(fewer, amounts, sel, decided, init, decided, 0);
        lemma_ordered_sum_is_rest(fewer, amounts, init, decided);
        assert(init.take(decided as int) == sel.take(decided));
    }
}

proof fn lemma_ordered_sum_none(order: Seq<(usize, KnapsackItem)>, amounts: Seq<nat>, pos: int)
    requires
        0 <= pos,
    ensures
        ordered_sum(order, amounts, Seq::empty(), 0, pos) == 0,
    decreases order.len() - pos,
{
    if pos < order.len() {
        lemma_ordered_sum_none(order, amounts, pos + 1);
    }
}

/// A density ordering names each index once.
pub proof fn lemma_ordering_is_permutation(
    items: Seq<KnapsackItem>,
    order: Seq<(usize, KnapsackItem)>,
)
    requires
        is_density_ordering(items, order),
    ensures
        is_permutation(order, items.len()),
{
    assert forall|p: int, q: int| 0 <= p < q < order.len() implies (#[trigger] order[p]).0 != (
    #[trigger] order[q]).0 by {
        assert(ranks_before(order[p], order[q]));
    }
}

/// Where the greedy walk from `pos` stops: at the first undecided item that
/// no longer fits, or behind the last position.
pub open spec fn stop_pos(order: Seq<(usize, KnapsackItem)>, pos: int, room: int, decided: int) -> int
    decreases order.len() - pos,
{
    if pos < 0 || pos >= order.len() {
        order.len() as int
    } else if order[pos].0 < decided {
        stop_pos(order, pos + 1, room, decided)
    } else if order[pos].1.weight <= room {
        stop_pos(order, pos + 1, room - order[pos].1.weight, decided)
    } else {
        pos
    }
}

/// The room that is left where the greedy walk from `pos` stops.
pub open spec fn stop_room(order: Seq<(usize, KnapsackItem)>, pos: int, room: int, decided: int) -> int
    decreases order.len() - pos,
{
    if pos < 0 || pos >= order.len() {
        room
    } else if order[pos].0 < decided {
        stop_room(order, pos + 1, room, decided)
    } else if order[pos].1.weight <= room {
        stop_room(order, pos + 1, room - order[pos].1.weight, decided)
    } else {
        room
    }
}

/// Behind an item `order[k]` that has weight, what a selection takes is worth
/// no more per unit of weight than that item.
proof fn lemma_tail_density(
    items: Seq<KnapsackItem>,
    order: Seq<(usize, KnapsackItem)>,
    sel: Seq<u8>,
    decided: int,
    k: int,
    pos: int,
)
    requires
        is_density_ordering(items, order),
        sel.len() == items.len(),
        0 <= k <= pos <= order.len(),
        k < order.len(),
        order[k].1.weight > 0,
    ensures
        order[k].1.weight * ordered_sum(order, values(items), sel, decided, pos) <= order[k].1.value
            * ordered_sum(order, weights(items), sel, decided, pos),
    decreases order.len() - pos,
{
    if pos < order.len() {
        lemma_tail_density(items, order, sel, decided, k, pos + 1);
        let w = order[k].1.weight as int;
        let v = order[k].1.value as int;
        let wi = order[pos].1.weight as int;
        let vi = order[pos].1.value as int;
        let sv = ordered_sum(order, values(items), sel, decided, pos + 1) as int;
        let sw = ordered_sum(order, weights(items), sel, decided, pos + 1) as int;
        if pos > k {
            assert(ranks_before(order[k], order[pos]));
        }
        assert(!denser(order[pos].1, order[k].1));
        assert(w * vi <= v * wi) by (nonlinear_arith)
            requires
                vi * w <= v * wi,
        ;
        let i = order[pos].0 as int;
        assert(values(items)[i] == vi && weights(items)[i] == wi);
        let tv = ordered_sum(order, values(items), sel, decided, pos) as int;
        let tw = ordered_sum(order, weights(items), sel, decided, pos) as int;
        if decided <= i < sel.len() && sel[i] == 1 {
            assert(w * tv <= v * tw) by (nonlinear_arith)
                requires
                    tv == vi + sv,
                    tw == wi + sw,
                    w * vi <= v * wi,
                    w * sv <= v * sw,
            ;
        } else {
            assert(tv == sv && tw == sw);
        }
        assert(w * tv <= v * tw);
    } else {
        let tv = ordered_sum(order, values(items), sel, decided, pos) as int;
        let tw = ordered_sum(order, weights(items), sel, decided, pos) as int;
        assert(tv == 0 && tw == 0);
    }
}

/// The exchange argument along the greedy walk. If the walk takes every
/// undecided item, nothing can be worth more. If it stops at an item of value
/// `v` and weight `w`, each item before it is at least as dense and each item
/// behind it at most as dense, which is stated here with both sides
/// multiplied by `w`.
proof fn lemma_walk(
    items: Seq<KnapsackItem>,
    order: Seq<(usize, KnapsackItem)>,
    sel: Seq<u8>,
    decided: int,
    pos: int,
    room: int,
)
    requires
        is_density_ordering(items, order),
        sel.len() == items.len(),
        0 <= pos <= order.len(),
        0 <= room,
    ensures
        ({
            let k = stop_pos(order, pos, room, decided);
            let left = stop_room(order, pos, room, decided);
            let sv = ordered_sum(order, values(items), sel, decided, pos) as int;
            let sw = ordered_sum(order, weights(items), sel, decided, pos) as int;
            let r = relaxation(order, pos, room, decided);
            &&& pos <= k <= order.len()
            &&& 0 <= left
            &&& k == order.len() ==> sv <= r
            &&& k < order.len() ==> {
                let v = order[k].1.value as int;
                let w = order[k].1.weight as int;
                &&& w > left
                &&& w * sv + v * room <= w * (r - (left * v) / w) + v * sw + v * left
            }
        }),
    decreases order.len() - pos,
{
    if pos < order.len() {
        let i = order[pos].0 as int;
        let vi = order[pos].1.value as int;
        let wi = order[pos].1.weight as int;
        assert(values(items)[i] == vi && weights(items)[i] == wi);
        let k = stop_pos(order, pos, room, decided);
        let left = stop_room(order, pos, room, decided);
        let r = relaxation(order, pos, room, decided);
        if i < decided {
            lemma_walk(items, order, sel, decided, pos + 1, room);
        } else if wi <= room {
            lemma_walk(items, order, sel, decided, pos + 1, room - wi);
            if k < order.len() {
                let v = order[k].1.value as int;
                let w = order[k].1.weight as int;
                let sv = ordered_sum(order, values(items), sel, decided, pos + 1) as int;
                let sw = ordered_sum(order, weights(items), sel, decided, pos + 1) as int;
                let whole = relaxation(order, pos + 1, room - wi, decided) - (left * v) / w;
                assert(ranks_before(order[pos], order[k]));
                assert(!denser(order[k].1, order[pos].1));
                assert(v * wi <= w * vi) by (nonlinear_arith)
                    requires
                        wi == 0 || v * wi <= vi * w,
                        0 <= w,
                        0 <= vi,
                ;
                let tv = ordered_sum(order, values(items), sel, decided, pos) as int;
                let tw = ordered_sum(order, weights(items), sel, decided, pos) as int;
                let frac = (left * v) / w;
                assert(r - frac == vi + whole);
                if decided <= i < sel.len() && sel[i] == 1 {
                    assert(w * tv + v * room <= w * (r - frac) + v * tw + v * left)
                        by (nonlinear_arith)
                        requires
                            tv == vi + sv,
                            tw == wi + sw,
                            r - frac == vi + whole,
                            w * sv + v * (room - wi) <= w * whole + v * sw + v * left,
                    ;
                } else {
                    assert(w * tv + v * room <= w * (r - frac) + v * tw + v * left)
                        by (nonlinear_arith)
                        requires
                            tv == sv,
                            tw == sw,
                            r - frac == vi + whole,
                            w * sv + v * (room - wi) <= w * whole + v * sw + v * left,
                            v * wi <= w * vi,
                    ;
                }
            }
        } else {
            lemma_tail_density(items, order, sel, decided, pos, pos);
            let v = vi;
            let w = wi;
            let sv = ordered_sum(order, values(items), sel, decided, pos) as int;
            let sw = ordered_sum(order, weights(items), sel, decided, pos) as int;
            assert(r == (room * v) / w);
            assert(left == room);
            let frac = (left * v) / w;
            assert(w * sv + v * room <= w * (r - frac) + v * sw + v * left) by (nonlinear_arith)
                requires
                    r - frac == 0,
                    left == room,
                    w * sv <= v * sw,
            ;
        }
    }
}

/// The greedy walk adds nothing negative, and no more than all the undecided
/// items are worth together.
pub proof fn lemma_relaxation_range(
    items: Seq<KnapsackItem>,
    order: Seq<(usize, KnapsackItem)>,
    decided: int,
    pos: int,
    room: int,
)
    requires
        is_density_ordering(items, order),
        0 <= pos <= order.len(),
        0 <= room,
    ensures
        0 <= relaxation(order, pos, room, decided) <= ordered_sum(
            order,
            values(items),
            all_taken(items.len()),
            decided,
            pos,
        ),
    decreases order.len() - pos,
{
    if pos < order.len() {
        let i = order[pos].0 as int;
        let v = order[pos].1.value as int;
        let w = order[pos].1.weight as int;
        assert(values(items)[i] == v);
        if i < decided {
            lemma_relaxation_range(items, order, decided, pos + 1, room);
        } else if w <= room {
            lemma_relaxation_range(items, order, decided, pos + 1, room - w);
        } else {
            assert(0 <= (room * v) / w <= v) by (nonlinear_arith)
                requires
                    0 <= room < w,
                    0 <= v,
            ;
        }
    }
}

/// The relaxation never exceeds what all the undecided items are worth.
pub proof fn lemma_relaxation_at_most_rest(
    items: Seq<KnapsackItem>,
    order: Seq<(usize, KnapsackItem)>,
    decided: int,
    room: int,
)
    requires
        is_density_ordering(items, order),
        0 <= decided <= items.len(),
        0 <= room,
    ensures
        0 <= relaxation(order, 0, room, decided) <= rest_value(items, decided as nat),
{
    let n = items.len();
    lemma_relaxation_range(items, order, decided, 0, room);
    lemma_ordering_is_permutation(items, order);
    lemma_ordered_sum_is_rest(order, values(items), all_taken(n), decided);
    assert(all_taken(n).take(decided) == all_taken(decided as nat));
}

/// Bound soundness: whatever feasible selection completes the first `decided`
/// decisions of `sel`, it is worth no more than the relaxation bound of that
/// prefix.
pub proof fn lemma_bound_sound(
    items: Seq<KnapsackItem>,
    order: Seq<(usize, KnapsackItem)>,
    capacity: nat,
    sel: Seq<u8>,
    decided: int,
)
    requires
        is_density_ordering(items, order),
        feasible(items, capacity, sel),
        0 <= decided <= items.len(),
    ensures
        selected_weight(items, sel.take(decided)) <= capacity,
        selected_value(items, sel) <= relaxation_bound(
            order,
            capacity as int,
            selected_value(items, sel.take(decided)) as int,
            selected_weight(items, sel.take(decided)) as int,
            decided,
        ),
{
    lemma_ordering_is_permutation(items, order);
    lemma_ordered_sum_is_rest(order, values(items), sel, decided);
    lemma_ordered_sum_is_rest(order, weights(items), sel, decided);
    lemma_sum_prefix(weights(items), sel, decided);
    let room = capacity - selected_weight(items, sel.take(decided));
    lemma_walk(items, order, sel, decided, 0, room);
    let k = stop_pos(order, 0, room, decided);
    if k < order.len() {
        let left = stop_room(order, 0, room, decided);
        let sv = ordered_sum(order, values(items), sel, decided, 0) as int;
        let sw = ordered_sum(order, weights(items), sel, decided, 0) as int;
        let r = relaxation(order, 0, room, decided);
        let v = order[k].1.value as int;
        let w = order[k].1.weight as int;
        let frac = (left * v) / w;
        assert(sv - (r - frac) <= frac) by (nonlinear_arith)
            requires
                w * sv + v * room <= w * (r - frac) + v * sw + v * left,
                sw <= room,
                frac == (left * v) / w,
                w > 0,
                v >= 0,
        {
            assert(v * sw <= v * room);
            assert(w * (sv - (r - frac)) <= left * v);
        }
    }
}

/// The relaxation bound of a partial assignment: `current_value` plus what
/// the greedy walk over the undecided items adds in the room that is left.
pub fn calc_best_relaxation_fractionals(
    sorted_items: &Vec<(usize, KnapsackItem)>,
    problem: &KnapsackProblem,
    current_value: usize,
    current_weight: usize,
    items_visited: usize,
) -> (bound: usize)
    requires
        problem.wf(),
        is_density_ordering(problem.treasure_items@, sorted_items@),
        current_weight <= problem.capacity,
        items_visited <= problem.n_items,
        current_value + rest_value(problem.treasure_items@, items_visited as nat) <= usize::MAX,
    ensures
        bound == relaxation_bound(
            sorted_items@,
            problem.capacity as int,
            current_value as int,
            current_weight as int,
            items_visited as int,
        ),
        bound >= current_value,
{
    let mut best: usize = current_value;
    let mut room: usize = problem.capacity - current_weight;
    let mut pos: usize = 0;
    let ghost total = relaxation_bound(
        sorted_items@,
        problem.capacity as int,
        current_value as int,
        current_weight as int,
        items_visited as int,
    );
    proof {
        lemma_relaxation_at_most_rest(
            problem.treasure_items@,
            sorted_items@,
            items_visited as int,
            room as int,
        );
    }
    while pos < sorted_items.len()
        invariant_except_break
            best + relaxation(sorted_items@, pos as int, room as int, items_visited as int)
                == total,
        invariant
            pos <= sorted_items.len(),
            is_density_ordering(problem.treasure_items@, sorted_items@),
            current_value <= total <= usize::MAX,
        ensures
            best == total,
        decreases sorted_items.len() - pos,
    {
        let (idx, item) = sorted_items[pos];
        if idx >= items_visited {
            if item.weight <= room {
                proof {
                    lemma_relaxation_range(
                        problem.treasure_items@,
                        sorted_items@,
                        items_visited as int,
                        pos + 1,
                        room - item.weight,
                    );
                }
                best += item.value;
                room -= item.weight;
            } else {
                proof {
                    let (r0, v0, w0) = (room as int, item.value as int, item.weight as int);
                    if room == 0 {
                        assert((r0 * v0) / w0 == 0) by (nonlinear_arith)
                            requires
                                r0 == 0,
                                w0 > 0,
                        ;
                    }
                }
                if room > 0 {
                    let r: u128 = room as u128;
                    let v: u128 = item.value as u128;
                    let w: u128 = item.weight as u128;
                    assert(r * v <= 0xFFFF_FFFF_FFFF_FFFF * 0xFFFF_FFFF_FFFF_FFFF
                        && (r * v) / (w as int) <= v) by (nonlinear_arith)
                        requires
                            0 <= r < w,
                            r <= 0xFFFF_FFFF_FFFF_FFFF,
                            0 <= v <= 0xFFFF_FFFF_FFFF_FFFF,
                    ;
                    let part: u128 = r * v / w;
                    assert(part == (room * item.value) / (item.weight as int));
                    best += part as usize;
                }
                break ;
            }
        }
        pos += 1;
    }
    best
}

} // verus!
