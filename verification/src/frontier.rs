//! The search frontier: the open nodes in a binary max-heap, so that the node
//! with the highest bound is handed out first.

use crate::node::{BranchAndBoundNode, NodeView};
use vstd::multiset::Multiset;
use vstd::prelude::*;
use vstd::seq_lib::{to_multiset_build, to_multiset_update};

verus! {

/// The open nodes of a search, laid out as a binary heap: the node at
/// position `k` has its parent at position `(k - 1) / 2`.
pub struct Frontier {
    pub nodes: Vec<BranchAndBoundNode>,
}

impl View for Frontier {
    type V = Seq<NodeView>;

    open spec fn view(&self) -> Seq<NodeView> {
        Seq::new(self.nodes@.len(), |i: int| self.nodes@[i]@)
    }
}

/// The position of the parent of position `k`.
pub open spec fn parent(k: int) -> int {
    (k - 1) / 2
}

/// The bound at position `k` is no higher than that of its parent.
pub open spec fn under_parent(nodes: Seq<NodeView>, k: int) -> bool {
    nodes[parent(k)].best_relaxation >= nodes[k].best_relaxation
}

/// The bound at position `k` is no higher than that of its grandparent.
pub open spec fn under_grandparent(nodes: Seq<NodeView>, k: int) -> bool {
    nodes[parent(parent(k))].best_relaxation >= nodes[k].best_relaxation
}

/// No node has a higher bound than its parent.
pub open spec fn is_heap(nodes: Seq<NodeView>) -> bool {
    forall|k: int| 1 <= k < nodes.len() ==> #[trigger] under_parent(nodes, k)
}

/// A heap but for position `at`, whose node may have a higher bound than its
/// parent.
pub open spec fn is_heap_but_above(nodes: Seq<NodeView>, at: int) -> bool {
    &&& forall|k: int| 1 <= k < nodes.len() && k != at ==> #[trigger] under_parent(nodes, k)
    &&& forall|k: int|
        1 <= k < nodes.len() && parent(k) == at && at >= 1 ==> #[trigger] under_grandparent(
            nodes,
            k,
        )
}

/// A heap but for position `at`, whose node may have a lower bound than its
/// children.
pub open spec fn is_heap_but_below(nodes: Seq<NodeView>, at: int) -> bool {
    &&& forall|k: int|
        1 <= k < nodes.len() && parent(k) != at ==> #[trigger] under_parent(nodes, k)
    &&& forall|k: int|
        1 <= k < nodes.len() && parent(k) == at && at >= 1 ==> #[trigger] under_grandparent(
            nodes,
            k,
        )
}

/// `nodes` with the nodes at positions `i` and `j` exchanged.
pub open spec fn exchanged(nodes: Seq<NodeView>, i: int, j: int) -> Seq<NodeView> {
    nodes.update(i, nodes[j]).update(j, nodes[i])
}

/// The nodes of `nodes` that can still improve on a value of `floor`: those
/// whose bound is higher.
pub open spec fn promising(nodes: Multiset<NodeView>, floor: usize) -> Multiset<NodeView> {
    nodes.filter(|n: NodeView| n.best_relaxation > floor)
}

/// No node of `nodes` has a higher bound than `top`.
pub open spec fn is_highest(nodes: Seq<NodeView>, top: NodeView) -> bool {
    forall|k: int| 0 <= k < nodes.len() ==> (#[trigger] nodes[k]).best_relaxation
        <= top.best_relaxation
}

/// The root of a heap has the highest bound.
pub proof fn lemma_heap_root_is_highest(nodes: Seq<NodeView>)
    requires
        is_heap(nodes),
        nodes.len() > 0,
    ensures
        is_highest(nodes, nodes[0]),
{
    assert forall|k: int| 0 <= k < nodes.len() implies (#[trigger] nodes[k]).best_relaxation
        <= nodes[0].best_relaxation by {
        lemma_under_root(nodes, k);
    }
}

proof fn lemma_under_root(nodes: Seq<NodeView>, k: int)
    requires
        is_heap(nodes),
        0 <= k < nodes.len(),
    ensures
        nodes[k].best_relaxation <= nodes[0].best_relaxation,
    decreases k,
{
    if k > 0 {
        assert(under_parent(nodes, k));
        lemma_under_root(nodes, parent(k));
    }
}

/// Exchanging two nodes keeps the nodes, counted with multiplicity.
pub proof fn lemma_exchanged_same_nodes(nodes: Seq<NodeView>, i: int, j: int)
    requires
        0 <= i < nodes.len(),
        0 <= j < nodes.len(),
    ensures
        exchanged(nodes, i, j).to_multiset() == nodes.to_multiset(),
{
    broadcast use vstd::multiset::group_multiset_axioms;

    let half = nodes.update(i, nodes[j]);
    to_multiset_update(nodes, i, nodes[j]);
    to_multiset_update(half, j, nodes[i]);
    vstd::seq_lib::to_multiset_contains(nodes, nodes[i]);
    vstd::seq_lib::to_multiset_contains(nodes, nodes[j]);
    assert(nodes.contains(nodes[i]) && nodes.contains(nodes[j]));
    assert(exchanged(nodes, i, j).to_multiset() =~= nodes.to_multiset());
}

impl Frontier {
    /// The nodes form a heap.
    pub open spec fn wf(&self) -> bool {
        is_heap(self@)
    }

    /// A frontier without nodes.
    pub fn new() -> (frontier: Frontier)
        ensures
            frontier@ == Seq::<NodeView>::empty(),
            frontier.wf(),
    {
        let frontier = Frontier { nodes: Vec::new() };
        assert(frontier@ =~= Seq::<NodeView>::empty());
        frontier
    }

    /// The number of open nodes.
    pub fn len(&self) -> (n: usize)
        ensures
            n == self@.len(),
    {
        self.nodes.len()
    }

    /// Exchanges the nodes at positions `i` and `j`.
    fn exchange(&mut self, i: usize, j: usize)
        requires
            i < j < old(self)@.len(),
        ensures
            final(self)@ == exchanged(old(self)@, i as int, j as int),
            final(self).nodes@.len() == old(self).nodes@.len(),
    {
        let slice = self.nodes.as_mut_slice();
        let (left, right) = slice.split_at_mut(j);
        let (_, middle) = left.split_at_mut(i);
        match (middle.first_mut(), right.first_mut()) {
            (Some(a), Some(b)) => {
                core::mem::swap(a, b);
            },
            _ => {},
        }
        assert(self@ =~= exchanged(old(self)@, i as int, j as int));
    }

    /// Adds `node` to the open nodes.
    pub fn insert(&mut self, node: BranchAndBoundNode)
        requires
            old(self).wf(),
        ensures
            final(self).wf(),
            final(self)@.to_multiset() == old(self)@.to_multiset().insert(node@),
    {
        self.nodes.push(node);
        let mut at: usize = self.nodes.len() - 1;
        proof {
            assert(self@ =~= old(self)@.push(node@));
            to_multiset_build(old(self)@, node@);
            assert forall|k: int| 1 <= k < self@.len() && k != at implies #[trigger] under_parent(
                self@,
                k,
            ) by {
                assert(under_parent(old(self)@, k));
            }
        }
        loop
            invariant
                at < self@.len(),
                self@.len() == self.nodes@.len(),
                is_heap_but_above(self@, at as int),
                self@.to_multiset() == old(self)@.to_multiset().insert(node@),
            ensures
                is_heap(self@),
                self@.to_multiset() == old(self)@.to_multiset().insert(node@),
            decreases at,
        {
            if at == 0 {
                proof {
                    assert forall|k: int| 1 <= k < self@.len() implies #[trigger] under_parent(
                        self@,
                        k,
                    ) by {
                    }
                }
                break ;
            }
            let up = (at - 1) / 2;
            if self.nodes[up].best_relaxation >= self.nodes[at].best_relaxation {
                proof {
                    assert(self@[up as int] == self.nodes@[up as int]@);
                    assert(self@[at as int] == self.nodes@[at as int]@);
                    assert forall|k: int| 1 <= k < self@.len() implies #[trigger] under_parent(
                        self@,
                        k,
                    ) by {
                    }
                }
                break ;
            }
            let ghost before = self@;
            proof {
                assert(before[up as int] == self.nodes@[up as int]@);
                assert(before[at as int] == self.nodes@[at as int]@);
            }
            self.exchange(up, at);
            proof {
                lemma_exchanged_same_nodes(before, up as int, at as int);
                assert forall|k: int|
                    1 <= k < self@.len() && k != up implies #[trigger] under_parent(self@, k) by {
                    if k == at {
                    } else if parent(k) == at {
                        assert(under_grandparent(before, k));
                    } else {
                        assert(under_parent(before, k));
                    }
                }
                assert forall|k: int|
                    1 <= k < self@.len() && parent(k) == up && up
                        >= 1 implies #[trigger] under_grandparent(self@, k) by {
                    assert(under_parent(before, up as int));
                    if k != at {
                        assert(under_parent(before, k));
                    }
                }
            }
            at = up;
        }
    }

    /// Takes out a node with the highest bound; `None` if no node is open.
    pub fn extract_max(&mut self) -> (node: Option<BranchAndBoundNode>)
        requires
            old(self).wf(),
        ensures
            final(self).wf(),
            old(self)@.len() == 0 ==> node is None && final(self)@ == old(self)@,
            old(self)@.len() > 0 ==> node is Some && old(self)@.to_multiset().contains(
                node.unwrap()@,
            ) && is_highest(old(self)@, node.unwrap()@) && final(self)@.to_multiset() == old(
                self,
            )@.to_multiset().remove(node.unwrap()@),
    {
        let len = self.nodes.len();
        if len == 0 {
            return None;
        }
        proof {
            lemma_heap_root_is_highest(self@);
        }
        if len > 1 {
            self.exchange(0, len - 1);
            proof {
                lemma_exchanged_same_nodes(old(self)@, 0, len - 1);
            }
        }
        let ghost moved = self@;
        assert(self.nodes@.len() == len);
        assert(moved[len - 1] == self.nodes@[len - 1]@);
        assert(moved[len - 1] == old(self)@[0]);
        let top = self.nodes.pop().unwrap();
        let ghost target = old(self)@.to_multiset().remove(top@);
        proof {
            broadcast use vstd::multiset::group_multiset_axioms;

            assert(self@ =~= moved.drop_last());
            assert(moved == self@.push(top@));
            to_multiset_build(self@, top@);
            assert(self@.to_multiset() =~= target);
            vstd::seq_lib::to_multiset_contains(old(self)@, top@);
            assert(old(self)@[0] == top@);
            assert(old(self)@.contains(top@));
            assert forall|k: int|
                1 <= k < self@.len() && parent(k) != 0 implies #[trigger] under_parent(self@, k) by {
                assert(under_parent(old(self)@, k));
            }
        }
        let mut at: usize = 0;
        loop
            invariant
                self@.len() == len - 1,
                at < len,
                is_heap_but_below(self@, at as int),
                self@.to_multiset() == target,
            ensures
                is_heap(self@),
                self@.to_multiset() == target,
            decreases len - at,
        {
            if at > (usize::MAX - 2) / 2 || 2 * at + 1 >= self.nodes.len() {
                proof {
                    assert forall|k: int| 1 <= k < self@.len() implies #[trigger] under_parent(
                        self@,
                        k,
                    ) by {
                    }
                }
                break ;
            }
            let left = 2 * at + 1;
            let right = left + 1;
            let mut down = left;
            if right < self.nodes.len() && self.nodes[right].best_relaxation
                > self.nodes[left].best_relaxation {
                down = right;
            }
            if self.nodes[down].best_relaxation <= self.nodes[at].best_relaxation {
                proof {
                    assert forall|k: int| 1 <= k < self@.len() implies #[trigger] under_parent(
                        self@,
                        k,
                    ) by {
                        if parent(k) == at {
                            assert(k == left || k == right);
                        }
                    }
                }
                break ;
            }
            let ghost before = self@;
            self.exchange(at, down);
            proof {
                lemma_exchanged_same_nodes(before, at as int, down as int);
                assert forall|k: int|
                    1 <= k < self@.len() && parent(k) != down implies #[trigger] under_parent(
                    self@,
                    k,
                ) by {
                    if k == at {
                        assert(under_grandparent(before, down as int));
                    } else if parent(k) == at {
                        assert(k == left || k == right);
                    } else {
                        assert(under_parent(before, k));
                    }
                }
                assert forall|k: int|
                    1 <= k < self@.len() && parent(k) == down && down
                        >= 1 implies #[trigger] under_grandparent(self@, k) by {
                    assert(under_parent(before, k));
                }
            }
            at = down;
        }
        Some(top)
    }

    /// Drops every node whose bound is at most `floor`; the others stay.
    pub fn compact(&mut self, floor: usize)
        requires
            old(self).wf(),
        ensures
            final(self).wf(),
            final(self)@.to_multiset() == promising(old(self)@.to_multiset(), floor),
    {
        let mut kept = Frontier::new();
        let ghost pred = |n: NodeView| n.best_relaxation > floor;
        let ghost all = old(self)@.to_multiset();
        proof {
            broadcast use vstd::multiset::group_multiset_axioms;

            vstd::seq_lib::to_multiset_len(kept@);
            assert(kept@.to_multiset() =~= Multiset::<NodeView>::empty());
            assert(all.filter(pred) =~= kept@.to_multiset().add(self@.to_multiset().filter(pred)));
        }
        while self.nodes.len() > 0
            invariant
                kept.wf(),
                pred == (|n: NodeView| n.best_relaxation > floor),
                all.filter(pred) == kept@.to_multiset().add(self@.to_multiset().filter(pred)),
            decreases self.nodes.len(),
        {
            let ghost before = self@;
            let ghost kept_before = kept@.to_multiset();
            let node = self.nodes.pop().unwrap();
            proof {
                assert(self@ =~= before.drop_last());
                assert(before == self@.push(node@));
                to_multiset_build(self@, node@);
            }
            if node.best_relaxation > floor {
                kept.insert(node);
            }
            proof {
                broadcast use vstd::multiset::group_multiset_axioms;

                assert(all.filter(pred) =~= kept@.to_multiset().add(
                    self@.to_multiset().filter(pred),
                ));
            }
        }
        proof {
            broadcast use vstd::multiset::group_multiset_axioms;

            assert(self@ =~= Seq::<NodeView>::empty());
            vstd::seq_lib::to_multiset_len(self@);
            assert(self@.to_multiset() =~= Multiset::<NodeView>::empty());
            assert(self@.to_multiset().filter(pred) =~= Multiset::<NodeView>::empty());
            assert(all.filter(pred) =~= kept@.to_multiset());
        }
        self.nodes = kept.nodes;
    }
}

} // verus!
