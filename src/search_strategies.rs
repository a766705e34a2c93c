//! Frontier disciplines for the search.
//!
//! A frontier holds the items waiting to be explored. Its model is the
//! sequence of those items in the order in which they were inserted, and the
//! index of the item that the next removal takes; that index is what tells
//! the disciplines apart:
//!
//! - depth-first: the last item inserted (a stack);
//! - breadth-first: the first item inserted (a queue);
//! - best-first: the first inserted among those of least total cost.
use std::collections::VecDeque;
use vstd::prelude::*;

use crate::board::{heuristic, BoardWithSteps};
use crate::solver::ExplorerStrategy;

verus! {

/// A frontier: insert one item, remove one item, ask how many wait.
pub trait SearchStrategy<T>: Sized {
    /// The waiting items, in the order in which they were inserted.
    spec fn pending(&self) -> Seq<T>;

    /// The index in `pending` of the item that the next removal takes.
    spec fn next_index(&self) -> int;

    /// The frontier's internal invariant.
    spec fn well_formed(&self) -> bool;

    /// The removal policy, fixed when the frontier is made: together with
    /// `pending` it decides `next_index`, and no call changes it.
    spec fn policy(&self) -> int;

    /// Removes the item at `next_index`; `None` when nothing waits.
    fn get_next(&mut self) -> (r: Option<T>)
        requires
            old(self).well_formed(),
        ensures
            final(self).well_formed(),
            old(self).pending().len() == 0 ==> r is None && final(self).pending() == old(
                self,
            ).pending(),
            old(self).pending().len() > 0 ==> {
                let i = old(self).next_index();
                &&& 0 <= i < old(self).pending().len()
                &&& r == Some(old(self).pending()[i])
                &&& final(self).pending() == old(self).pending().remove(i)
            },
            final(self).policy() == old(self).policy(),
    ;

    /// Adds an item; this never fails.
    fn enqueue(&mut self, node: T)
        requires
            old(self).well_formed(),
        ensures
            final(self).well_formed(),
            final(self).pending() == old(self).pending().push(node),
            final(self).policy() == old(self).policy(),
    ;

    /// The number of waiting items.
    fn len(&self) -> (r: usize)
        requires
            self.well_formed(),
        ensures
            r == self.pending().len(),
    ;
}

/// A depth-first or breadth-first frontier.
pub struct SimpleSearchStrategy<T> {
    nodes: VecDeque<T>,
    strategy: ExplorerStrategy,
}

impl<T> SimpleSearchStrategy<T> {
    /// An empty frontier with the discipline of `algorithm`.
    pub fn new(algorithm: ExplorerStrategy) -> (r: Self)
        ensures
            r.well_formed(),
            r.pending().len() == 0,
            r.discipline() == algorithm,
    {
        Self { nodes: VecDeque::new(), strategy: algorithm }
    }

    /// The discipline this frontier follows.
    pub open spec fn discipline(&self) -> ExplorerStrategy {
        if self.policy() == 0 {
            ExplorerStrategy::Dfs
        } else {
            ExplorerStrategy::Bfs
        }
    }
}

impl<T> SearchStrategy<T> for SimpleSearchStrategy<T> {
    closed spec fn pending(&self) -> Seq<T> {
        self.nodes@
    }

    /// Depth-first takes the newest item, breadth-first the oldest.
    open spec fn next_index(&self) -> int {
        match self.discipline() {
            ExplorerStrategy::Dfs => self.pending().len() - 1,
            ExplorerStrategy::Bfs => 0,
        }
    }

    open spec fn well_formed(&self) -> bool {
        true
    }

    /// `0` for depth-first, `1` for breadth-first.
    closed spec fn policy(&self) -> int {
        match self.strategy {
            ExplorerStrategy::Dfs => 0,
            ExplorerStrategy::Bfs => 1,
        }
    }

    fn get_next(&mut self) -> (r: Option<T>) {
        let r = match self.strategy {
            ExplorerStrategy::Bfs => self.nodes.pop_front(),
            ExplorerStrategy::Dfs => self.nodes.pop_back(),
        };
        proof {
            let old_nodes = old(self).nodes@;
            if old_nodes.len() > 0 {
                let i = old(self).next_index();
                assert(self.nodes@ =~= old_nodes.remove(i));
            }
        }
        r
    }

    fn enqueue(&mut self, node: T) {
        self.nodes.push_back(node);
    }

    fn len(&self) -> (r: usize) {
        self.nodes.len()
    }
}

/// Whether `i` is the first index of least cost in `costs`.
pub open spec fn is_first_min(costs: Seq<int>, i: int) -> bool {
    &&& 0 <= i < costs.len()
    &&& forall|j: int| 0 <= j < costs.len() ==> costs[i] <= #[trigger] costs[j]
    &&& forall|j: int| 0 <= j < i ==> costs[i] < #[trigger] costs[j]
}

/// The index of the first item of least cost in `costs`.
pub open spec fn first_min_index(costs: Seq<int>) -> int {
    choose|i: int| #[trigger] is_first_min(costs, i)
}

/// The total cost of an item: moves taken plus the heuristic.
pub open spec fn item_cost(item: BoardWithSteps) -> int {
    heuristic(item.0@) + item.1
}

/// A best-first frontier: removal takes the item of least total cost, the
/// earliest inserted among equals.
pub struct HeuristicSearchStrategy {
    nodes: Vec<BoardWithSteps>,
    costs: Vec<u128>,
}

impl HeuristicSearchStrategy {
    /// An empty frontier.
    pub fn new() -> (r: Self)
        ensures
            r.well_formed(),
            r.pending().len() == 0,
    {
        Self { nodes: Vec::new(), costs: Vec::new() }
    }

}

impl SearchStrategy<BoardWithSteps> for HeuristicSearchStrategy {
    closed spec fn pending(&self) -> Seq<BoardWithSteps> {
        self.nodes@
    }

    /// The first item of least total cost.
    open spec fn next_index(&self) -> int {
        first_min_index(self.pending().map_values(|x| item_cost(x)))
    }

    /// A single policy: least total cost first.
    open spec fn policy(&self) -> int {
        0
    }

    closed spec fn well_formed(&self) -> bool {
        &&& self.costs@.len() == self.nodes@.len()
        &&& forall|i: int| 0 <= i < self.nodes@.len() ==> #[trigger] self.costs@[i] == item_cost(self.nodes@[i])
    }

    fn get_next(&mut self) -> (r: Option<BoardWithSteps>) {
        let n = self.nodes.len();
        if n == 0 {
            return None;
        }
        let ghost costs = self.nodes@.map_values(|x| item_cost(x));
        let mut best: usize = 0;
        let mut i: usize = 1;
        while i < n
            invariant
                self.well_formed(),
                n == self.nodes@.len(),
                costs == self.nodes@.map_values(|x| item_cost(x)),
                1 <= i <= n,
                best < i,
                forall|j: int| 0 <= j < i ==> costs[best as int] <= #[trigger] costs[j],
                forall|j: int| 0 <= j < best ==> costs[best as int] < #[trigger] costs[j],
            decreases n - i,
        {
            if self.costs[i] < self.costs[best] {
                best = i;
            }
            i = i + 1;
        }
        proof {
            assert(is_first_min(costs, best as int));
            let k = first_min_index(costs);
            if k != best as int {
                if k < best {
                    assert(costs[best as int] < costs[k]);
                } else {
                    assert(costs[k] < costs[best as int]);
                }
            }
        }
        let ghost before_costs = self.costs@;
        self.costs.remove(best);
        let r = self.nodes.remove(best);
        proof {
            assert forall|i: int| 0 <= i < self.nodes@.len() implies #[trigger] self.costs@[i] == item_cost(self.nodes@[i]) by {
                if i < best {
                    assert(self.costs@[i] == before_costs[i]);
                } else {
                    assert(self.costs@[i] == before_costs[i + 1]);
                }
            }
        }
        Some(r)
    }

    fn enqueue(&mut self, node: BoardWithSteps) {
        let c = node.0.total_cost(node.1);
        self.nodes.push(node);
        self.costs.push(c);
        proof {
            assert forall|i: int| 0 <= i < self.nodes@.len() implies #[trigger] self.costs@[i] == item_cost(self.nodes@[i]) by {
                if i < self.nodes@.len() - 1 {
                    assert(self.costs@[i] == old(self).costs@[i]);
                }
            }
        }
    }

    fn len(&self) -> (r: usize) {
        self.nodes.len()
    }
}

} // verus!
