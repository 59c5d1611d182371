//! The traversals written out as functions of the successor lists.
//!
//! Which node a breadth-first traversal visits next among several at the
//! same distance depends on the order of the successor lists. The functions
//! here fix that order, so that the result of a query is a function of the
//! graph and of what was asked, and nothing else.

use vstd::prelude::*;

verus! {

/// The successors of `u` in the order in which they are listed; none where
/// `u` has no list.
pub open spec fn list_of(lists: Map<usize, Seq<usize>>, u: usize) -> Seq<usize> {
    if lists.contains_key(u) {
        lists[u]
    } else {
        Seq::empty()
    }
}

/// The nodes seen so far and those that wait to be expanded.
pub struct Frontier {
    pub seen: Set<usize>,
    pub queue: Seq<usize>,
}

impl Frontier {
    /// Only `start` is seen, and it waits.
    pub open spec fn initial(start: usize) -> Frontier {
        Frontier { seen: set![start], queue: seq![start] }
    }

    /// `list` is looked through from position `from` to its end: each
    /// node not seen before is marked and queued.
    pub open spec fn scan(self, list: Seq<usize>, from: int) -> Frontier
        decreases list.len() - from,
    {
        if from < 0 || from >= list.len() {
            self
        } else if self.seen.contains(list[from]) {
            self.scan(list, from + 1)
        } else {
            Frontier { seen: self.seen.insert(list[from]), queue: self.queue.push(list[from]) }.scan(
                list,
                from + 1,
            )
        }
    }

    /// The nodes in the order in which they leave the queue, for at most
    /// `steps` of them.
    pub open spec fn visits(self, lists: Map<usize, Seq<usize>>, steps: nat) -> Seq<usize>
        decreases steps,
    {
        if steps == 0 || self.queue.len() == 0 {
            Seq::empty()
        } else {
            let node = self.queue[0];
            let rest = Frontier { queue: self.queue.drop_first(), ..self };
            seq![node] + rest.scan(list_of(lists, node), 0).visits(lists, (steps - 1) as nat)
        }
    }
}

/// What a search for a path has recorded: the nodes found so far, those
/// that wait to be expanded, and for each found node but the first the node
/// from which it was found.
pub struct Routes {
    pub found: Set<usize>,
    pub queue: Seq<usize>,
    pub previous: Map<usize, usize>,
}

impl Routes {
    /// Only `start` is found, and it waits.
    pub open spec fn initial(start: usize) -> Routes {
        Routes { found: set![start], queue: seq![start], previous: Map::empty() }
    }

    /// The first `upto` entries of `list`, the successors of `node`, are
    /// looked through from the last to the first: each node not found
    /// before is marked, queued, and recorded as found from `node`.
    pub open spec fn scan_back(self, list: Seq<usize>, upto: int, node: usize) -> Routes
        decreases upto,
    {
        if upto <= 0 || upto > list.len() {
            self
        } else if self.found.contains(list[upto - 1]) {
            self.scan_back(list, upto - 1, node)
        } else {
            Routes {
                found: self.found.insert(list[upto - 1]),
                queue: self.queue.push(list[upto - 1]),
                previous: self.previous.insert(list[upto - 1], node),
            }.scan_back(list, upto - 1, node)
        }
    }

    /// The record at the moment the search stops: when `end` comes to the
    /// head of the queue, when the queue is empty, or after `steps`
    /// expansions.
    pub open spec fn search_for(self, lists: Map<usize, Seq<usize>>, end: usize, steps: nat) -> Routes
        decreases steps,
    {
        if steps == 0 || self.queue.len() == 0 || self.queue[0] == end {
            self
        } else {
            let node = self.queue[0];
            let list = list_of(lists, node);
            let rest = Routes { queue: self.queue.drop_first(), ..self };
            rest.scan_back(list, list.len() as int, node).search_for(lists, end, (steps - 1) as nat)
        }
    }

    /// The nodes met on the way back from `node` to `start` along the
    /// recorded predecessors, `node` first, over at most `steps` edges.
    pub open spec fn walk_back(self, start: usize, node: usize, steps: nat) -> Seq<usize>
        decreases steps,
    {
        if node == start || steps == 0 || !self.previous.contains_key(node) {
            seq![node]
        } else {
            seq![node] + self.walk_back(start, self.previous[node], (steps - 1) as nat)
        }
    }
}

} // verus!
