//! The state of a breadth-first search and the invariant that makes it
//! compute hop distances.
//!
//! A search from `start` discovers nodes, queues them, and expands them one
//! at a time in the order of discovery. [`Search`] is the ghost record of
//! that: which nodes have been expanded, which wait in the queue, and the
//! depth at which each node was discovered. The traversals of
//! [`crate::graph::Graph`] carry such a record beside their queue and move it
//! with the lemmas below; every step keeps the recorded depths equal to the
//! true distances.

use vstd::prelude::*;
use vstd::set_lib::lemma_len_subset;
use crate::paths::{
    connects, has_edge, is_distance, is_finite_graph, is_path, reachable, universe,
    lemma_extend_path, lemma_path_prefix, lemma_reachable_in_universe, lemma_trivial_path,
    lemma_universe_finite,
};

verus! {

/// What a breadth-first search has found so far.
pub struct Search {
    /// Nodes that were taken from the queue and whose successors have all
    /// been looked at.
    pub done: Set<usize>,
    /// Discovered nodes that wait to be expanded, oldest first.
    pub queue: Seq<usize>,
    /// Every discovered node, with the number of hops at which it was found.
    pub depth: Map<usize, nat>,
}

impl Search {
    /// Only `start` is known, and it waits in the queue.
    pub open spec fn initial(start: usize) -> Search {
        Search { done: Set::empty(), queue: seq![start], depth: map![start => 0nat] }
    }

    /// The head of the queue was taken out to be expanded.
    pub open spec fn dequeue(self) -> Search {
        Search { queue: self.queue.drop_first(), ..self }
    }

    /// While `from` is expanded, its successor `to` is seen for the first time.
    pub open spec fn discover(self, from: usize, to: usize) -> Search {
        Search {
            queue: self.queue.push(to),
            depth: self.depth.insert(to, self.depth[from] + 1),
            ..self
        }
    }

    /// All successors of `node` have been looked at.
    pub open spec fn finish(self, node: usize) -> Search {
        Search { done: self.done.insert(node), ..self }
    }

    /// An upper bound on the number of nodes still to be expanded.
    pub open spec fn remaining(self, g: Map<usize, Set<usize>>, start: usize) -> nat {
        (universe(g, start).len() - self.done.len()) as nat
    }

    /// Every recorded depth is the distance from `start`, which itself lies
    /// at depth 0. No depth reaches the size of the universe.
    pub open spec fn exact(self, g: Map<usize, Set<usize>>, start: usize) -> bool {
        &&& self.depth.contains_key(start)
        &&& self.depth[start] == 0
        &&& forall|v: usize| #[trigger]
            self.depth.contains_key(v) ==> is_distance(g, start, v, self.depth[v]) && self.depth[v]
                < universe(g, start).len()
    }

    /// What holds at every moment of a search of `g` from `start`.
    pub closed spec fn sound(self, g: Map<usize, Set<usize>>, start: usize) -> bool {
        &&& is_finite_graph(g)
        &&& self.done.finite()
        &&& self.depth.dom().finite()
        &&& self.queue.no_duplicates()
        &&& self.depth.contains_key(start)
        &&& forall|v: usize| #[trigger]
            self.depth.contains_key(v) ==> self.depth[v] < self.depth.dom().len()
        &&& forall|v: usize| #[trigger] self.done.contains(v) ==> self.depth.contains_key(v)
        &&& forall|i: int|
            0 <= i < self.queue.len() ==> self.depth.contains_key(#[trigger] self.queue[i])
                && !self.done.contains(self.queue[i])
        &&& forall|v: usize| #[trigger]
            self.depth.contains_key(v) ==> is_distance(g, start, v, self.depth[v])
        &&& forall|i: int, j: int|
            0 <= i <= j < self.queue.len() ==> self.depth[#[trigger] self.queue[i]]
                <= self.depth[#[trigger] self.queue[j]]
        &&& forall|u: usize, w: usize|
            #![trigger self.done.contains(u), has_edge(g, u, w)]
            self.done.contains(u) && has_edge(g, u, w) ==> self.depth.contains_key(w)
    }

    /// The invariant between two expansions: every discovered node is
    /// either expanded or queued, expanded nodes are no deeper than queued
    /// ones, and the queue spans at most two consecutive depths.
    pub closed spec fn settled(self, g: Map<usize, Set<usize>>, start: usize) -> bool {
        &&& self.sound(g, start)
        &&& forall|v: usize| #[trigger]
            self.depth.contains_key(v) ==> self.done.contains(v) || self.queue.contains(v)
        &&& forall|v: usize, i: int|
            self.done.contains(v) && 0 <= i < self.queue.len() ==> #[trigger] self.depth[v]
                <= self.depth[#[trigger] self.queue[i]]
        &&& forall|i: int|
            0 <= i < self.queue.len() ==> self.depth[#[trigger] self.queue[i]]
                <= self.depth[self.queue[0]] + 1
    }

    /// The invariant while `node` is being expanded: it has left the queue
    /// but does not count as done, and what is queued lies at its depth or
    /// one below.
    pub closed spec fn expanding(self, g: Map<usize, Set<usize>>, start: usize, node: usize) -> bool {
        &&& self.sound(g, start)
        &&& self.depth.contains_key(node)
        &&& !self.done.contains(node)
        &&& !self.queue.contains(node)
        &&& forall|v: usize| #[trigger]
            self.depth.contains_key(v) ==> v == node || self.done.contains(v)
                || self.queue.contains(v)
        &&& forall|v: usize| #[trigger] self.done.contains(v) ==> self.depth[v] <= self.depth[node]
        &&& forall|i: int|
            0 <= i < self.queue.len() ==> self.depth[node] <= self.depth[#[trigger] self.queue[i]]
                <= self.depth[node] + 1
    }
}

/// A search starts settled.
pub proof fn lemma_initial(g: Map<usize, Set<usize>>, start: usize)
    requires
        is_finite_graph(g),
    ensures
        Search::initial(start).settled(g, start),
{
    let s = Search::initial(start);
    lemma_trivial_path(g, start);
    assert(s.queue[0] == start);
    assert forall|v: usize| #[trigger] s.depth.contains_key(v) implies s.queue.contains(v) by {
        assert(s.queue[0] == v);
    }
}

/// Between two expansions, the recorded depths are exact.
pub proof fn lemma_settled_depths(s: Search, g: Map<usize, Set<usize>>, start: usize)
    requires
        s.settled(g, start),
    ensures
        s.exact(g, start),
{
    lemma_start_depth(s, g, start);
    lemma_depth_bound(s, g, start);
}

/// No recorded depth reaches the size of the universe.
proof fn lemma_depth_bound(s: Search, g: Map<usize, Set<usize>>, start: usize)
    requires
        s.sound(g, start),
    ensures
        forall|v: usize| #[trigger] s.depth.contains_key(v) ==> s.depth[v] < universe(g, start).len(),
{
    lemma_discovered_in_universe(s, g, start);
    lemma_universe_finite(g, start);
    assert(s.depth.dom().subset_of(universe(g, start)));
    lemma_len_subset(s.depth.dom(), universe(g, start));
}

proof fn lemma_start_depth(s: Search, g: Map<usize, Set<usize>>, start: usize)
    requires
        s.sound(g, start),
    ensures
        s.depth[start] == 0,
{
    lemma_trivial_path(g, start);
    assert(is_distance(g, start, start, s.depth[start]));
    assert(seq![start].len() >= s.depth[start] + 1);
}

/// Taking the head of the queue begins its expansion. No expanded node lies
/// deeper than the head, and the head's depth is below the number of
/// discovered nodes.
pub proof fn lemma_dequeue(s: Search, g: Map<usize, Set<usize>>, start: usize)
    requires
        s.settled(g, start),
        s.queue.len() > 0,
    ensures
        s.dequeue().expanding(g, start, s.queue[0]),
        s.depth.contains_key(s.queue[0]),
        !s.done.contains(s.queue[0]),
        s.depth.dom().finite(),
        s.depth[s.queue[0]] < s.depth.dom().len(),
        s.remaining(g, start) > 0,
        forall|v: usize| #[trigger] s.done.contains(v) ==> s.depth[v] <= s.depth[s.queue[0]],
{
    let node = s.queue[0];
    let t = s.dequeue();
    assert forall|i: int| 0 <= i < t.queue.len() implies #[trigger] t.queue[i] == s.queue[i + 1] by {}
    assert(!t.queue.contains(node)) by {
        if t.queue.contains(node) {
            let i = choose|i: int| 0 <= i < t.queue.len() && t.queue[i] == node;
            assert(s.queue[i + 1] == s.queue[0]);
        }
    }
    assert forall|v: usize| #[trigger] t.depth.contains_key(v) implies v == node || t.done.contains(v)
        || t.queue.contains(v) by {
        if !s.done.contains(v) && v != node {
            let i = choose|i: int| 0 <= i < s.queue.len() && s.queue[i] == v;
            assert(t.queue[i - 1] == v);
        }
    }
    assert(t.queue.no_duplicates()) by {
        assert forall|i: int, j: int| 0 <= i < t.queue.len() && 0 <= j < t.queue.len() && i != j
            implies t.queue[i] != t.queue[j] by {
            assert(s.queue[i + 1] != s.queue[j + 1]);
        }
    }
    assert forall|i: int| 0 <= i < t.queue.len() implies s.depth[node] <= s.depth[#[trigger] t.queue[i]]
        <= s.depth[node] + 1 by {
        assert(s.depth[s.queue[0]] <= s.depth[s.queue[i + 1]]);
    }
    assert forall|i: int, j: int| 0 <= i <= j < t.queue.len() implies t.depth[#[trigger] t.queue[i]]
        <= t.depth[#[trigger] t.queue[j]] by {
        assert(s.depth[s.queue[i + 1]] <= s.depth[s.queue[j + 1]]);
    }
    assert(s.remaining(g, start) > 0) by {
        let expanded = s.done.insert(node);
        lemma_discovered_in_universe(s, g, start);
        lemma_universe_finite(g, start);
        assert(expanded.subset_of(universe(g, start)));
        lemma_len_subset(expanded, universe(g, start));
    }
}

/// Every discovered node lies in the universe.
proof fn lemma_discovered_in_universe(s: Search, g: Map<usize, Set<usize>>, start: usize)
    requires
        s.sound(g, start),
    ensures
        forall|v: usize| #[trigger] s.depth.contains_key(v) ==> universe(g, start).contains(v),
{
    assert forall|v: usize| #[trigger] s.depth.contains_key(v) implies universe(g, start).contains(
        v,
    ) by {
        let p = choose|p: Seq<usize>| connects(g, p, start, v) && p.len() == s.depth[v] + 1;
        assert(connects(g, p, start, v));
        lemma_reachable_in_universe(g, start, v);
    }
}

/// On a path that starts at a discovered node and arrives at an
/// undiscovered one, some earlier node is discovered and not yet done.
proof fn lemma_crosses_frontier(s: Search, g: Map<usize, Set<usize>>, start: usize, p: Seq<usize>, k: int)
    -> (j: int)
    requires
        s.sound(g, start),
        is_path(g, p),
        0 <= k < p.len(),
        s.depth.contains_key(p[0]),
        !s.depth.contains_key(p[k]),
    ensures
        0 <= j < k,
        s.depth.contains_key(p[j]),
        !s.done.contains(p[j]),
    decreases k,
{
    assert(has_edge(g, p[k - 1], p[k - 1 + 1]));
    if s.depth.contains_key(p[k - 1]) {
        k - 1
    } else {
        lemma_crosses_frontier(s, g, start, p, k - 1)
    }
}

/// A successor of the expanded node that was not discovered before lies
/// exactly one hop deeper than that node.
pub proof fn lemma_discover(s: Search, g: Map<usize, Set<usize>>, start: usize, node: usize, to: usize)
    requires
        s.expanding(g, start, node),
        has_edge(g, node, to),
        !s.depth.contains_key(to),
    ensures
        s.discover(node, to).expanding(g, start, node),
{
    let t = s.discover(node, to);
    let d = s.depth[node] + 1;
    assert(is_distance(g, start, to, d as nat)) by {
        let p = choose|p: Seq<usize>| connects(g, p, start, node) && p.len() == s.depth[node] + 1;
        lemma_extend_path(g, p, start, node, to);
        assert(connects(g, p.push(to), start, to) && p.push(to).len() == d + 1);
        assert forall|q: Seq<usize>| connects(g, q, start, to) implies q.len() >= d + 1 by {
            let j = lemma_crosses_frontier(s, g, start, q, q.len() - 1);
            lemma_path_prefix(g, q, start, to, j);
            assert(is_distance(g, start, q[j], s.depth[q[j]]));
            assert(q.take(j + 1).len() >= s.depth[q[j]] + 1);
            if q[j] != node {
                let i = choose|i: int| 0 <= i < s.queue.len() && s.queue[i] == q[j];
                assert(s.depth[node] <= s.depth[s.queue[i]]);
            }
        }
    }
    assert(t.queue.no_duplicates()) by {
        assert forall|i: int, j: int| 0 <= i < t.queue.len() && 0 <= j < t.queue.len() && i != j
            implies t.queue[i] != t.queue[j] by {
            if i < s.queue.len() {
                assert(s.depth.contains_key(s.queue[i]));
            }
            if j < s.queue.len() {
                assert(s.depth.contains_key(s.queue[j]));
            }
        }
    }
    assert forall|i: int| 0 <= i < t.queue.len() implies t.depth.contains_key(#[trigger] t.queue[i])
        && !t.done.contains(t.queue[i]) && t.depth[node] <= t.depth[t.queue[i]] <= t.depth[node]
        + 1 by {
        if i < s.queue.len() {
            assert(s.depth.contains_key(s.queue[i]));
        }
    }
    assert forall|v: usize| #[trigger] t.depth.contains_key(v) implies is_distance(
        g,
        start,
        v,
        t.depth[v],
    ) by {
        if v != to {
            assert(s.depth.contains_key(v));
        }
    }
    assert forall|i: int, j: int| 0 <= i <= j < t.queue.len() implies t.depth[#[trigger] t.queue[i]]
        <= t.depth[#[trigger] t.queue[j]] by {
        if j < s.queue.len() {
            assert(s.depth[s.queue[i]] <= s.depth[s.queue[j]]);
        } else if i < s.queue.len() {
            assert(s.depth[s.queue[i]] <= s.depth[node] + 1);
        }
    }
    assert(!t.queue.contains(node)) by {
        if t.queue.contains(node) {
            let i = choose|i: int| 0 <= i < t.queue.len() && t.queue[i] == node;
            assert(s.queue[i] == node);
        }
    }
    assert forall|v: usize| #[trigger] t.depth.contains_key(v) implies v == node || t.done.contains(v)
        || t.queue.contains(v) by {
        if v == to {
            assert(t.queue[s.queue.len() as int] == to);
        } else if v != node && !s.done.contains(v) {
            let i = choose|i: int| 0 <= i < s.queue.len() && s.queue[i] == v;
            assert(t.queue[i] == v);
        }
    }
    assert forall|v: usize| #[trigger] t.done.contains(v) implies t.depth[v] <= t.depth[node] by {
        assert(s.depth.contains_key(v));
    }
}

/// Once every successor of the expanded node is discovered, the node is
/// done, and one node fewer remains.
pub proof fn lemma_finish(s: Search, g: Map<usize, Set<usize>>, start: usize, node: usize)
    requires
        s.expanding(g, start, node),
        forall|w: usize| has_edge(g, node, w) ==> s.depth.contains_key(w),
    ensures
        s.finish(node).settled(g, start),
        s.finish(node).remaining(g, start) + 1 == s.remaining(g, start),
{
    let t = s.finish(node);
    assert forall|v: usize| #[trigger] t.depth.contains_key(v) implies t.done.contains(v)
        || t.queue.contains(v) by {}
    assert forall|i: int| 0 <= i < t.queue.len() implies !t.done.contains(#[trigger] t.queue[i])
        && t.depth[t.queue[i]] <= t.depth[t.queue[0]] + 1 by {
        assert(s.depth[node] <= s.depth[s.queue[0]]);
    }
    lemma_discovered_in_universe(s, g, start);
    assert(t.done.subset_of(universe(g, start)));
    lemma_universe_finite(g, start);
    lemma_len_subset(t.done, universe(g, start));
}

/// With an empty queue the search is complete: the discovered nodes are
/// exactly those that `start` reaches, and all of them are done.
pub proof fn lemma_exhausted(s: Search, g: Map<usize, Set<usize>>, start: usize)
    requires
        s.settled(g, start),
        s.queue.len() == 0,
    ensures
        forall|v: usize| s.depth.contains_key(v) <==> reachable(g, start, v),
        forall|v: usize| s.depth.contains_key(v) <==> s.done.contains(v),
{
    assert forall|v: usize| s.depth.contains_key(v) implies reachable(g, start, v) by {
        let p = choose|p: Seq<usize>| connects(g, p, start, v) && p.len() == s.depth[v] + 1;
        assert(connects(g, p, start, v));
    }
    assert forall|v: usize| reachable(g, start, v) implies s.depth.contains_key(v) by {
        if !s.depth.contains_key(v) {
            let p = choose|p: Seq<usize>| connects(g, p, start, v);
            let j = lemma_crosses_frontier(s, g, start, p, p.len() - 1);
            assert(s.queue.contains(p[j]));
        }
    }
}

} // verus!
