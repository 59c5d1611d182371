//! What follows from the contracts of the queries of
//! [`crate::graph::Graph`], whatever graph they are asked about.

use vstd::prelude::*;
use crate::graph::Graph;
use crate::paths::{
    connects, distance, has_edge, is_bfs_order, is_distance, is_distance_map, is_shortest_path,
    lemma_distance_is, lemma_distance_unique, lemma_trivial_path, reachable, successors,
};

verus! {

/// After an edge from `from` to `to` is added, the graph has that edge and
/// the edges it had before, and no others.
pub proof fn lemma_edges_after_adding(g: Map<usize, Set<usize>>, from: usize, to: usize)
    ensures
        forall|u: usize, w: usize|
            has_edge(g.insert(from, successors(g, from).insert(to)), u, w) <==> has_edge(g, u, w)
                || (u == from && w == to),
{
}

/// A graph only grows: a path is still a path after an edge is added.
pub proof fn lemma_paths_survive_adding(
    g: Map<usize, Set<usize>>,
    from: usize,
    to: usize,
    p: Seq<usize>,
    a: usize,
    b: usize,
)
    requires
        connects(g, p, a, b),
    ensures
        connects(g.insert(from, successors(g, from).insert(to)), p, a, b),
{
    let grown = g.insert(from, successors(g, from).insert(to));
    lemma_edges_after_adding(g, from, to);
    assert forall|i: int| 0 <= i < p.len() - 1 implies has_edge(grown, #[trigger] p[i], p[i + 1]) by {
        assert(has_edge(g, p[i], p[i + 1]));
    }
}

/// A distance map records, for each node that `start` reaches, the least
/// number of edges on any path from `start` to it, and nothing for any other
/// node. `start` itself is recorded with 0.
pub proof fn lemma_distance_map_entries(g: Map<usize, Set<usize>>, start: usize, m: Map<usize, usize>)
    requires
        is_distance_map(g, start, m),
    ensures
        m.contains_key(start),
        m[start] == 0,
        forall|v: usize| reachable(g, start, v) ==> m.contains_key(v) && m[v] == distance(g, start, v),
        forall|v: usize| !reachable(g, start, v) ==> !m.contains_key(v),
{
    lemma_trivial_path(g, start);
    assert(connects(g, seq![start], start, start));
    assert(m.contains_key(start));
    lemma_distance_unique(g, start, start, 0, m[start] as nat);
    assert forall|v: usize| reachable(g, start, v) implies m.contains_key(v) && m[v] == distance(
        g,
        start,
        v,
    ) by {
        assert(m.contains_key(v));
        lemma_distance_is(g, start, v, m[v] as nat);
    }
}

/// Asked twice about the same graph and the same start, the distance query
/// gives the same map: a graph and a start have only one distance map.
pub proof fn lemma_distance_map_unique(
    g: Map<usize, Set<usize>>,
    start: usize,
    first: Map<usize, usize>,
    second: Map<usize, usize>,
)
    requires
        is_distance_map(g, start, first),
        is_distance_map(g, start, second),
    ensures
        first == second,
{
    assert forall|v: usize| first.contains_key(v) implies first[v] == second[v] by {
        assert(second.contains_key(v));
        lemma_distance_unique(g, start, v, first[v] as nat, second[v] as nat);
    }
    assert(first =~= second);
}

/// Asked twice about the same graph and the same start, the traversal gives
/// the same order: what it returns is the one order that the graph and the
/// start determine.
pub proof fn lemma_traversal_repeats(graph: Graph, start: usize, first: Seq<usize>, second: Seq<usize>)
    requires
        first == graph.bfs_order(start),
        second == graph.bfs_order(start),
    ensures
        first == second,
{
}

/// Asked twice about the same graph and the same two nodes, the path query
/// gives the same answer: the same path, or none both times.
pub proof fn lemma_route_repeats(
    graph: Graph,
    start: usize,
    end: usize,
    first: Option<Seq<usize>>,
    second: Option<Seq<usize>>,
)
    requires
        first == graph.route(start, end),
        second == graph.route(start, end),
    ensures
        first == second,
{
}

/// A shortest path is absent exactly where the distance map has no entry
/// for `end`; where it is present, it has one node more than the recorded
/// distance.
pub proof fn lemma_path_absent_iff_no_distance(
    g: Map<usize, Set<usize>>,
    start: usize,
    end: usize,
    path: Option<Seq<usize>>,
    distances: Map<usize, usize>,
)
    requires
        is_distance_map(g, start, distances),
        match path {
            Some(p) => is_shortest_path(g, p, start, end),
            None => !reachable(g, start, end),
        },
    ensures
        path is None <==> !distances.contains_key(end),
        path matches Some(p) ==> p.len() == distances[end] + 1,
{
    if let Some(p) = path {
        assert(connects(g, p, start, end));
        assert(distances.contains_key(end));
        let d = distances[end] as nat;
        let q = choose|q: Seq<usize>| connects(g, q, start, end) && q.len() == d + 1;
        assert(q.len() >= p.len());
        assert(p.len() >= d + 1);
    }
}

/// The only shortest path from a node to itself is the node alone.
pub proof fn lemma_shortest_path_to_self(g: Map<usize, Set<usize>>, start: usize, p: Seq<usize>)
    requires
        is_shortest_path(g, p, start, start),
    ensures
        p == seq![start],
{
    lemma_trivial_path(g, start);
    assert(seq![start].len() >= p.len());
    assert(p =~= seq![start]);
}

/// Two shortest paths between the same nodes have the same length.
pub proof fn lemma_shortest_paths_same_length(
    g: Map<usize, Set<usize>>,
    start: usize,
    end: usize,
    first: Seq<usize>,
    second: Seq<usize>,
)
    requires
        is_shortest_path(g, first, start, end),
        is_shortest_path(g, second, start, end),
    ensures
        first.len() == second.len(),
{
}

/// A breadth-first order begins with `start`, and each of its nodes is
/// reachable and stands in it once.
pub proof fn lemma_bfs_order_begins_at_start(g: Map<usize, Set<usize>>, start: usize, order: Seq<usize>)
    requires
        is_bfs_order(g, start, order),
    ensures
        order.len() > 0,
        order[0] == start,
        forall|i: int| 0 <= i < order.len() ==> reachable(g, start, #[trigger] order[i]),
{
    lemma_trivial_path(g, start);
    assert(connects(g, seq![start], start, start));
    assert(order.contains(start));
    let k = choose|k: int| 0 <= k < order.len() && order[k] == start;
    lemma_distance_is(g, start, start, 0);
    assert(order.contains(order[0]));
    assert(reachable(g, start, order[0]));
    assert(distance(g, start, order[0]) <= distance(g, start, order[k]));
    lemma_nearest_is_start(g, start, order[0]);
    assert forall|i: int| 0 <= i < order.len() implies reachable(g, start, #[trigger] order[i]) by {
        assert(order.contains(order[i]));
    }
}

/// Only `start` lies at distance 0 from `start`.
proof fn lemma_nearest_is_start(g: Map<usize, Set<usize>>, start: usize, v: usize)
    requires
        reachable(g, start, v),
        distance(g, start, v) == 0,
    ensures
        v == start,
{
    crate::paths::lemma_reachable_has_distance(g, start, v);
    let p = choose|p: Seq<usize>| connects(g, p, start, v) && p.len() == 0 + 1;
    assert(p[0] == start);
}

} // verus!
