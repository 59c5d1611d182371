//! Paths, reachability and hop distance in a directed graph.
//!
//! A graph is modelled by its adjacency relation, a
//! `Map<usize, Set<usize>>` from a node to the set of its direct successors.
//! A node without outgoing edges needs no entry.

use vstd::prelude::*;

verus! {

/// There is a directed edge from `u` to `v`.
pub open spec fn has_edge(g: Map<usize, Set<usize>>, u: usize, v: usize) -> bool {
    g.contains_key(u) && g[u].contains(v)
}

/// The direct successors of `u`; none where `u` has no entry.
pub open spec fn successors(g: Map<usize, Set<usize>>, u: usize) -> Set<usize> {
    if g.contains_key(u) {
        g[u]
    } else {
        Set::empty()
    }
}

/// `p` is a non-empty sequence of nodes in which every node is followed by
/// one of its direct successors. Nodes may repeat.
pub open spec fn is_path(g: Map<usize, Set<usize>>, p: Seq<usize>) -> bool {
    &&& p.len() > 0
    &&& forall|i: int| 0 <= i < p.len() - 1 ==> has_edge(g, #[trigger] p[i], p[i + 1])
}

/// `p` is a path that begins at `from` and ends at `to`.
pub open spec fn connects(g: Map<usize, Set<usize>>, p: Seq<usize>, from: usize, to: usize) -> bool {
    &&& is_path(g, p)
    &&& p[0] == from
    &&& p[p.len() - 1] == to
}

/// Some path leads from `from` to `to`. Every node reaches itself.
pub open spec fn reachable(g: Map<usize, Set<usize>>, from: usize, to: usize) -> bool {
    exists|p: Seq<usize>| connects(g, p, from, to)
}

/// Some path of exactly `hops` edges leads from `from` to `to`.
pub open spec fn reachable_in(g: Map<usize, Set<usize>>, from: usize, to: usize, hops: nat) -> bool {
    exists|p: Seq<usize>| connects(g, p, from, to) && p.len() == hops + 1
}

/// `d` is the least number of edges on any path from `from` to `to`.
pub open spec fn is_distance(g: Map<usize, Set<usize>>, from: usize, to: usize, d: nat) -> bool {
    &&& reachable_in(g, from, to, d)
    &&& forall|p: Seq<usize>| connects(g, p, from, to) ==> p.len() >= d + 1
}

/// The hop distance from `from` to `to`; meaningful when `to` is reachable.
pub open spec fn distance(g: Map<usize, Set<usize>>, from: usize, to: usize) -> nat {
    choose|d: nat| is_distance(g, from, to, d)
}

/// `p` leads from `from` to `to`, and no path between the two has fewer
/// edges.
pub open spec fn is_shortest_path(g: Map<usize, Set<usize>>, p: Seq<usize>, from: usize, to: usize) -> bool {
    &&& connects(g, p, from, to)
    &&& forall|q: Seq<usize>| connects(g, q, from, to) ==> q.len() >= p.len()
}

/// `order` lists every node that `start` reaches exactly once, and no node
/// stands before one that is nearer to `start`.
pub open spec fn is_bfs_order(g: Map<usize, Set<usize>>, start: usize, order: Seq<usize>) -> bool {
    &&& order.no_duplicates()
    &&& forall|v: usize| order.contains(v) <==> reachable(g, start, v)
    &&& forall|i: int, j: int|
        0 <= i <= j < order.len() ==> distance(g, start, order[i]) <= distance(g, start, order[j])
}

/// The set of the nodes that `start` reaches.
pub open spec fn reach(g: Map<usize, Set<usize>>, start: usize) -> Set<usize> {
    Set::new(|v: usize| reachable(g, start, v))
}

/// Adds the distance of a node from `start` to a sum.
pub open spec fn add_distance(g: Map<usize, Set<usize>>, start: usize) -> spec_fn(nat, usize) -> nat {
    |sum: nat, v: usize| sum + distance(g, start, v)
}

/// The distances from `start` of all the nodes that it reaches, added up.
pub open spec fn total_distance(g: Map<usize, Set<usize>>, start: usize) -> nat {
    reach(g, start).fold(0nat, add_distance(g, start))
}

/// `m` records the distance from `start` of exactly the nodes that `start`
/// reaches, `start` itself among them with distance 0.
pub open spec fn is_distance_map(g: Map<usize, Set<usize>>, start: usize, m: Map<usize, usize>) -> bool {
    &&& forall|v: usize| m.contains_key(v) <==> reachable(g, start, v)
    &&& forall|v: usize| #[trigger] m.contains_key(v) ==> is_distance(g, start, v, m[v] as nat)
}

/// The graph has finitely many edges: finitely many nodes have successors,
/// and each of them has finitely many.
pub open spec fn is_finite_graph(g: Map<usize, Set<usize>>) -> bool {
    &&& g.dom().finite()
    &&& forall|u: usize| g.contains_key(u) ==> #[trigger] g[u].finite()
}

/// A finite set that holds every node reachable from `start`: `start`
/// itself and each node that some edge leads to.
pub open spec fn universe(g: Map<usize, Set<usize>>, start: usize) -> Set<usize> {
    g.dom().map(|u: usize| g[u]).flatten().insert(start)
}

/// The single node `v` is a path from `v` to itself.
pub proof fn lemma_trivial_path(g: Map<usize, Set<usize>>, v: usize)
    ensures
        connects(g, seq![v], v, v),
        is_distance(g, v, v, 0),
{
    assert(connects(g, seq![v], v, v) && seq![v].len() == 0 + 1);
}

/// A path can be prolonged by an edge that leaves its last node.
pub proof fn lemma_extend_path(g: Map<usize, Set<usize>>, p: Seq<usize>, from: usize, via: usize, to: usize)
    requires
        connects(g, p, from, via),
        has_edge(g, via, to),
    ensures
        connects(g, p.push(to), from, to),
{
    let q = p.push(to);
    assert forall|i: int| 0 <= i < q.len() - 1 implies has_edge(g, #[trigger] q[i], q[i + 1]) by {
        if i < p.len() - 1 {
            assert(has_edge(g, p[i], p[i + 1]));
        }
    }
}

/// Every prefix of a path is a path to the node at which it is cut.
pub proof fn lemma_path_prefix(g: Map<usize, Set<usize>>, p: Seq<usize>, from: usize, to: usize, k: int)
    requires
        connects(g, p, from, to),
        0 <= k < p.len(),
    ensures
        connects(g, p.take(k + 1), from, p[k]),
{
    let q = p.take(k + 1);
    assert forall|i: int| 0 <= i < q.len() - 1 implies has_edge(g, #[trigger] q[i], q[i + 1]) by {
        assert(has_edge(g, p[i], p[i + 1]));
    }
}

/// A pair of nodes has at most one distance.
pub proof fn lemma_distance_unique(g: Map<usize, Set<usize>>, from: usize, to: usize, a: nat, b: nat)
    requires
        is_distance(g, from, to, a),
        is_distance(g, from, to, b),
    ensures
        a == b,
{
    let pa = choose|p: Seq<usize>| connects(g, p, from, to) && p.len() == a + 1;
    let pb = choose|p: Seq<usize>| connects(g, p, from, to) && p.len() == b + 1;
    assert(pa.len() >= b + 1);
    assert(pb.len() >= a + 1);
}

/// A number that is a distance is the distance.
pub proof fn lemma_distance_is(g: Map<usize, Set<usize>>, from: usize, to: usize, d: nat)
    requires
        is_distance(g, from, to, d),
    ensures
        distance(g, from, to) == d,
        reachable(g, from, to),
{
    lemma_distance_unique(g, from, to, d, distance(g, from, to));
    let p = choose|p: Seq<usize>| connects(g, p, from, to) && p.len() == d + 1;
    assert(connects(g, p, from, to));
}

/// Among the paths from `from` to `to` of at most `hops` edges, one is
/// shortest of all.
proof fn lemma_some_path_is_shortest(g: Map<usize, Set<usize>>, from: usize, to: usize, hops: nat)
    requires
        reachable_in(g, from, to, hops),
    ensures
        exists|d: nat| is_distance(g, from, to, d),
    decreases hops,
{
    if forall|p: Seq<usize>| connects(g, p, from, to) ==> p.len() >= hops + 1 {
        assert(is_distance(g, from, to, hops));
    } else {
        let p = choose|p: Seq<usize>| connects(g, p, from, to) && p.len() < hops + 1;
        let fewer = (p.len() - 1) as nat;
        assert(connects(g, p, from, to) && p.len() == fewer + 1);
        lemma_some_path_is_shortest(g, from, to, fewer);
    }
}

/// A node that can be reached has a distance.
pub proof fn lemma_reachable_has_distance(g: Map<usize, Set<usize>>, from: usize, to: usize)
    requires
        reachable(g, from, to),
    ensures
        is_distance(g, from, to, distance(g, from, to)),
{
    let p = choose|p: Seq<usize>| connects(g, p, from, to);
    let hops = (p.len() - 1) as nat;
    assert(connects(g, p, from, to) && p.len() == hops + 1);
    lemma_some_path_is_shortest(g, from, to, hops);
}

/// The universe of a finite graph is finite.
pub proof fn lemma_universe_finite(g: Map<usize, Set<usize>>, start: usize)
    requires
        is_finite_graph(g),
    ensures
        universe(g, start).finite(),
{
    let successors = g.dom().map(|u: usize| g[u]);
    g.dom().lemma_map_finite(|u: usize| g[u]);
    assert forall|s: Set<usize>| successors.contains(s) implies #[trigger] s.finite() by {
        let u = choose|u: usize| g.dom().contains(u) && s == g[u];
        assert(g[u].finite());
    }
    successors.lemma_flatten_finite();
}

/// Whatever `start` reaches lies in the universe.
pub proof fn lemma_reachable_in_universe(g: Map<usize, Set<usize>>, start: usize, to: usize)
    requires
        reachable(g, start, to),
    ensures
        universe(g, start).contains(to),
{
    let p = choose|p: Seq<usize>| connects(g, p, start, to);
    if p.len() > 1 {
        let u = p[p.len() - 2];
        assert(has_edge(g, u, p[p.len() - 2 + 1]));
        assert(g.dom().contains(u));
        assert(g.dom().map(|u: usize| g[u]).contains(g[u]));
    }
}

} // verus!
