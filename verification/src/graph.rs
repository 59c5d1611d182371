//! A directed graph that grows edge by edge and answers breadth-first
//! queries.

use std::collections::{HashMap, HashSet, VecDeque};
use vstd::prelude::*;
use vstd::set::fold::{is_fun_commutative, lemma_fold_empty, lemma_fold_insert};
use vstd::std_specs::hash::*;
use vstd::std_specs::iter::IteratorSpec;
use crate::paths::{
    add_distance, connects, distance, has_edge, is_bfs_order, is_distance, is_distance_map,
    is_finite_graph, is_shortest_path, lemma_distance_is, lemma_trivial_path, reach, reachable,
    successors, total_distance, universe,
};
use crate::search::{
    lemma_dequeue, lemma_discover, lemma_exhausted, lemma_finish, lemma_initial,
    lemma_settled_depths, Search,
};
use crate::trace::{list_of, Frontier, Routes};

verus! {

broadcast use {
    vstd::std_specs::hash::group_hash_axioms,
    vstd::std_specs::vecdeque::group_vec_dequeue_axioms,
};

/// A directed graph over `usize` node identifiers.
///
/// Each node with outgoing edges owns the list of its direct successors, in
/// the order in which the edges were added and without repetition. A node
/// that is only ever a target, or is not mentioned at all, has no list.
pub struct Graph {
    edges: HashMap<usize, Vec<usize>>,
}

impl View for Graph {
    type V = Map<usize, Set<usize>>;

    /// The adjacency relation: every node that has an outgoing edge, mapped
    /// to the set of its direct successors.
    closed spec fn view(&self) -> Map<usize, Set<usize>> {
        Map::new(
            |u: usize| self.edges@.contains_key(u) && self.edges@[u]@.len() > 0,
            |u: usize| self.edges@[u]@.to_set(),
        )
    }
}

/// Whether `x` occurs in `list`.
fn occurs(list: &Vec<usize>, x: usize) -> (found: bool)
    ensures
        found == list@.contains(x),
{
    let mut i: usize = 0;
    while i < list.len()
        invariant
            i <= list.len(),
            forall|k: int| 0 <= k < i ==> list@[k] != x,
        decreases list.len() - i,
    {
        if list[i] == x {
            return true;
        }
        i += 1;
    }
    false
}

/// Each entry of `queue` is a waiting node of `search` with its depth.
spec fn labelled(queue: Seq<(usize, usize)>, search: Search) -> bool {
    &&& queue.len() == search.queue.len()
    &&& forall|i: int|
        0 <= i < queue.len() ==> (#[trigger] queue[i]).0 == search.queue[i]
            && search.depth.contains_key(queue[i].0) && queue[i].1 == search.depth[queue[i].0]
}

/// `distances` records the depth of exactly the nodes in `nodes`.
spec fn recorded(distances: Map<usize, usize>, nodes: Set<usize>, search: Search) -> bool {
    &&& distances.dom() == nodes
    &&& forall|v: usize| #[trigger]
        distances.contains_key(v) ==> search.depth.contains_key(v) && distances[v] == search.depth[v]
}

/// Without its head, a labelled queue matches the search that has taken
/// its head out.
proof fn lemma_labelled_dequeue(queue: Seq<(usize, usize)>, search: Search)
    requires
        labelled(queue, search),
        queue.len() > 0,
    ensures
        labelled(queue.subrange(1, queue.len() as int), search.dequeue()),
        queue[0].0 == search.queue[0],
        queue[0].1 == search.depth[search.queue[0]],
{
    let rest = queue.subrange(1, queue.len() as int);
    assert forall|i: int| 0 <= i < rest.len() implies (#[trigger] rest[i]).0 == search.dequeue().queue[i]
        && search.depth.contains_key(rest[i].0) && rest[i].1 == search.depth[rest[i].0] by {
        assert(rest[i] == queue[i + 1]);
    }
}

/// A labelled queue stays labelled when a newly discovered node joins it
/// with the depth below that of the node it was discovered from.
proof fn lemma_labelled_discover(queue: Seq<(usize, usize)>, search: Search, node: usize, to: usize)
    requires
        labelled(queue, search),
        search.depth.contains_key(node),
        !search.depth.contains_key(to),
        search.depth[node] + 1 <= usize::MAX,
    ensures
        labelled(queue.push((to, (search.depth[node] + 1) as usize)), search.discover(node, to)),
{
    let longer = queue.push((to, (search.depth[node] + 1) as usize));
    let found = search.discover(node, to);
    assert forall|i: int| 0 <= i < longer.len() implies (#[trigger] longer[i]).0 == found.queue[i]
        && found.depth.contains_key(longer[i].0) && longer[i].1 == found.depth[longer[i].0] by {
        if i < queue.len() {
            assert(longer[i] == queue[i]);
        }
    }
}

/// `order` holds no node twice, only discovered nodes, and none before a
/// node of lesser depth.
spec fn by_depth(order: Seq<usize>, search: Search) -> bool {
    &&& order.no_duplicates()
    &&& forall|i: int| 0 <= i < order.len() ==> search.depth.contains_key(#[trigger] order[i])
    &&& forall|i: int, j: int|
        0 <= i <= j < order.len() ==> search.depth[#[trigger] order[i]]
            <= search.depth[#[trigger] order[j]]
}

/// An order by depth stays one when a node joins it that is new to it and
/// no nearer than the nodes it holds.
proof fn lemma_by_depth_push(order: Seq<usize>, search: Search, node: usize)
    requires
        by_depth(order, search),
        search.depth.contains_key(node),
        !order.contains(node),
        forall|i: int| 0 <= i < order.len() ==> search.depth[#[trigger] order[i]] <= search.depth[node],
    ensures
        by_depth(order.push(node), search),
        forall|v: usize| order.push(node).contains(v) <==> order.contains(v) || v == node,
{
    let longer = order.push(node);
    assert forall|i: int, j: int| 0 <= i < longer.len() && 0 <= j < longer.len() && i != j implies longer[i]
        != longer[j] by {
        if i < order.len() {
            assert(order.contains(order[i]));
        }
        if j < order.len() {
            assert(order.contains(order[j]));
        }
    }
    assert forall|v: usize| longer.contains(v) <==> order.contains(v) || v == node by {
        if order.contains(v) {
            let i = choose|i: int| 0 <= i < order.len() && order[i] == v;
            assert(longer[i] == v);
        }
        if v == node {
            assert(longer[order.len() as int] == v);
        }
    }
}

/// An order by depth stays one when the search discovers a node.
proof fn lemma_by_depth_discover(order: Seq<usize>, search: Search, node: usize, to: usize)
    requires
        by_depth(order, search),
        !search.depth.contains_key(to),
    ensures
        by_depth(order, search.discover(node, to)),
{
    let found = search.discover(node, to);
    assert forall|i: int, j: int| 0 <= i <= j < order.len() implies found.depth[#[trigger] order[i]]
        <= found.depth[#[trigger] order[j]] by {
        assert(search.depth[order[i]] <= search.depth[order[j]]);
    }
}

/// Every discovered node but `start` has a recorded predecessor, from which
/// an edge leads to it and which lies one hop nearer to `start`.
spec fn chained(previous: Map<usize, usize>, search: Search, g: Map<usize, Set<usize>>, start: usize) -> bool {
    forall|v: usize| #[trigger]
        search.depth.contains_key(v) && v != start ==> previous.contains_key(v)
            && search.depth.contains_key(previous[v]) && has_edge(g, previous[v], v)
            && search.depth[previous[v]] + 1 == search.depth[v]
}

/// The chain of predecessors holds on when a newly discovered node is
/// recorded with the node it was discovered from.
proof fn lemma_chained_discover(
    previous: Map<usize, usize>,
    search: Search,
    g: Map<usize, Set<usize>>,
    start: usize,
    node: usize,
    to: usize,
)
    requires
        chained(previous, search, g, start),
        search.depth.contains_key(node),
        !search.depth.contains_key(to),
        has_edge(g, node, to),
    ensures
        chained(previous.insert(to, node), search.discover(node, to), g, start),
{
    let found = search.discover(node, to);
    let longer = previous.insert(to, node);
    assert forall|v: usize| #[trigger] found.depth.contains_key(v) && v != start implies longer.contains_key(v)
        && found.depth.contains_key(longer[v]) && has_edge(g, longer[v], v) && found.depth[longer[v]]
        + 1 == found.depth[v] by {
        if v != to {
            assert(search.depth.contains_key(v));
        }
    }
}

/// One step of the way back: a node other than `start` is followed by the
/// way back from its predecessor.
proof fn lemma_walk_back_step(routes: Routes, start: usize, node: usize, steps: nat)
    requires
        node != start,
        steps > 0,
        routes.previous.contains_key(node),
    ensures
        routes.walk_back(start, node, steps) == seq![node] + routes.walk_back(
            start,
            routes.previous[node],
            (steps - 1) as nat,
        ),
{
}

/// The elements of `list` from the last to the first.
fn reversed(list: &Vec<usize>) -> (turned: Vec<usize>)
    ensures
        turned@ == list@.reverse(),
{
    let mut turned: Vec<usize> = Vec::new();
    let mut i: usize = list.len();
    while i > 0
        invariant
            i <= list.len(),
            turned@.len() == list.len() - i,
            forall|k: int| 0 <= k < turned@.len() ==> turned@[k] == list@[list.len() - 1 - k],
        decreases i,
    {
        i -= 1;
        turned.push(list[i]);
    }
    assert(turned@ =~= list@.reverse());
    turned
}

impl Graph {
    /// No successor list is empty and none holds a node twice.
    #[verifier::type_invariant]
    spec fn well_formed(&self) -> bool {
        forall|u: usize| #[trigger]
            self.edges@.contains_key(u) ==> self.edges@[u]@.len() > 0
                && self.edges@[u]@.no_duplicates()
    }

    /// The successor list of every node that has one.
    closed spec fn lists(&self) -> Map<usize, Seq<usize>> {
        Map::new(|u: usize| self.edges@.contains_key(u), |u: usize| self.edges@[u]@)
    }

    /// The order in which [`Graph::bfs`] visits the nodes that `start`
    /// reaches. It depends on the graph and on `start` alone, so that the
    /// query gives the same answer each time it is asked.
    pub closed spec fn bfs_order(&self, start: usize) -> Seq<usize> {
        Frontier::initial(start).visits(self.lists(), universe(self@, start).len())
    }

    /// The path that [`Graph::shortest_path`] returns from `start` to
    /// `end`, if any. It depends on the graph and on the two nodes alone, so
    /// that the query gives the same answer each time it is asked.
    pub closed spec fn route(&self, start: usize, end: usize) -> Option<Seq<usize>> {
        let limit = universe(self@, start).len();
        let last = Routes::initial(start).search_for(self.lists(), end, limit);
        if last.found.contains(end) {
            Some(last.walk_back(start, end, limit).reverse())
        } else {
            None
        }
    }

    /// The graph without any edge.
    pub fn new() -> (graph: Self)
        ensures
            graph@ == Map::<usize, Set<usize>>::empty(),
    {
        let graph = Graph { edges: HashMap::new() };
        assert(graph@ =~= Map::<usize, Set<usize>>::empty());
        graph
    }

    /// Adds the directed edge from `from` to `to`. An edge that is already
    /// present is not added again, and `to` gets no entry of its own.
    pub fn add_edge(&mut self, from: usize, to: usize)
        ensures
            final(self)@ == old(self)@.insert(from, successors(old(self)@, from).insert(to)),
    {
        proof {
            use_type_invariant(&*self);
        }
        // The map is taken out while it is changed, so that the graph is
        // well formed at every moment.
        let mut edges: HashMap<usize, Vec<usize>> = HashMap::new();
        core::mem::swap(&mut self.edges, &mut edges);
        let mut list = match edges.remove(&from) {
            Some(list) => list,
            None => Vec::new(),
        };
        let ghost before = list@;
        if !occurs(&list, to) {
            list.push(to);
        }
        proof {
            before.lemma_push_to_set_commute(to);
            assert(list@.to_set() =~= before.to_set().insert(to));
            assert(before.to_set() =~= successors(old(self)@, from));
            assert(list@[0] == if before.len() > 0 { before[0] } else { to });
        }
        edges.insert(from, list);
        self.edges = edges;
        assert(self@ =~= old(self)@.insert(from, successors(old(self)@, from).insert(to)));
    }

    /// The number of nodes that have at least one outgoing edge.
    pub fn source_count(&self) -> (count: usize)
        ensures
            count == self@.dom().len(),
    {
        proof {
            use_type_invariant(self);
            assert(self@.dom() =~= self.edges@.dom());
        }
        self.edges.len()
    }

    /// The edges of the view are the entries of the successor lists.
    proof fn lemma_edges(self)
        ensures
            is_finite_graph(self@),
            forall|u: usize, w: usize| #[trigger]
                has_edge(self@, u, w) <==> self.edges@.contains_key(u) && self.edges@[u]@.contains(w),
    {
        lemma_view_has_no_empty_entry(self);
    }

    /// The nodes that `start` reaches, `start` first, in the order in which a
    /// breadth-first traversal visits them: each node once, nearer nodes
    /// before farther ones. The successors of a node are visited in the order
    /// in which its edges were added.
    pub fn bfs(&self, start: usize) -> (order: Vec<usize>)
        ensures
            is_bfs_order(self@, start, order@),
            order@.len() > 0,
            order@[0] == start,
            order@ == self.bfs_order(start),
    {
        let mut visited: HashSet<usize> = HashSet::new();
        let mut queue: VecDeque<usize> = VecDeque::new();
        let mut order: Vec<usize> = Vec::new();

        visited.insert(start);
        queue.push_back(start);

        let ghost mut search = Search::initial(start);
        proof {
            self.lemma_edges();
            lemma_initial(self@, start);
            assert(visited@ =~= search.depth.dom());
            assert((Frontier { seen: visited@, queue: queue@ }) == Frontier::initial(start));
            assert(order@ + self.bfs_order(start) =~= self.bfs_order(start));
        }
        while queue.len() > 0
            invariant
                search.settled(self@, start),
                visited@ == search.depth.dom(),
                queue@ == search.queue,
                order@ + (Frontier { seen: visited@, queue: queue@ }).visits(
                    self.lists(),
                    search.remaining(self@, start),
                ) == self.bfs_order(start),
                by_depth(order@, search),
                forall|v: usize| order@.contains(v) <==> search.done.contains(v),
                order@.len() == 0 ==> queue@.len() > 0 && queue@[0] == start,
                order@.len() > 0 ==> order@[0] == start,
            decreases search.remaining(self@, start),
        {
            let ghost steps = search.remaining(self@, start);
            let ghost waiting = Frontier { seen: visited@, queue: queue@ };
            let ghost visited_before = order@;
            let node = queue.pop_front().unwrap();
            order.push(node);
            let ghost list = list_of(self.lists(), node);
            let ghost scanned = (Frontier { seen: visited@, queue: queue@ }).scan(list, 0);
            proof {
                lemma_dequeue(search, self@, start);
                assert forall|i: int| 0 <= i < visited_before.len() implies search.depth[#[trigger] visited_before[i]]
                    <= search.depth[node] by {
                    assert(visited_before.contains(visited_before[i]));
                }
                lemma_by_depth_push(visited_before, search, node);
                search = search.dequeue();
                assert(queue@ =~= waiting.queue.drop_first());
                assert(waiting.visits(self.lists(), steps) == seq![node] + scanned.visits(
                    self.lists(),
                    (steps - 1) as nat,
                ));
            }
            let ghost expanded = search.done;
            if let Some(neighbors) = self.edges.get(&node) {
                let mut i: usize = 0;
                while i < neighbors.len()
                    invariant
                        i <= neighbors.len(),
                        self.edges@.contains_key(node),
                        *neighbors == self.edges@[node],
                        neighbors@ == list,
                        search.expanding(self@, start, node),
                        search.done == expanded,
                        visited@ == search.depth.dom(),
                        queue@ == search.queue,
                        (Frontier { seen: visited@, queue: queue@ }).scan(list, i as int) == scanned,
                        by_depth(order@, search),
                        forall|k: int| 0 <= k < i ==> search.depth.contains_key(#[trigger] neighbors@[k]),
                    decreases neighbors.len() - i,
                {
                    let neighbor = neighbors[i];
                    if !visited.contains(&neighbor) {
                        proof {
                            self.lemma_edges();
                            assert(has_edge(self@, node, neighbor));
                            lemma_discover(search, self@, start, node, neighbor);
                            lemma_by_depth_discover(order@, search, node, neighbor);
                        }
                        visited.insert(neighbor);
                        queue.push_back(neighbor);
                        proof {
                            search = search.discover(node, neighbor);
                            assert(visited@ =~= search.depth.dom());
                        }
                    }
                    i += 1;
                }
            }
            proof {
                self.lemma_edges();
                lemma_finish(search, self@, start, node);
                search = search.finish(node);
                assert((Frontier { seen: visited@, queue: queue@ }) == scanned);
                assert(order@ + scanned.visits(self.lists(), (steps - 1) as nat) =~= visited_before
                    + waiting.visits(self.lists(), steps));
            }
        }
        proof {
            lemma_exhausted(search, self@, start);
            lemma_settled_depths(search, self@, start);
            assert(order@ =~= self.bfs_order(start));
            assert forall|i: int, j: int| 0 <= i <= j < order@.len() implies distance(
                self@,
                start,
                order@[i],
            ) <= distance(self@, start, order@[j]) by {
                lemma_distance_is(self@, start, order@[i], search.depth[order@[i]]);
                lemma_distance_is(self@, start, order@[j], search.depth[order@[j]]);
            }
        }
        order
    }

    /// The hop distance from `start` of every node that `start` reaches.
    /// A node that cannot be reached has no entry.
    pub fn bfs_distances(&self, start: usize) -> (distances: HashMap<usize, usize>)
        ensures
            is_distance_map(self@, start, distances@),
    {
        let mut visited: HashSet<usize> = HashSet::new();
        let mut queue: VecDeque<(usize, usize)> = VecDeque::new();
        let mut distances: HashMap<usize, usize> = HashMap::new();

        queue.push_back((start, 0));
        visited.insert(start);

        let ghost mut search = Search::initial(start);
        proof {
            self.lemma_edges();
            lemma_initial(self@, start);
            assert(visited@ =~= search.depth.dom());
            assert(distances@.dom() =~= search.done);
            assert(queue@[0] == (start, 0usize));
        }
        while queue.len() > 0
            invariant
                search.settled(self@, start),
                visited@ == search.depth.dom(),
                labelled(queue@, search),
                recorded(distances@, search.done, search),
            decreases search.remaining(self@, start),
        {
            proof {
                lemma_dequeue(search, self@, start);
                lemma_labelled_dequeue(queue@, search);
                assert(visited.len() == visited@.len());
            }
            let (node, dist) = queue.pop_front().unwrap();
            distances.insert(node, dist);
            proof {
                search = search.dequeue();
                assert(distances@.dom() =~= search.done.insert(node));
            }
            let ghost expanded = search.done;
            if let Some(neighbors) = self.edges.get(&node) {
                let mut i: usize = 0;
                while i < neighbors.len()
                    invariant
                        i <= neighbors.len(),
                        self.edges@.contains_key(node),
                        *neighbors == self.edges@[node],
                        search.expanding(self@, start, node),
                        search.done == expanded,
                        search.depth.contains_key(node),
                        search.depth[node] == dist,
                        dist < visited@.len(),
                        visited@ == search.depth.dom(),
                        visited@.finite(),
                        labelled(queue@, search),
                        recorded(distances@, expanded.insert(node), search),
                        forall|k: int| 0 <= k < i ==> search.depth.contains_key(#[trigger] neighbors@[k]),
                    decreases neighbors.len() - i,
                {
                    let neighbor = neighbors[i];
                    if !visited.contains(&neighbor) {
                        proof {
                            self.lemma_edges();
                            assert(has_edge(self@, node, neighbor));
                            lemma_discover(search, self@, start, node, neighbor);
                            assert(visited.len() == visited@.len());
                            lemma_labelled_discover(queue@, search, node, neighbor);
                        }
                        visited.insert(neighbor);
                        queue.push_back((neighbor, dist + 1));
                        proof {
                            search = search.discover(node, neighbor);
                            assert(visited@ =~= search.depth.dom());
                        }
                    }
                    i += 1;
                }
            }
            proof {
                self.lemma_edges();
                lemma_finish(search, self@, start, node);
                search = search.finish(node);
            }
        }
        proof {
            lemma_exhausted(search, self@, start);
            lemma_settled_depths(search, self@, start);
        }
        distances
    }

    /// The distances from `start` of all the nodes that it reaches, added
    /// up, and the number of those nodes. The number is at least 1, since
    /// `start` reaches itself; the quotient of the two is the average
    /// distance from `start`.
    pub fn distance_totals(&self, start: usize) -> (totals: (u128, usize))
        ensures
            reach(self@, start).finite(),
            totals.0 == total_distance(self@, start),
            totals.1 == reach(self@, start).len(),
            totals.1 >= 1,
    {
        let distances = self.bfs_distances(start);
        let mut total: u128 = 0;
        let ghost add = add_distance(self@, start);
        let ghost mut counted: Set<usize> = Set::empty();
        proof {
            assert(distances@.dom() =~= reach(self@, start));
            lemma_fold_empty(0nat, add);
            lemma_trivial_path(self@, start);
            assert(connects(self@, seq![start], start, start));
            assert(distances@.contains_key(start));
            assert(distances.len() == distances@.len());
        }
        let ghost keys = spec_keys_iter(&distances).remaining();
        let ghost mut n: int = 0;
        for node in it: distances.keys()
            invariant
                is_distance_map(self@, start, distances@),
                add == add_distance(self@, start),
                it.seq() == keys,
                it.index() == n,
                keys.no_duplicates(),
                keys.unref().to_set() == distances@.dom(),
                keys.len() <= usize::MAX,
                counted.finite(),
                forall|v: usize|
                    counted.contains(v) <==> exists|k: int| 0 <= k < n && *(#[trigger] keys[k]) == v,
                total == counted.fold(0nat, add),
                total <= n * usize::MAX,
        {
            let d = *distances.get(node).unwrap();
            proof {
                assert(keys.unref()[n] == *node);
                assert(distances@.contains_key(*node));
                lemma_distance_is(self@, start, *node, d as nat);
                assert(is_fun_commutative(add));
                lemma_fold_insert(counted, 0nat, add, *node);
                assert((n + 1) * usize::MAX <= usize::MAX * usize::MAX) by (nonlinear_arith)
                    requires
                        0 <= n + 1 <= usize::MAX,
                ;
                assert(usize::MAX * usize::MAX <= u128::MAX) by (nonlinear_arith)
                    requires
                        usize::MAX <= 0xffff_ffff_ffff_ffff,
                ;
                assert((n + 1) * usize::MAX == n * usize::MAX + usize::MAX) by (nonlinear_arith);
                counted = counted.insert(*node);
                n = n + 1;
            }
            total = total + d as u128;
        }
        proof {
            assert(n == keys.len());
            assert(counted =~= reach(self@, start)) by {
                assert forall|v: usize| distances@.contains_key(v) implies counted.contains(v) by {
                    assert(keys.unref().to_set().contains(v));
                    let k = choose|k: int| 0 <= k < keys.unref().len() && keys.unref()[k] == v;
                    assert(*keys[k] == v);
                }
                assert forall|v: usize| counted.contains(v) implies distances@.contains_key(v) by {
                    let k = choose|k: int| 0 <= k < n && *(#[trigger] keys[k]) == v;
                    assert(keys.unref()[k] == v);
                }
            }
        }
        (total, distances.len())
    }

    /// A path from `start` to `end` with the fewest edges, both ends
    /// included, or `None` where `end` cannot be reached. A node reaches
    /// itself by the path that holds only that node.
    ///
    /// Where several paths are shortest, the successors that were added last
    /// are tried first.
    pub fn shortest_path(&self, start: usize, end: usize) -> (path: Option<Vec<usize>>)
        ensures
            match path {
                Some(p) => is_shortest_path(self@, p@, start, end),
                None => !reachable(self@, start, end),
            },
            start == end ==> path.is_some() && path.unwrap()@ == seq![start],
            match path {
                Some(p) => self.route(start, end) == Some(p@),
                None => self.route(start, end) is None,
            },
    {
        let mut distance: HashMap<usize, usize> = HashMap::new();
        let mut previous: HashMap<usize, usize> = HashMap::new();
        let mut queue: VecDeque<usize> = VecDeque::new();

        distance.insert(start, 0);
        queue.push_back(start);

        let ghost mut search = Search::initial(start);
        let ghost limit = universe(self@, start).len();
        let ghost last = Routes::initial(start).search_for(self.lists(), end, limit);
        proof {
            self.lemma_edges();
            lemma_initial(self@, start);
            lemma_settled_depths(search, self@, start);
            assert(distance@.dom() =~= search.depth.dom());
            assert(distance@.dom() =~= set![start]);
        }
        while queue.len() > 0
            invariant_except_break
                search.settled(self@, start),
                queue@ == search.queue,
                (Routes { found: distance@.dom(), queue: queue@, previous: previous@ }).search_for(
                    self.lists(),
                    end,
                    search.remaining(self@, start),
                ) == last,
                queue@.len() == 0 ==> forall|v: usize|
                    search.depth.contains_key(v) <==> reachable(self@, start, v),
            invariant
                search.exact(self@, start),
                recorded(distance@, search.depth.dom(), search),
                chained(previous@, search, self@, start),
            ensures
                distance@.contains_key(end) || forall|v: usize|
                    search.depth.contains_key(v) <==> reachable(self@, start, v),
                last.found == distance@.dom(),
                last.previous == previous@,
            decreases search.remaining(self@, start),
        {
            let ghost steps = search.remaining(self@, start);
            let ghost waiting = Routes { found: distance@.dom(), queue: queue@, previous: previous@ };
            let node = queue.pop_front().unwrap();
            proof {
                lemma_dequeue(search, self@, start);
                search = search.dequeue();
                assert(queue@ =~= waiting.queue.drop_first());
            }
            if node == end {
                assert(waiting.search_for(self.lists(), end, steps) == waiting);
                break ;
            }
            let ghost list = list_of(self.lists(), node);
            let ghost scanned = (Routes {
                found: distance@.dom(),
                queue: queue@,
                previous: previous@,
            }).scan_back(list, list.len() as int, node);
            assert(waiting.search_for(self.lists(), end, steps) == scanned.search_for(
                self.lists(),
                end,
                (steps - 1) as nat,
            ));
            let ghost expanded = search.done;
            if let Some(neighbors) = self.edges.get(&node) {
                let mut i: usize = neighbors.len();
                while i > 0
                    invariant
                        i <= neighbors.len(),
                        self.edges@.contains_key(node),
                        *neighbors == self.edges@[node],
                        neighbors@ == list,
                        search.expanding(self@, start, node),
                        search.done == expanded,
                        search.depth.contains_key(node),
                        search.depth.contains_key(start),
                        search.depth[node] < distance@.len(),
                        queue@ == search.queue,
                        recorded(distance@, search.depth.dom(), search),
                        chained(previous@, search, self@, start),
                        (Routes {
                            found: distance@.dom(),
                            queue: queue@,
                            previous: previous@,
                        }).scan_back(list, i as int, node) == scanned,
                        forall|k: int|
                            i <= k < neighbors.len() ==> search.depth.contains_key(
                                #[trigger] neighbors@[k],
                            ),
                    decreases i,
                {
                    i -= 1;
                    let neighbor = neighbors[i];
                    assert(distance.len() == distance@.len());
                    let new_distance = *distance.get(&node).unwrap() + 1;
                    if !distance.contains_key(&neighbor) {
                        proof {
                            self.lemma_edges();
                            assert(has_edge(self@, node, neighbor));
                            lemma_discover(search, self@, start, node, neighbor);
                            lemma_chained_discover(previous@, search, self@, start, node, neighbor);
                        }
                        distance.insert(neighbor, new_distance);
                        previous.insert(neighbor, node);
                        queue.push_back(neighbor);
                        proof {
                            search = search.discover(node, neighbor);
                            assert(distance@.dom() =~= search.depth.dom());
                        }
                    }
                }
            }
            proof {
                self.lemma_edges();
                lemma_finish(search, self@, start, node);
                search = search.finish(node);
                lemma_settled_depths(search, self@, start);
                if queue.len() == 0 {
                    lemma_exhausted(search, self@, start);
                }
                assert((Routes { found: distance@.dom(), queue: queue@, previous: previous@ })
                    == scanned);
            }
        }

        if distance.contains_key(&end) {
            let mut path: Vec<usize> = Vec::new();
            let mut current = end;
            path.push(current);
            assert(is_distance(self@, start, end, search.depth[end]));
            while current != start
                invariant
                    chained(previous@, search, self@, start),
                    last.previous == previous@,
                    search.depth.contains_key(current),
                    search.depth[start] == 0,
                    search.depth[end] < limit,
                    path@.len() > 0,
                    path@[0] == end,
                    path@[path@.len() - 1] == current,
                    path@.len() + search.depth[current] == search.depth[end] + 1,
                    forall|k: int|
                        0 <= k < path@.len() - 1 ==> has_edge(self@, path@[k + 1], #[trigger] path@[k]),
                    path@.drop_last() + last.walk_back(
                        start,
                        current,
                        (limit - (path@.len() - 1)) as nat,
                    ) == last.walk_back(start, end, limit),
                decreases search.depth[current],
            {
                let ghost trail = path@;
                let prev = *previous.get(&current).unwrap();
                path.push(prev);
                proof {
                    let steps = (limit - (trail.len() - 1)) as nat;
                    lemma_walk_back_step(last, start, current, steps);
                    assert(path@.drop_last() =~= trail);
                    assert(trail =~= trail.drop_last() + seq![current]);
                    assert(path@.drop_last() + last.walk_back(start, prev, (steps - 1) as nat)
                        =~= trail.drop_last() + last.walk_back(start, current, steps));
                }
                current = prev;
            }
            proof {
                assert(last.walk_back(start, start, (limit - (path@.len() - 1)) as nat) == seq![start]);
                assert(path@ =~= path@.drop_last() + seq![start]);
            }
            let path = reversed(&path);
            proof {
                let p = path@;
                assert forall|k: int| 0 <= k < p.len() - 1 implies has_edge(
                    self@,
                    #[trigger] p[k],
                    p[k + 1],
                ) by {
                    let turned = p.len() - 2 - k;
                    assert(has_edge(self@, p.reverse()[turned + 1], p.reverse()[turned]));
                }
                assert(connects(self@, p, start, end));
                if start == end {
                    assert(p =~= seq![start]);
                }
            }
            Some(path)
        } else {
            None
        }
    }
}

/// The view of a graph is finite, and a node that has an entry in it has at
/// least one successor.
pub proof fn lemma_view_has_no_empty_entry(graph: Graph)
    ensures
        is_finite_graph(graph@),
        forall|u: usize| #[trigger] graph@.contains_key(u) ==> graph@[u].len() > 0,
{
    assert(graph@.dom().subset_of(graph.edges@.dom()));
    assert forall|u: usize| #[trigger] graph@.contains_key(u) implies graph@[u].finite()
        && graph@[u].len() > 0 by {
        let list = graph.edges@[u]@;
        vstd::seq_lib::seq_to_set_is_finite(list);
        assert(list.to_set().contains(list[0]));
        vstd::set::axiom_set_contains_len(list.to_set(), list[0]);
    }
}

} // verus!
