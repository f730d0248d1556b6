//! The graph itself: adjacency lists keyed by source node, beside the edge
//! list in insertion order.

use std::collections::{HashMap, HashSet, VecDeque};
use vstd::set_lib::lemma_len_subset;
use vstd::prelude::*;

use crate::model::{
    centrality_denominator, centrality_numerator, in_count, is_path_between, is_shortest_path,
    is_source, lemma_degree_sums, lemma_edge_endpoints_counted, lemma_successors_contains,
    lemma_successors_len, lemma_successors_of_non_source, out_count, reachable, sources,
    successors, sum_over, Node,
};
use crate::paths::{
    closed_except, lemma_closed_reach, lemma_frontier_bound, queue_ordered, search_tree,
    settled_below,
};

verus! {

broadcast use vstd::std_specs::hash::group_hash_axioms;

/// A centrality score as an exact fraction `numerator / denominator`.
/// The scores a `Graph` returns have a denominator of at least one.
#[derive(Clone, Copy, Debug, PartialEq, Eq)]
pub struct Centrality {
    pub numerator: u128,
    pub denominator: usize,
}

/// A directed multigraph. Parallel edges and self-loops are kept and counted
/// separately. A node has an adjacency list once it is the origin of an edge;
/// a node that is only ever a destination has none.
pub struct Graph {
    /// The destinations of each source node, in insertion order.
    adjacency_list: HashMap<Node, Vec<Node>>,
    /// Every edge, in insertion order: the in-degree scan and the walk over
    /// the source nodes go over it.
    edges: Vec<(Node, Node)>,
}

impl View for Graph {
    type V = Seq<(Node, Node)>;

    /// The edges in the order in which they were added.
    closed spec fn view(&self) -> Seq<(Node, Node)> {
        self.edges@
    }
}

impl Graph {
    /// The adjacency lists hold exactly the successors of each source node,
    /// in insertion order, and no other node has a list.
    pub closed spec fn wf(&self) -> bool {
        &&& forall|u: Node| #[trigger]
            self.adjacency_list@.contains_key(u) <==> is_source(self.edges@, u)
        &&& forall|u: Node| #[trigger]
            self.adjacency_list@.contains_key(u) ==> self.adjacency_list@[u]@ == successors(
                self.edges@,
                u,
            )
    }

    /// An empty graph.
    pub fn new() -> (r: Graph)
        ensures
            r.wf(),
            r@ == Seq::<(Node, Node)>::empty(),
    {
        Graph { adjacency_list: HashMap::new(), edges: Vec::new() }
    }

    /// Appends the edge `from -> to`. Only `from` gains an adjacency list.
    pub fn add_edge(&mut self, from: Node, to: Node)
        requires
            old(self).wf(),
        ensures
            final(self).wf(),
            final(self)@ == old(self)@.push((from, to)),
            out_count(final(self)@, from) == out_count(old(self)@, from) + 1,
            in_count(final(self)@, to) == in_count(old(self)@, to) + 1,
    {
        let ghost es = self.edges@;
        let mut targets = match self.adjacency_list.remove(&from) {
            Some(v) => v,
            None => Vec::new(),
        };
        proof {
            if !is_source(es, from) {
                lemma_successors_of_non_source(es, from);
            }
        }
        targets.push(to);
        self.adjacency_list.insert(from, targets);
        self.edges.push((from, to));
        proof {
            let es2 = self.edges@;
            assert(es2.drop_last() =~= es);
            assert(es2[es2.len() - 1] == (from, to));
            assert forall|u: Node| #[trigger]
                self.adjacency_list@.contains_key(u) <==> is_source(es2, u) by {
                if is_source(es, u) {
                    let i = choose|i: int| 0 <= i < es.len() && (#[trigger] es[i]).0 == u;
                    assert(es2[i] == es[i]);
                }
                if is_source(es2, u) && u != from {
                    let i = choose|i: int| 0 <= i < es2.len() && (#[trigger] es2[i]).0 == u;
                    assert(es2[i] == es[i]);
                }
            }
        }
    }

    /// Number of edges that leave `node`; zero for a node that was never a
    /// source.
    pub fn out_degree(&self, node: Node) -> (r: usize)
        requires
            self.wf(),
        ensures
            r == out_count(self@, node),
    {
        proof {
            lemma_successors_len(self.edges@, node);
            if !is_source(self.edges@, node) {
                lemma_successors_of_non_source(self.edges@, node);
            }
        }
        match self.adjacency_list.get(&node) {
            Some(neighbors) => neighbors.len(),
            None => 0,
        }
    }
    /// Number of edges that enter `node`, found by scanning every edge.
    pub fn in_degree(&self, node: Node) -> (r: usize)
        requires
            self.wf(),
        ensures
            r == in_count(self@, node),
    {
        let mut count: usize = 0;
        let mut i: usize = 0;
        while i < self.edges.len()
            invariant
                i <= self.edges@.len(),
                count <= i,
                count == in_count(self.edges@.take(i as int), node),
            decreases self.edges@.len() - i,
        {
            proof {
                assert(self.edges@.take(i + 1).drop_last() =~= self.edges@.take(i as int));
            }
            if self.edges[i].1 == node {
                count += 1;
            }
            i += 1;
        }
        proof {
            assert(self.edges@.take(i as int) =~= self.edges@);
        }
        count
    }

    /// Number of edges added so far, parallel edges included.
    pub fn num_edges(&self) -> (r: usize)
        ensures
            r == self@.len(),
    {
        self.edges.len()
    }

    /// Number of distinct source nodes.
    pub fn num_nodes(&self) -> (r: usize)
        requires
            self.wf(),
        ensures
            r == sources(self@).len(),
    {
        proof {
            assert(self.adjacency_list@.dom() =~= sources(self.edges@));
        }
        self.adjacency_list.len()
    }

    /// Centrality of `node`: its in-degree plus its out-degree over the
    /// number of source nodes, or zero when there is at most one source node.
    pub fn centrality(&self, node: Node) -> (r: Centrality)
        requires
            self.wf(),
        ensures
            r.numerator == centrality_numerator(self@, node),
            r.denominator == centrality_denominator(self@),
            sources(self@).len() <= 1 ==> r.numerator == 0,
    {
        let in_degree = self.in_degree(node);
        let out_degree = self.out_degree(node);
        let total_nodes = self.num_nodes();
        if total_nodes > 1 {
            Centrality { numerator: in_degree as u128 + out_degree as u128, denominator: total_nodes }
        } else {
            Centrality { numerator: 0, denominator: 1 }
        }
    }

    /// The centrality of every source node, keyed by node. Nodes that are
    /// only ever destinations are left out.
    pub fn graph_centralities(&self) -> (r: HashMap<Node, Centrality>)
        requires
            self.wf(),
        ensures
            r@.dom() == sources(self@),
            forall|n: Node| #[trigger]
                r@.contains_key(n) ==> r@[n].numerator == centrality_numerator(self@, n)
                    && r@[n].denominator == centrality_denominator(self@),
    {
        let mut centrality_values: HashMap<Node, Centrality> = HashMap::new();
        let mut i: usize = 0;
        while i < self.edges.len()
            invariant
                self.wf(),
                i <= self.edges@.len(),
                centrality_values@.dom() == sources(self.edges@.take(i as int)),
                forall|n: Node| #[trigger]
                    centrality_values@.contains_key(n) ==> centrality_values@[n].numerator
                        == centrality_numerator(self@, n) && centrality_values@[n].denominator
                        == centrality_denominator(self@),
            decreases self.edges@.len() - i,
        {
            let node = self.edges[i].0;
            proof {
                let t0 = self.edges@.take(i as int);
                let t1 = self.edges@.take(i + 1);
                assert(t1[i as int] == self.edges@[i as int]);
                assert forall|n: Node| #[trigger]
                    sources(t1).contains(n) <==> sources(t0).contains(n) || n == node by {
                    if is_source(t0, n) {
                        let k = choose|k: int| 0 <= k < t0.len() && (#[trigger] t0[k]).0 == n;
                        assert(t1[k] == t0[k]);
                    }
                    if is_source(t1, n) && n != node {
                        let k = choose|k: int| 0 <= k < t1.len() && (#[trigger] t1[k]).0 == n;
                        assert(t1[k] == t0[k]);
                    }
                }
                assert(sources(t1) =~= sources(t0).insert(node));
            }
            if !centrality_values.contains_key(&node) {
                let c = self.centrality(node);
                centrality_values.insert(node, c);
            }
            proof {
                assert(centrality_values@.dom() =~= sources(self.edges@.take(i + 1)));
            }
            i += 1;
        }
        proof {
            assert(self.edges@.take(i as int) =~= self.edges@);
        }
        centrality_values
    }

    /// Breadth-first search from `start`: a shortest path to `end`, both
    /// included, or `None` when `end` cannot be reached. Neighbours are
    /// explored in insertion order and a node keeps the first node that
    /// reached it.
    pub fn bfs_shortest_path(&self, start: Node, end: Node) -> (r: Option<Vec<Node>>)
        requires
            self.wf(),
        ensures
            match r {
                Some(p) => is_shortest_path(self@, p@, start, end),
                None => !reachable(self@, start, end),
            },
            start == end ==> r is Some && r->0@ == seq![start],
    {
        let ghost es = self.edges@;
        let ghost universe = es.map_values(|e: (Node, Node)| e.1).to_set().insert(start);
        let mut visited: HashSet<Node> = HashSet::new();
        let mut queue: VecDeque<Node> = VecDeque::new();
        let mut prev: HashMap<Node, Node> = HashMap::new();
        let ghost mut dist: Map<Node, nat> = Map::empty().insert(start, 0nat);
        let empty: Vec<Node> = Vec::new();
        queue.push_back(start);
        visited.insert(start);
        proof {
            assert(queue@ =~= seq![start]);
        }
        while queue.len() > 0
            invariant
                self.wf(),
                es == self.edges@,
                empty@ == Seq::<Node>::empty(),
                universe == es.map_values(|e: (Node, Node)| e.1).to_set().insert(start),
                universe.finite(),
                visited@.subset_of(universe),
                search_tree(es, start, visited@, prev@, dist),
                forall|i: int| 0 <= i < queue@.len() ==> visited@.contains(#[trigger] queue@[i]),
                queue@.len() > 0 ==> queue_ordered(visited@, queue@, dist, dist[queue@[0]]),
                queue@.len() > 0 ==> settled_below(visited@, queue@, dist, dist[queue@[0]]),
                closed_except(es, visited@, queue@, dist, Set::empty()),
                visited@.contains(end) ==> queue@.contains(end),
            decreases universe.len() - visited@.len(), queue@.len(),
        {
            proof {
                lemma_len_subset(visited@, universe);
            }
            let ghost q0 = queue@;
            let ghost vlen0 = visited@.len();
            let current = queue.pop_front().unwrap();
            let ghost d = dist[current];
            proof {
                assert(q0[0] == current);
                assert forall|i: int| 0 <= i < queue@.len() implies #[trigger] queue@[i] != current by {
                    assert(queue@[i] == q0[i + 1]);
                }
                assert forall|u: Node| #[trigger] queue@.contains(u) <==> q0.contains(u) && u != current by {
                    if queue@.contains(u) {
                        let i = choose|i: int| 0 <= i < queue@.len() && queue@[i] == u;
                        assert(q0[i + 1] == u);
                    }
                    if q0.contains(u) && u != current {
                        let i = choose|i: int| 0 <= i < q0.len() && q0[i] == u;
                        assert(queue@[i - 1] == u);
                    }
                }
                assert forall|i: int| 0 <= i < queue@.len() implies visited@.contains(#[trigger] queue@[i])
                    && d <= dist[queue@[i]] <= d + 1 by {
                    assert(queue@[i] == q0[i + 1]);
                }
            }
            if current == end {
                proof {
                    assert forall|q: Seq<Node>| #[trigger]
                        is_path_between(es, q, start, end) implies dist[end] + 1 <= q.len() by {
                        lemma_frontier_bound(es, start, visited@, q0, dist, q);
                    }
                }
                let path = trace_back(&prev, start, end, Ghost(es), Ghost(visited@), Ghost(dist));
                proof {
                    if start == end {
                        assert(is_path_between(es, seq![start], start, end));
                        assert(path@ =~= seq![start]);
                    }
                }
                return Some(path);
            }
            let neighbors: &Vec<Node> = match self.adjacency_list.get(&current) {
                Some(v) => v,
                None => &empty,
            };
            proof {
                if !is_source(es, current) {
                    lemma_successors_of_non_source(es, current);
                }
            }
            let ghost qlen1 = queue@.len();
            let mut j: usize = 0;
            while j < neighbors.len()
                invariant
                    es == self.edges@,
                    neighbors@ == successors(es, current),
                    j <= neighbors@.len(),
                    universe.finite(),
                    visited@.subset_of(universe),
                    universe == es.map_values(|e: (Node, Node)| e.1).to_set().insert(start),
                    visited@.len() + qlen1 == vlen0 + queue@.len(),
                    queue@.len() >= qlen1,
                    search_tree(es, start, visited@, prev@, dist),
                    visited@.contains(current),
                    !queue@.contains(current),
                    dist[current] == d,
                    current != end,
                    forall|i: int| 0 <= i < queue@.len() ==> visited@.contains(#[trigger] queue@[i]),
                    queue_ordered(visited@, queue@, dist, d),
                    settled_below(visited@, queue@, dist, d),
                    closed_except(es, visited@, queue@, dist, set![current]),
                    forall|k: int|
                        0 <= k < j ==> visited@.contains(#[trigger] neighbors@[k]) && dist[neighbors@[k]]
                            <= d + 1,
                    visited@.contains(end) ==> queue@.contains(end),
                decreases neighbors@.len() - j,
            {
                let w = neighbors[j];
                proof {
                    assert(successors(es, current).contains(w));
                    lemma_successors_contains(es, current, w);
                    let i = choose|i: int| 0 <= i < es.len() && es[i] == (current, w);
                    assert(es.map_values(|e: (Node, Node)| e.1)[i] == w);
                }
                if !visited.contains(&w) {
                    proof {
                        lemma_len_subset(visited@, universe);
                    }
                    let ghost q1 = queue@;
                    visited.insert(w);
                    prev.insert(w, current);
                    queue.push_back(w);
                    proof {
                        dist = dist.insert(w, d + 1);
                        assert forall|u: Node| #[trigger] queue@.contains(u) <==> q1.contains(u) || u == w by {
                            if queue@.contains(u) {
                                let i = choose|i: int| 0 <= i < queue@.len() && queue@[i] == u;
                                if i < q1.len() {
                                    assert(q1[i] == u);
                                }
                            }
                            if q1.contains(u) {
                                let i = choose|i: int| 0 <= i < q1.len() && q1[i] == u;
                                assert(queue@[i] == u);
                            }
                            assert(queue@[q1.len() as int] == w);
                        }
                        assert(!q1.contains(w));
                        assert forall|i: int, k: int| 0 <= i <= k < queue@.len() implies dist[
                            #[trigger] queue@[i]] <= dist[#[trigger] queue@[k]] by {
                            if k < q1.len() {
                                assert(queue@[i] == q1[i] && queue@[k] == q1[k]);
                            } else if i < q1.len() {
                                assert(queue@[i] == q1[i]);
                            }
                        }
                        assert forall|i: int| 0 <= i < queue@.len() implies visited@.contains(
                            #[trigger] queue@[i],
                        ) && d <= dist[queue@[i]] <= d + 1 by {
                            if i < q1.len() {
                                assert(queue@[i] == q1[i]);
                            }
                        }
                        assert(queue@.no_duplicates()) by {
                            assert forall|i: int, k: int|
                                0 <= i < queue@.len() && 0 <= k < queue@.len() && i != k implies queue@[i]
                                != queue@[k] by {
                                if i < q1.len() && k < q1.len() {
                                    assert(queue@[i] == q1[i] && queue@[k] == q1[k]);
                                } else if i < q1.len() {
                                    assert(queue@[i] == q1[i]);
                                    assert(q1.contains(q1[i]));
                                } else if k < q1.len() {
                                    assert(queue@[k] == q1[k]);
                                    assert(q1.contains(q1[k]));
                                }
                            }
                        }
                    }
                }
                j += 1;
            }
            proof {
                assert forall|w: Node| #[trigger] es.contains((current, w)) implies visited@.contains(w)
                    && dist[w] <= d + 1 by {
                    lemma_successors_contains(es, current, w);
                    let k = choose|k: int| 0 <= k < neighbors@.len() && neighbors@[k] == w;
                }
                assert(closed_except(es, visited@, queue@, dist, Set::empty()));
                lemma_len_subset(visited@, universe);
                if queue@.len() > 0 {
                    assert(dist[queue@[0]] >= d);
                    assert(queue_ordered(visited@, queue@, dist, dist[queue@[0]]));
                }
            }
        }
        proof {
            assert forall|q: Seq<Node>| !is_path_between(es, q, start, end) by {
                if is_path_between(es, q, start, end) {
                    lemma_closed_reach(es, start, visited@, q);
                }
            }
        }
        None
    }
}

/// Every edge is counted once at each end: the origin of each edge has
/// out-degree at least one and its destination in-degree at least one, and
/// over any list of distinct nodes that holds every endpoint, the out-degrees
/// and the in-degrees each sum to the number of edges.
pub proof fn lemma_degrees_count_edges(g: &Graph, ns: Seq<Node>)
    requires
        ns.no_duplicates(),
        forall|i: int| 0 <= i < g@.len() ==> ns.contains((#[trigger] g@[i]).0) && ns.contains(g@[i].1),
    ensures
        forall|i: int|
            0 <= i < g@.len() ==> out_count(g@, (#[trigger] g@[i]).0) >= 1 && in_count(g@, g@[i].1)
                >= 1,
        sum_over(ns, |n: Node| out_count(g@, n)) == g@.len(),
        sum_over(ns, |n: Node| in_count(g@, n)) == g@.len(),
{
    lemma_degree_sums(g@, ns);
    assert forall|i: int| 0 <= i < g@.len() implies out_count(g@, (#[trigger] g@[i]).0) >= 1
        && in_count(g@, g@[i].1) >= 1 by {
        lemma_edge_endpoints_counted(g@, i);
    }
}

/// Walks the search tree back from `end` to `start` and returns the nodes
/// met, from `start` to `end`.
#[verifier::rlimit(60)]
fn trace_back(
    prev: &HashMap<Node, Node>,
    start: Node,
    end: Node,
    Ghost(es): Ghost<Seq<(Node, Node)>>,
    Ghost(visited): Ghost<Set<Node>>,
    Ghost(dist): Ghost<Map<Node, nat>>,
) -> (path: Vec<Node>)
    requires
        search_tree(es, start, visited, prev@, dist),
        visited.contains(end),
    ensures
        is_path_between(es, path@, start, end),
        path@.len() == dist[end] + 1,
{
    let mut rev: Vec<Node> = Vec::new();
    let mut node: Node = end;
    while prev.contains_key(&node)
        invariant
            search_tree(es, start, visited, prev@, dist),
            visited.contains(node),
            visited.contains(end),
            rev@.push(node)[0] == end,
            forall|i: int|
                0 <= i < rev@.len() ==> es.contains(
                    (rev@.push(node)[i + 1], #[trigger] rev@.push(node)[i]),
                ),
            rev@.len() + dist[node] == dist[end],
        decreases dist[node],
    {
        let p: Node = *prev.get(&node).unwrap();
        let ghost b0 = rev@.push(node);
        rev.push(node);
        node = p;
        proof {
            let b = rev@.push(node);
            assert forall|i: int| 0 <= i < rev@.len() implies #[trigger] es.contains(
                (b[i + 1], b[i]),
            ) by {
                if i < rev@.len() - 1 {
                    assert(b[i] == b0[i] && b[i + 1] == b0[i + 1]);
                }
            }
            assert(b[0] == b0[0]);
        }
    }
    let ghost b = rev@.push(node);
    rev.push(node);
    let mut path: Vec<Node> = Vec::new();
    let mut k: usize = rev.len();
    while k > 0
        invariant
            k <= rev@.len(),
            path@.len() + k == rev@.len(),
            forall|i: int| 0 <= i < path@.len() ==> path@[i] == rev@[rev@.len() - 1 - i],
        decreases k,
    {
        k -= 1;
        path.push(rev[k]);
    }
    proof {
        let n = b.len();
        assert(rev@ == b);
        assert forall|i: int| 0 <= i < path@.len() - 1 implies #[trigger] es.contains(
            (path@[i], path@[i + 1]),
        ) by {
            let m = n - 2 - i;
            assert(es.contains((b[m + 1], b[m])));
            assert(path@[i] == b[m + 1]);
            assert(path@[i + 1] == b[m]);
        }
        assert(path@[0] == b[n - 1]);
        assert(path@[path@.len() - 1] == b[0]);
    }
    path
}

} // verus!
