//! The bookkeeping of a breadth-first search and the two facts that make it
//! correct: a node is first reached along a shortest path, and once the
//! frontier is empty every reachable node has been reached.

use vstd::prelude::*;

use crate::model::{is_path, Node};

verus! {

/// The search tree built so far: every reached node but `start` records the
/// node it was reached from, over an edge, one step further from `start`.
pub open spec fn search_tree(
    es: Seq<(Node, Node)>,
    start: Node,
    visited: Set<Node>,
    prev: Map<Node, Node>,
    dist: Map<Node, nat>,
) -> bool {
    &&& visited.contains(start)
    &&& dist[start] == 0
    &&& forall|v: Node| #[trigger] prev.contains_key(v) <==> visited.contains(v) && v != start
    &&& forall|v: Node| #[trigger]
        prev.contains_key(v) ==> {
            &&& visited.contains(prev[v])
            &&& es.contains((prev[v], v))
            &&& dist[v] == dist[prev[v]] + 1
        }
}

/// The queue holds distinct reached nodes, in non-decreasing distance, all
/// within `lo` and `lo + 1`.
pub open spec fn queue_ordered(
    visited: Set<Node>,
    queue: Seq<Node>,
    dist: Map<Node, nat>,
    lo: nat,
) -> bool {
    &&& queue.no_duplicates()
    &&& forall|i: int|
        0 <= i < queue.len() ==> visited.contains(#[trigger] queue[i]) && lo <= dist[queue[i]]
            <= lo + 1
    &&& forall|i: int, j: int|
        0 <= i <= j < queue.len() ==> dist[#[trigger] queue[i]] <= dist[#[trigger] queue[j]]
}

/// Every node reached and no longer queued lies within distance `lo`.
pub open spec fn settled_below(
    visited: Set<Node>,
    queue: Seq<Node>,
    dist: Map<Node, nat>,
    lo: nat,
) -> bool {
    forall|u: Node| #[trigger] visited.contains(u) && !queue.contains(u) ==> dist[u] <= lo
}

/// Every node reached, no longer queued and not in `skip` has all of its
/// successors reached, at most one step further.
pub open spec fn closed_except(
    es: Seq<(Node, Node)>,
    visited: Set<Node>,
    queue: Seq<Node>,
    dist: Map<Node, nat>,
    skip: Set<Node>,
) -> bool {
    forall|u: Node, w: Node|
        visited.contains(u) && !queue.contains(u) && !skip.contains(u) && #[trigger] es.contains(
            (u, w),
        ) ==> visited.contains(w) && dist[w] <= dist[u] + 1
}

/// Along any path from `start`, the end node is either reached with a
/// distance no greater than the path's edge count, or lies beyond the
/// front of the queue.
pub proof fn lemma_frontier_bound(
    es: Seq<(Node, Node)>,
    start: Node,
    visited: Set<Node>,
    queue: Seq<Node>,
    dist: Map<Node, nat>,
    q: Seq<Node>,
)
    requires
        queue.len() > 0,
        visited.contains(start),
        dist[start] == 0,
        queue_ordered(visited, queue, dist, dist[queue[0]]),
        closed_except(es, visited, queue, dist, Set::empty()),
        is_path(es, q),
        q[0] == start,
    ensures
        (visited.contains(q.last()) && dist[q.last()] <= q.len() - 1) || q.len() - 1 > dist[queue[0]],
    decreases q.len(),
{
    if q.len() > 1 {
        let q2 = q.drop_last();
        assert forall|i: int| 0 <= i < q2.len() - 1 implies #[trigger] es.contains(
            (q2[i], q2[i + 1]),
        ) by {
            assert(q2[i] == q[i] && q2[i + 1] == q[i + 1]);
        }
        lemma_frontier_bound(es, start, visited, queue, dist, q2);
        let y = q2.last();
        let x = q.last();
        assert(q[q.len() - 2] == y);
        let i = q.len() - 2;
        assert(es.contains((q[i], q[i + 1])));
        assert(q[i + 1] == q.last());
        if visited.contains(y) && dist[y] <= q2.len() - 1 {
            if queue.contains(y) {
                let k = choose|k: int| 0 <= k < queue.len() && queue[k] == y;
                assert(dist[queue[0]] <= dist[queue[k]]);
            } else {
                assert(!Set::<Node>::empty().contains(y));
                assert(es.contains((y, x)));
            }
        }
    }
}

/// When every reached node has all of its successors reached, every node on
/// a path from a reached node is reached.
pub proof fn lemma_closed_reach(
    es: Seq<(Node, Node)>,
    start: Node,
    visited: Set<Node>,
    q: Seq<Node>,
)
    requires
        visited.contains(start),
        forall|u: Node, w: Node| visited.contains(u) && #[trigger] es.contains((u, w)) ==> visited.contains(w),
        is_path(es, q),
        q[0] == start,
    ensures
        visited.contains(q.last()),
    decreases q.len(),
{
    if q.len() > 1 {
        let q2 = q.drop_last();
        assert forall|i: int| 0 <= i < q2.len() - 1 implies #[trigger] es.contains(
            (q2[i], q2[i + 1]),
        ) by {
            assert(q2[i] == q[i] && q2[i + 1] == q[i + 1]);
        }
        lemma_closed_reach(es, start, visited, q2);
        assert(q[q.len() - 2] == q2.last());
        let i = q.len() - 2;
        assert(es.contains((q[i], q[i + 1])));
        assert(q[i + 1] == q.last());
    }
}

} // verus!
