//! The mathematical model of a graph: the sequence of its edges, in the order
//! in which they were added. Degrees, successor lists, paths and the
//! centrality score are all defined over that sequence.

use vstd::prelude::*;

verus! {

/// A node id. Nodes have no separate declaration: a node exists once it is
/// the endpoint of an edge.
pub type Node = usize;

/// Number of edges that leave `n`.
pub open spec fn out_count(es: Seq<(Node, Node)>, n: Node) -> nat
    decreases es.len(),
{
    if es.len() == 0 {
        0
    } else {
        out_count(es.drop_last(), n) + if es.last().0 == n {
            1nat
        } else {
            0nat
        }
    }
}

/// Number of edges that enter `n`, parallel edges counted one by one.
pub open spec fn in_count(es: Seq<(Node, Node)>, n: Node) -> nat
    decreases es.len(),
{
    if es.len() == 0 {
        0
    } else {
        in_count(es.drop_last(), n) + if es.last().1 == n {
            1nat
        } else {
            0nat
        }
    }
}

/// The destinations of the edges that leave `u`, in insertion order.
pub open spec fn successors(es: Seq<(Node, Node)>, u: Node) -> Seq<Node>
    decreases es.len(),
{
    if es.len() == 0 {
        Seq::empty()
    } else if es.last().0 == u {
        successors(es.drop_last(), u).push(es.last().1)
    } else {
        successors(es.drop_last(), u)
    }
}

/// `n` is the origin of at least one edge.
pub open spec fn is_source(es: Seq<(Node, Node)>, n: Node) -> bool {
    exists|i: int| 0 <= i < es.len() && (#[trigger] es[i]).0 == n
}

/// The nodes that are the origin of at least one edge.
pub open spec fn sources(es: Seq<(Node, Node)>) -> Set<Node> {
    Set::new(|n: Node| is_source(es, n))
}

/// Every consecutive pair of `p` is an edge; `p` holds at least one node.
pub open spec fn is_path(es: Seq<(Node, Node)>, p: Seq<Node>) -> bool {
    &&& p.len() >= 1
    &&& forall|i: int| 0 <= i < p.len() - 1 ==> #[trigger] es.contains((p[i], p[i + 1]))
}

/// `p` is a path that starts at `s` and ends at `t`.
pub open spec fn is_path_between(es: Seq<(Node, Node)>, p: Seq<Node>, s: Node, t: Node) -> bool {
    &&& is_path(es, p)
    &&& p[0] == s
    &&& p.last() == t
}

/// `t` can be reached from `s` by following edges in their direction.
pub open spec fn reachable(es: Seq<(Node, Node)>, s: Node, t: Node) -> bool {
    exists|p: Seq<Node>| is_path_between(es, p, s, t)
}

/// `p` is a path from `s` to `t` with no more nodes than any other such path.
pub open spec fn is_shortest_path(es: Seq<(Node, Node)>, p: Seq<Node>, s: Node, t: Node) -> bool {
    &&& is_path_between(es, p, s, t)
    &&& forall|q: Seq<Node>| #[trigger] is_path_between(es, q, s, t) ==> p.len() <= q.len()
}

/// Numerator of the centrality of `n`: its in-degree plus its out-degree, or
/// zero when the graph has at most one source node.
pub open spec fn centrality_numerator(es: Seq<(Node, Node)>, n: Node) -> nat {
    if sources(es).len() <= 1 {
        0
    } else {
        in_count(es, n) + out_count(es, n)
    }
}

/// Denominator of every centrality: the number of source nodes, or one when
/// there is at most one.
pub open spec fn centrality_denominator(es: Seq<(Node, Node)>) -> nat {
    if sources(es).len() <= 1 {
        1
    } else {
        sources(es).len()
    }
}

/// A node with no outgoing edge has no successors.
pub proof fn lemma_successors_of_non_source(es: Seq<(Node, Node)>, u: Node)
    requires
        !is_source(es, u),
    ensures
        successors(es, u) == Seq::<Node>::empty(),
    decreases es.len(),
{
    if es.len() > 0 {
        let rest = es.drop_last();
        assert forall|i: int| 0 <= i < rest.len() implies (#[trigger] rest[i]).0 != u by {
            assert(es[i] == rest[i]);
        }
        assert(es[es.len() - 1] == es.last());
        lemma_successors_of_non_source(rest, u);
    }
}

/// The successors of `u` are as many as the edges that leave it.
pub proof fn lemma_successors_len(es: Seq<(Node, Node)>, u: Node)
    ensures
        successors(es, u).len() == out_count(es, u),
    decreases es.len(),
{
    if es.len() > 0 {
        lemma_successors_len(es.drop_last(), u);
    }
}

/// `w` is a successor of `u` exactly when the edge `(u, w)` is present.
pub proof fn lemma_successors_contains(es: Seq<(Node, Node)>, u: Node, w: Node)
    ensures
        successors(es, u).contains(w) <==> es.contains((u, w)),
    decreases es.len(),
{
    if es.len() > 0 {
        let rest = es.drop_last();
        lemma_successors_contains(rest, u, w);
        assert(es[es.len() - 1] == es.last());
        if es.contains((u, w)) {
            let i = choose|i: int| 0 <= i < es.len() && es[i] == (u, w);
            if i < es.len() - 1 {
                assert(rest[i] == es[i]);
            }
        }
        if rest.contains((u, w)) {
            let i = choose|i: int| 0 <= i < rest.len() && rest[i] == (u, w);
            assert(es[i] == rest[i]);
        }
        if es.last().0 == u {
            let s = successors(rest, u);
            if s.push(es.last().1).contains(w) {
                let k = choose|k: int| 0 <= k < s.len() + 1 && s.push(es.last().1)[k] == w;
                if k < s.len() {
                    assert(s[k] == w);
                }
            }
            if s.contains(w) {
                let k = choose|k: int| 0 <= k < s.len() && s[k] == w;
                assert(s.push(es.last().1)[k] == w);
            }
            assert(s.push(es.last().1)[s.len() as int] == es.last().1);
        }
    }
}

/// The sum of `f` over the nodes of `ns`.
pub open spec fn sum_over(ns: Seq<Node>, f: spec_fn(Node) -> nat) -> nat
    decreases ns.len(),
{
    if ns.len() == 0 {
        0
    } else {
        sum_over(ns.drop_last(), f) + f(ns.last())
    }
}

/// A function that is zero everywhere sums to zero.
pub proof fn lemma_sum_over_zero(ns: Seq<Node>, f: spec_fn(Node) -> nat)
    requires
        forall|n: Node| #[trigger] f(n) == 0,
    ensures
        sum_over(ns, f) == 0,
    decreases ns.len(),
{
    if ns.len() > 0 {
        lemma_sum_over_zero(ns.drop_last(), f);
    }
}

/// Raising `f` by one at the single node `a` raises its sum over a list of
/// distinct nodes by one if `a` is listed, and leaves it alone otherwise.
pub proof fn lemma_sum_over_bump(
    ns: Seq<Node>,
    f: spec_fn(Node) -> nat,
    g: spec_fn(Node) -> nat,
    a: Node,
)
    requires
        ns.no_duplicates(),
        forall|n: Node| #[trigger] f(n) == g(n) + if n == a {
            1nat
        } else {
            0nat
        },
    ensures
        sum_over(ns, f) == sum_over(ns, g) + if ns.contains(a) {
            1nat
        } else {
            0nat
        },
    decreases ns.len(),
{
    if ns.len() > 0 {
        let rest = ns.drop_last();
        let x = ns.last();
        assert(rest.no_duplicates()) by {
            assert forall|i: int, j: int|
                0 <= i < rest.len() && 0 <= j < rest.len() && i != j implies rest[i] != rest[j] by {
                assert(rest[i] == ns[i] && rest[j] == ns[j]);
            }
        }
        lemma_sum_over_bump(rest, f, g, a);
        assert(ns[ns.len() - 1] == x);
        if rest.contains(a) {
            let k = choose|k: int| 0 <= k < rest.len() && rest[k] == a;
            assert(ns[k] == a);
            assert(ns.contains(a));
        }
        if ns.contains(a) && x != a {
            let k = choose|k: int| 0 <= k < ns.len() && ns[k] == a;
            assert(rest[k] == a);
        }
        if x == a {
            assert(ns.contains(a));
        }
    }
}

/// Summed over a list of distinct nodes that holds every endpoint, the
/// out-degrees and the in-degrees each add up to the number of edges.
pub(crate) proof fn lemma_degree_sums(es: Seq<(Node, Node)>, ns: Seq<Node>)
    requires
        ns.no_duplicates(),
        forall|i: int| 0 <= i < es.len() ==> ns.contains((#[trigger] es[i]).0) && ns.contains(es[i].1),
    ensures
        sum_over(ns, |n: Node| out_count(es, n)) == es.len(),
        sum_over(ns, |n: Node| in_count(es, n)) == es.len(),
    decreases es.len(),
{
    if es.len() > 0 {
        let rest = es.drop_last();
        let e = es.last();
        assert(es[es.len() - 1] == e);
        assert forall|i: int| 0 <= i < rest.len() implies ns.contains((#[trigger] rest[i]).0)
            && ns.contains(rest[i].1) by {
            assert(rest[i] == es[i]);
        }
        lemma_degree_sums(rest, ns);
        lemma_sum_over_bump(ns, |n: Node| out_count(es, n), |n: Node| out_count(rest, n), e.0);
        lemma_sum_over_bump(ns, |n: Node| in_count(es, n), |n: Node| in_count(rest, n), e.1);
    } else {
        lemma_sum_over_zero(ns, |n: Node| out_count(es, n));
        lemma_sum_over_zero(ns, |n: Node| in_count(es, n));
    }
}

/// The origin of every edge has out-degree at least one and its destination
/// in-degree at least one.
pub(crate) proof fn lemma_edge_endpoints_counted(es: Seq<(Node, Node)>, i: int)
    requires
        0 <= i < es.len(),
    ensures
        out_count(es, es[i].0) >= 1,
        in_count(es, es[i].1) >= 1,
    decreases es.len(),
{
    if i < es.len() - 1 {
        let rest = es.drop_last();
        assert(rest[i] == es[i]);
        lemma_edge_endpoints_counted(rest, i);
    }
}

} // verus!
