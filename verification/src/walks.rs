//! Walks, reachability and hop distance in a graph given by neighbor sets.
//!
//! A graph over nodes of type `N` is a `Map<N, Set<N>>`: its domain is the
//! node set, and a node maps to the set of its neighbors. Nothing here
//! assumes the graph to be undirected; an edge is read from the node that
//! lists the neighbor.

use vstd::prelude::*;

verus! {

/// `a` is a node and lists `b` among its neighbors.
pub open spec fn has_edge<N>(adj: Map<N, Set<N>>, a: N, b: N) -> bool {
    adj.contains_key(a) && adj[a].contains(b)
}

/// The `i`-th and the next node of `p` are joined by an edge.
pub open spec fn step<N>(adj: Map<N, Set<N>>, p: Seq<N>, i: int) -> bool {
    has_edge(adj, p[i], p[i + 1])
}

/// `p` is a non-empty sequence of nodes that starts at a node of the graph
/// and follows an edge at every step.
pub open spec fn is_walk<N>(adj: Map<N, Set<N>>, p: Seq<N>) -> bool {
    &&& p.len() > 0
    &&& adj.contains_key(p[0])
    &&& forall|i: int| 0 <= i < p.len() - 1 ==> #[trigger] step(adj, p, i)
}

/// `p` is a walk from `a` to `b`.
pub open spec fn joins<N>(adj: Map<N, Set<N>>, p: Seq<N>, a: N, b: N) -> bool {
    is_walk(adj, p) && p[0] == a && p[p.len() - 1] == b
}

/// Some walk from `a` to `b` takes exactly `n` edges.
pub open spec fn reaches_in<N>(adj: Map<N, Set<N>>, a: N, b: N, n: nat) -> bool {
    exists|p: Seq<N>| #[trigger] joins(adj, p, a, b) && p.len() == n + 1
}

/// Some walk leads from `a` to `b`.
pub open spec fn reachable<N>(adj: Map<N, Set<N>>, a: N, b: N) -> bool {
    exists|n: nat| reaches_in(adj, a, b, n)
}

/// `d` is the least number of edges of any walk from `a` to `b`.
pub open spec fn is_distance<N>(adj: Map<N, Set<N>>, a: N, b: N, d: nat) -> bool {
    &&& reaches_in(adj, a, b, d)
    &&& forall|n: nat| n < d ==> !reaches_in(adj, a, b, n)
}

/// `table` gives every node that `a` reaches, and nothing else, its
/// distance from `a`.
pub open spec fn is_distance_table<N>(adj: Map<N, Set<N>>, a: N, table: Map<N, usize>) -> bool {
    &&& forall|b: N|
        #![trigger table.contains_key(b)]
        #![trigger reachable(adj, a, b)]
        table.contains_key(b) <==> reachable(adj, a, b)
    &&& forall|b: N| #[trigger] table.contains_key(b) ==> is_distance(adj, a, b, table[b] as nat)
}

/// Every node reaches itself with no edge.
pub proof fn lemma_reaches_self<N>(adj: Map<N, Set<N>>, a: N)
    requires
        adj.contains_key(a),
    ensures
        reaches_in(adj, a, a, 0),
        is_distance(adj, a, a, 0),
{
    let p = seq![a];
    assert(joins(adj, p, a, a));
}

/// A walk can be prolonged by one edge that leaves its last node.
pub proof fn lemma_reaches_extend<N>(adj: Map<N, Set<N>>, a: N, b: N, c: N, n: nat)
    requires
        reaches_in(adj, a, b, n),
        has_edge(adj, b, c),
    ensures
        reaches_in(adj, a, c, n + 1),
{
    let p = choose|p: Seq<N>| #[trigger] joins(adj, p, a, b) && p.len() == n + 1;
    let q = p.push(c);
    assert forall|i: int| 0 <= i < q.len() - 1 implies #[trigger] step(adj, q, i) by {
        if i < p.len() - 1 {
            assert(step(adj, p, i));
        }
    }
    assert(joins(adj, q, a, c));
}

/// A walk of at least one edge arrives over an edge from a node that is
/// reached with one edge less.
pub proof fn lemma_reaches_split<N>(adj: Map<N, Set<N>>, a: N, c: N, n: nat) -> (b: N)
    requires
        reaches_in(adj, a, c, n),
        n > 0,
    ensures
        reaches_in(adj, a, b, (n - 1) as nat),
        has_edge(adj, b, c),
{
    let p = choose|p: Seq<N>| #[trigger] joins(adj, p, a, c) && p.len() == n + 1;
    let q = p.drop_last();
    let b = q[q.len() - 1];
    assert forall|i: int| 0 <= i < q.len() - 1 implies #[trigger] step(adj, q, i) by {
        assert(step(adj, p, i));
    }
    assert(joins(adj, q, a, b));
    assert(step(adj, p, n - 1));
    b
}

/// A pair of nodes has at most one distance.
pub proof fn lemma_distance_unique<N>(adj: Map<N, Set<N>>, a: N, b: N, d1: nat, d2: nat)
    requires
        is_distance(adj, a, b, d1),
        is_distance(adj, a, b, d2),
    ensures
        d1 == d2,
{
}

/// The distances from a node are determined by the graph: two distance
/// tables for it are the same.
pub proof fn lemma_distance_table_unique<N>(
    adj: Map<N, Set<N>>,
    a: N,
    table: Map<N, usize>,
    other: Map<N, usize>,
)
    requires
        is_distance_table(adj, a, table),
        is_distance_table(adj, a, other),
    ensures
        table == other,
{
    assert forall|b: N| table.contains_key(b) implies other.contains_key(b) && table[b]
        == other[b] by {
        assert(reachable(adj, a, b));
        lemma_distance_unique(adj, a, b, table[b] as nat, other[b] as nat);
    }
    assert forall|b: N| other.contains_key(b) implies table.contains_key(b) by {
        assert(reachable(adj, a, b));
    }
    assert(table =~= other);
}

/// Walks start at nodes: what is no node reaches nothing, not even itself,
/// and its distance table is empty.
pub proof fn lemma_distance_table_of_no_node<N>(adj: Map<N, Set<N>>, a: N, table: Map<N, usize>)
    requires
        !adj.contains_key(a),
        is_distance_table(adj, a, table),
    ensures
        table == Map::<N, usize>::empty(),
{
    assert forall|b: N| !table.contains_key(b) by {
        if reachable(adj, a, b) {
            let n = choose|n: nat| reaches_in(adj, a, b, n);
            let p = choose|p: Seq<N>| #[trigger] joins(adj, p, a, b) && p.len() == n + 1;
            assert(adj.contains_key(p[0]));
        }
    }
    assert(table =~= Map::<N, usize>::empty());
}

/// A set of nodes that holds `a` and every neighbor of each of its members
/// holds all that `a` reaches.
pub proof fn lemma_closed_set_holds_reached<N>(
    adj: Map<N, Set<N>>,
    a: N,
    closed: Set<N>,
    b: N,
    n: nat,
)
    requires
        closed.contains(a),
        forall|x: N, y: N|
            closed.contains(x) && #[trigger] has_edge(adj, x, y) ==> closed.contains(y),
        reaches_in(adj, a, b, n),
    ensures
        closed.contains(b),
    decreases n,
{
    if n > 0 {
        let x = lemma_reaches_split(adj, a, b, n);
        lemma_closed_set_holds_reached(adj, a, closed, x, (n - 1) as nat);
    }
}

} // verus!
