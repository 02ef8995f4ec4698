//! Breadth-first search over adjacency lists.
//!
//! Nodes are the indices of a vector; the list at an index holds the
//! neighbors of that node.

use vstd::prelude::*;
use vstd::set_lib::lemma_len_subset;
use crate::walks::{
    has_edge, is_distance, lemma_closed_set_holds_reached, lemma_reaches_extend,
    lemma_reaches_self, lemma_reaches_split, reachable, reaches_in,
};

verus! {

/// The graph that adjacency lists stand for.
pub open spec fn list_graph(links: Seq<Vec<usize>>) -> Map<usize, Set<usize>> {
    Map::new(|u: usize| u < links.len(), |u: usize| links[u as int]@.to_set())
}

/// Every entry of every list is the index of a list.
pub open spec fn lists_closed(links: Seq<Vec<usize>>) -> bool {
    forall|u: int, k: int|
        0 <= u < links.len() && 0 <= k < links[u]@.len() ==> #[trigger] links[u]@[k] < links.len()
}

/// Node `v` has been given a hop count.
spec fn seen(dist: Seq<Option<usize>>, v: usize) -> bool {
    v < dist.len() && dist[v as int] is Some
}

/// The hop count given to node `v`.
spec fn hops(dist: Seq<Option<usize>>, v: usize) -> nat {
    dist[v as int].unwrap() as nat
}

/// The state of a search from `start`: `order` lists the nodes seen so far
/// as they were found, those before `head` have had all their neighbors
/// looked at, and `pos` gives each seen node its place in `order`.
spec fn search_inv(
    links: Seq<Vec<usize>>,
    start: usize,
    dist: Seq<Option<usize>>,
    order: Seq<usize>,
    pos: Seq<int>,
    head: int,
) -> bool {
    let g = list_graph(links);
    &&& dist.len() == links.len()
    &&& pos.len() == links.len()
    &&& 0 <= head <= order.len()
    &&& order.len() > 0
    &&& order[0] == start
    &&& forall|i: int|
        0 <= i < order.len() ==> seen(dist, #[trigger] order[i]) && pos[order[i] as int] == i
            && hops(dist, order[i]) <= i
    &&& forall|v: usize| #[trigger]
        seen(dist, v) ==> 0 <= pos[v as int] < order.len() && order[pos[v as int]] == v
    &&& forall|i: int, j: int|
        0 <= i <= j < order.len() ==> hops(dist, #[trigger] order[i]) <= hops(
            dist,
            #[trigger] order[j],
        )
    &&& head < order.len() ==> forall|j: int|
        0 <= j < order.len() ==> hops(dist, #[trigger] order[j]) <= hops(dist, order[head]) + 1
    &&& forall|v: usize| #[trigger] seen(dist, v) ==> is_distance(g, start, v, hops(dist, v))
    &&& forall|u: usize, w: usize|
        seen(dist, u) && pos[u as int] < head && #[trigger] has_edge(g, u, w) ==> seen(dist, w)
    &&& head < order.len() ==> forall|v: usize, k: nat|
        k <= hops(dist, order[head]) && #[trigger] reaches_in(g, start, v, k) ==> seen(dist, v)
}

/// Distinct numbers below `n` are at most `n` many.
proof fn lemma_distinct_below(s: Seq<usize>, n: usize)
    requires
        s.no_duplicates(),
        forall|i: int| 0 <= i < s.len() ==> s[i] < n,
    ensures
        s.len() <= n,
{
    s.unique_seq_to_set();
    lemma_len_subset(s.to_set(), Set::<usize>::range(0, n));
}

/// No more nodes are seen than there are.
proof fn lemma_order_bounded(
    links: Seq<Vec<usize>>,
    start: usize,
    dist: Seq<Option<usize>>,
    order: Seq<usize>,
    pos: Seq<int>,
    head: int,
)
    requires
        search_inv(links, start, dist, order, pos, head),
        links.len() <= usize::MAX,
    ensures
        order.len() <= links.len(),
{
    lemma_distinct_below(order, links.len() as usize);
}

/// The search may start with `start` alone seen, at no hop.
proof fn lemma_search_begins(links: Seq<Vec<usize>>, start: usize, dist: Seq<Option<usize>>)
    requires
        start < links.len(),
        dist.len() == links.len(),
        forall|v: int| 0 <= v < dist.len() ==> dist[v] == if v == start {
            Some(0usize)
        } else {
            None
        },
    ensures
        search_inv(links, start, dist, seq![start], Seq::new(links.len(), |v: int| 0int), 0),
{
    lemma_reaches_self(list_graph(links), start);
}

/// A neighbor of the node at `head` that was not seen before is seen one
/// hop after that node, and that is its distance.
proof fn lemma_search_finds(
    links: Seq<Vec<usize>>,
    start: usize,
    dist: Seq<Option<usize>>,
    order: Seq<usize>,
    pos: Seq<int>,
    head: int,
    w: usize,
)
    requires
        search_inv(links, start, dist, order, pos, head),
        head < order.len(),
        has_edge(list_graph(links), order[head], w),
        w < links.len(),
        !seen(dist, w),
        hops(dist, order[head]) + 1 <= usize::MAX,
    ensures
        search_inv(
            links,
            start,
            dist.update(w as int, Some((hops(dist, order[head]) + 1) as usize)),
            order.push(w),
            pos.update(w as int, order.len() as int),
            head,
        ),
{
    let g = list_graph(links);
    let u = order[head];
    let du = hops(dist, u);
    let dist2 = dist.update(w as int, Some((du + 1) as usize));
    assert forall|v: usize| #[trigger] seen(dist2, v) implies (seen(dist, v) || v == w) by {}
    // A shorter walk to `w` would have had it seen by now.
    assert(is_distance(g, start, w, du + 1)) by {
        lemma_reaches_extend(g, start, u, w, du);
    }
}

/// Once every neighbor of the node at `head` is seen, the search may go on
/// to the next node in `order`.
proof fn lemma_search_advances(
    links: Seq<Vec<usize>>,
    start: usize,
    dist: Seq<Option<usize>>,
    order: Seq<usize>,
    pos: Seq<int>,
    head: int,
)
    requires
        search_inv(links, start, dist, order, pos, head),
        head < order.len(),
        forall|w: usize| #[trigger] has_edge(list_graph(links), order[head], w) ==> seen(dist, w),
    ensures
        search_inv(links, start, dist, order, pos, head + 1),
{
    let g = list_graph(links);
    let u = order[head];
    if head + 1 < order.len() {
        let next = order[head + 1];
        assert forall|v: usize, k: nat|
            k <= hops(dist, next) && #[trigger] reaches_in(g, start, v, k) implies seen(
            dist,
            v,
        ) by {
            if k > hops(dist, u) {
                // The walk arrives from a node that is nearer than `next`,
                // which stands before it in `order` and has had its
                // neighbors seen.
                lemma_reaches_split(g, start, v, k);
            }
        }
    }
}

/// When no seen node is left to look at, the nodes seen are those that
/// `start` reaches.
proof fn lemma_search_ends(
    links: Seq<Vec<usize>>,
    start: usize,
    dist: Seq<Option<usize>>,
    order: Seq<usize>,
    pos: Seq<int>,
    v: usize,
)
    requires
        search_inv(links, start, dist, order, pos, order.len() as int),
        reachable(list_graph(links), start, v),
    ensures
        seen(dist, v),
{
    let g = list_graph(links);
    let found = Set::new(|x: usize| seen(dist, x));
    let n = choose|n: nat| reaches_in(g, start, v, n);
    lemma_closed_set_holds_reached(g, start, found, v, n);
}

/// Hop distances from `start` to every node: `Some(d)` where the shortest
/// walk from `start` takes `d` edges, `None` where no walk leads there.
pub fn hop_counts(links: &Vec<Vec<usize>>, start: usize) -> (dist: Vec<Option<usize>>)
    requires
        start < links.len(),
        lists_closed(links@),
    ensures
        dist.len() == links.len(),
        forall|v: usize|
            v < links.len() ==> match #[trigger] dist[v as int] {
                Some(d) => is_distance(list_graph(links@), start, v, d as nat),
                None => !reachable(list_graph(links@), start, v),
            },
{
    let n = links.len();
    let mut dist: Vec<Option<usize>> = Vec::new();
    let mut v: usize = 0;
    while v < n
        invariant
            v <= n,
            start < n,
            dist.len() == v,
            forall|x: int| 0 <= x < v ==> dist[x] == if x == start {
                Some(0usize)
            } else {
                None
            },
        decreases n - v,
    {
        dist.push(if v == start { Some(0) } else { None });
        v += 1;
    }
    let mut order: Vec<usize> = Vec::new();
    order.push(start);
    let ghost mut pos: Seq<int> = Seq::new(n as nat, |v: int| 0int);
    let mut head: usize = 0;
    proof {
        lemma_search_begins(links@, start, dist@);
    }
    while head < order.len()
        invariant
            n == links.len(),
            lists_closed(links@),
            search_inv(links@, start, dist@, order@, pos, head as int),
        decreases n - head,
    {
        proof {
            lemma_order_bounded(links@, start, dist@, order@, pos, head as int);
        }
        let u = order[head];
        let du = dist[u].unwrap();
        let nbrs = &links[u];
        let mut k: usize = 0;
        while k < nbrs.len()
            invariant
                n == links.len(),
                lists_closed(links@),
                search_inv(links@, start, dist@, order@, pos, head as int),
                head < order.len(),
                u == order[head as int],
                u < n,
                *nbrs == links[u as int],
                du == hops(dist@, u),
                k <= nbrs.len(),
                forall|j: int| 0 <= j < k ==> seen(dist@, #[trigger] nbrs@[j]),
            decreases nbrs.len() - k,
        {
            let w = nbrs[k];
            if dist[w].is_none() {
                proof {
                    lemma_search_finds(links@, start, dist@, order@, pos, head as int, w);
                    pos = pos.update(w as int, order@.len() as int);
                }
                dist.set(w, Some(du + 1));
                order.push(w);
            }
            k += 1;
        }
        proof {
            lemma_search_advances(links@, start, dist@, order@, pos, head as int);
        }
        head += 1;
    }
    proof {
        assert forall|v: usize| v < links.len() implies match #[trigger] dist[v as int] {
            Some(d) => is_distance(list_graph(links@), start, v, d as nat),
            None => !reachable(list_graph(links@), start, v),
        } by {
            if !seen(dist@, v) && reachable(list_graph(links@), start, v) {
                lemma_search_ends(links@, start, dist@, order@, pos, v);
            }
        }
    }
    dist
}

} // verus!
