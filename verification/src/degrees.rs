//! Degrees: how many nodes have which degree, and what such a histogram
//! adds up to.

use vstd::prelude::*;
use vstd::set_lib::{lemma_set_difference_len, lemma_set_subset_finite};

verus! {

/// The nodes with exactly `d` neighbors.
pub open spec fn nodes_of_degree<N>(adj: Map<N, Set<N>>, d: nat) -> Set<N> {
    Set::new(|a: N| adj.contains_key(a) && adj[a].len() == d)
}

/// `hist` has a bucket for exactly the degrees that occur in the graph, and
/// each bucket counts the nodes of that degree.
pub open spec fn is_histogram<N>(adj: Map<N, Set<N>>, hist: Map<usize, usize>) -> bool {
    &&& forall|d: usize| #[trigger]
        hist.contains_key(d) <==> exists|a: N| #[trigger] nodes_of_degree(adj, d as nat).contains(a)
    &&& forall|d: usize| #[trigger]
        hist.contains_key(d) ==> hist[d] as nat == nodes_of_degree(adj, d as nat).len()
}

/// `table` gives every node, and nothing else, its number of neighbors.
pub open spec fn is_degree_table<N>(adj: Map<N, Set<N>>, table: Map<N, usize>) -> bool {
    &&& forall|a: N|
        #![trigger table.contains_key(a)]
        #![trigger adj.contains_key(a)]
        table.contains_key(a) <==> adj.contains_key(a)
    &&& forall|a: N| #[trigger] table.contains_key(a) ==> table[a] as nat == adj[a].len()
}

/// The sum of the counts in all buckets of a histogram.
pub open spec fn total(hist: Map<usize, usize>) -> nat
    decreases hist.dom().len(),
    when hist.dom().finite()
{
    if hist.dom().len() == 0 {
        0
    } else {
        let d = hist.dom().choose();
        hist[d] as nat + total(hist.remove(d))
    }
}

/// The buckets of a histogram may be added up in any order: whichever is
/// taken out first, the sum is the same.
pub proof fn lemma_total_remove(hist: Map<usize, usize>, d: usize)
    requires
        hist.dom().finite(),
        hist.contains_key(d),
    ensures
        total(hist) == hist[d] as nat + total(hist.remove(d)),
    decreases hist.dom().len(),
{
    let c = hist.dom().choose();
    if c != d {
        lemma_total_remove(hist.remove(c), d);
        lemma_total_remove(hist.remove(d), c);
        assert(hist.remove(c).remove(d) =~= hist.remove(d).remove(c));
    }
}

/// A histogram of a finite graph has finitely many buckets.
pub proof fn lemma_histogram_finite<N>(adj: Map<N, Set<N>>, hist: Map<usize, usize>)
    requires
        adj.dom().finite(),
        is_histogram(adj, hist),
    ensures
        hist.dom().finite(),
{
    let degree = |a: N| adj[a].len() as usize;
    let occurring = adj.dom().map(degree);
    adj.dom().lemma_map_finite(degree);
    lemma_set_subset_finite(occurring, hist.dom());
}

/// The counts of a histogram add up to the number of nodes, in every
/// finite graph in which no degree is beyond the range of the buckets.
pub proof fn lemma_histogram_total<N>(adj: Map<N, Set<N>>, hist: Map<usize, usize>)
    requires
        adj.dom().finite(),
        forall|a: N| adj.contains_key(a) ==> adj[a].len() <= usize::MAX,
        is_histogram(adj, hist),
    ensures
        total(hist) == adj.dom().len(),
    decreases hist.dom().len(),
{
    lemma_histogram_finite(adj, hist);
    if hist.dom().len() == 0 {
        if adj.dom().len() != 0 {
            let a = adj.dom().choose();
            assert(adj.contains_key(a));
            let d = adj[a].len() as usize;
            assert(nodes_of_degree(adj, d as nat).contains(a));
            assert(hist.contains_key(d));
        }
    } else {
        let d = hist.dom().choose();
        let bucket = nodes_of_degree(adj, d as nat);
        let rest = adj.remove_keys(bucket);
        let fewer = hist.remove(d);
        assert(rest.dom() =~= adj.dom().difference(bucket));
        assert(adj.dom().intersect(bucket) =~= bucket);
        lemma_set_difference_len(adj.dom(), bucket);
        assert forall|e: usize| #[trigger]
            fewer.contains_key(e) <==> exists|a: N| #[trigger]
                nodes_of_degree(rest, e as nat).contains(a) by {
            if fewer.contains_key(e) {
                let a = choose|a: N| #[trigger] nodes_of_degree(adj, e as nat).contains(a);
                assert(nodes_of_degree(rest, e as nat).contains(a));
            }
            if exists|a: N| #[trigger] nodes_of_degree(rest, e as nat).contains(a) {
                let a = choose|a: N| #[trigger] nodes_of_degree(rest, e as nat).contains(a);
                assert(nodes_of_degree(adj, e as nat).contains(a));
            }
        }
        assert forall|e: usize| #[trigger] fewer.contains_key(e) implies fewer[e] as nat
            == nodes_of_degree(rest, e as nat).len() by {
            assert(nodes_of_degree(rest, e as nat) =~= nodes_of_degree(adj, e as nat));
        }
        lemma_histogram_total(rest, fewer);
    }
}

} // verus!
