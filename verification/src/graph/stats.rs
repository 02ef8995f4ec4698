//! Degrees of the nodes: their distribution, the degree of each node, and
//! the node of greatest degree.

use vstd::prelude::*;
use vstd::hash_map::StringHashMap;
use std::collections::HashMap;
use crate::degrees::{is_degree_table, is_histogram, lemma_histogram_total, nodes_of_degree, total};
use crate::graph::GameGraph;

verus! {

impl GameGraph {
    /// The names, among those of the first `v` places, of the nodes whose
    /// list has `d` entries.
    spec fn bucket(&self, v: int, d: nat) -> Set<Seq<char>> {
        Set::new(
            |a: Seq<char>|
                self.ids@.contains_key(a) && self.ids@[a] < v
                    && self.links@[self.ids@[a] as int]@.len() == d,
        )
    }

    /// Going one place further puts the name at that place into the
    /// bucket of its degree and leaves the other buckets alone.
    proof fn lemma_bucket_step(&self, v: int, d: nat)
        requires
            self.wf(),
            0 <= v < self.names@.len(),
        ensures
            self.bucket(v + 1, d) == if self.links@[v]@.len() == d {
                self.bucket(v, d).insert(self.name(v))
            } else {
                self.bucket(v, d)
            },
            !self.bucket(v, d).contains(self.name(v)),
    {
    }

    /// Over all places, the bucket of a degree holds the nodes of that
    /// degree.
    proof fn lemma_bucket_all(&self, d: nat)
        requires
            self.wf(),
        ensures
            self.bucket(self.names@.len() as int, d) == nodes_of_degree(self@.adjacency, d),
    {
        assert forall|a: Seq<char>|
            self.bucket(self.names@.len() as int, d).contains(a) <==> nodes_of_degree(
                self@.adjacency,
                d,
            ).contains(a) by {
            if self.ids@.contains_key(a) {
                self.lemma_view_degree(self.ids@[a] as int);
            }
        }
    }

    /// How many nodes have which degree: a bucket for each degree that
    /// occurs, with the number of nodes of that degree. The counts add up
    /// to the number of nodes.
    pub fn degreeDistribution(&self) -> (distribution: HashMap<usize, usize>)
        requires
            self.wf(),
        ensures
            is_histogram(self@.adjacency, distribution@),
            total(distribution@) == self@.nodes().len(),
    {
        broadcast use vstd::std_specs::hash::group_hash_axioms;

        let mut distribution: HashMap<usize, usize> = HashMap::new();
        let n = self.names.len();
        let mut v: usize = 0;
        assert forall|d: usize| self.bucket(0, d as nat) =~= Set::<Seq<char>>::empty() by {}
        while v < n
            invariant
                self.wf(),
                n == self.names@.len(),
                v <= n,
                forall|d: usize| #[trigger]
                    distribution@.contains_key(d) ==> 0 < distribution@[d] <= v,
                forall|d: usize|
                    (#[trigger] self.bucket(v as int, d as nat)).finite() && self.bucket(
                        v as int,
                        d as nat,
                    ).len() == if distribution@.contains_key(d) {
                        distribution@[d] as nat
                    } else {
                        0
                    },
            decreases n - v,
        {
            let degree = self.links[v].len();
            let count = match distribution.get(&degree) {
                Some(c) => *c,
                None => 0,
            };
            distribution.insert(degree, count + 1);
            proof {
                assert forall|d: usize|
                    (#[trigger] self.bucket(v + 1, d as nat)).finite() && self.bucket(
                        v + 1,
                        d as nat,
                    ).len() == if distribution@.contains_key(d) {
                        distribution@[d] as nat
                    } else {
                        0
                    } by {
                    self.lemma_bucket_step(v as int, d as nat);
                }
            }
            v += 1;
        }
        proof {
            let adj = self@.adjacency;
            assert forall|d: usize| #[trigger]
                distribution@.contains_key(d) <==> exists|a: Seq<char>| #[trigger]
                    nodes_of_degree(adj, d as nat).contains(a) by {
                self.lemma_bucket_all(d as nat);
                let nodes = self.bucket(n as int, d as nat);
                if distribution@.contains_key(d) {
                    assert(nodes.contains(nodes.choose()));
                }
            }
            assert forall|d: usize| #[trigger]
                distribution@.contains_key(d) implies distribution@[d] as nat == nodes_of_degree(
                adj,
                d as nat,
            ).len() by {
                self.lemma_bucket_all(d as nat);
            }
            self.lemma_valid();
            self@.lemma_nodes_finite();
            assert forall|a: Seq<char>| adj.contains_key(a) implies adj[a].len() <= usize::MAX by {
                let i = self.ids@[a] as int;
                self.lemma_view_degree(i);
                assert(self.links@[i]@.len() == self.links@[i].len());
            }
            lemma_histogram_total(adj, distribution@);
        }
        distribution
    }

    /// The degree of every node: the number of its distinct neighbors.
    pub fn degreeCentrality(&self) -> (centrality: StringHashMap<usize>)
        requires
            self.wf(),
        ensures
            is_degree_table(self@.adjacency, centrality@),
    {
        let mut centrality: StringHashMap<usize> = StringHashMap::new();
        let n = self.names.len();
        let mut v: usize = 0;
        while v < n
            invariant
                self.wf(),
                n == self.names@.len(),
                v <= n,
                forall|a: Seq<char>|
                    centrality@.contains_key(a) <==> (self.ids@.contains_key(a) && self.ids@[a]
                        < v),
                forall|a: Seq<char>| #[trigger]
                    centrality@.contains_key(a) ==> centrality@[a]
                        == self.links@[self.ids@[a] as int]@.len(),
            decreases n - v,
        {
            assert(self.ids@[self.name(v as int)] == v);
            centrality.insert(self.names[v].clone(), self.links[v].len());
            v += 1;
        }
        proof {
            assert forall|a: Seq<char>| #[trigger]
                centrality@.contains_key(a) implies centrality@[a] as nat
                == self@.adjacency[a].len() by {
                self.lemma_view_degree(self.ids@[a] as int);
            }
        }
        centrality
    }

    /// The node of greatest degree, with its degree; among several of that
    /// degree, the one that became a node first. `None` for a graph without
    /// nodes.
    pub fn mostCentral(&self) -> (best: Option<(String, usize)>)
        requires
            self.wf(),
        ensures
            match best {
                Some((name, degree)) => self@.most_central(name@) && degree == self@.degree(name@),
                None => self@.order.len() == 0,
            },
    {
        let n = self.names.len();
        if n == 0 {
            return None;
        }
        let mut top: usize = 0;
        let mut v: usize = 1;
        while v < n
            invariant
                self.wf(),
                n == self.names@.len(),
                top < v <= n,
                forall|u: int|
                    0 <= u < v ==> self.links@[u]@.len() <= self.links@[top as int]@.len(),
                forall|u: int|
                    0 <= u < top ==> self.links@[u]@.len() < self.links@[top as int]@.len(),
            decreases n - v,
        {
            if self.links[v].len() > self.links[top].len() {
                top = v;
            }
            v += 1;
        }
        let name = self.names[top].clone();
        let degree = self.links[top].len();
        proof {
            let g = self@;
            assert forall|u: int| 0 <= u < n implies g.degree(#[trigger] g.order[u])
                == self.links@[u]@.len() by {
                self.lemma_view_degree(u);
            }
            assert(g.order[top as int] == name@);
        }
        Some((name, degree))
    }
}

} // verus!
