//! Hop distances between games.

use vstd::prelude::*;
use vstd::hash_map::StringHashMap;
use crate::graph::GameGraph;
use crate::search::{hop_counts, list_graph};
use crate::walks::{
    is_distance, is_distance_table, joins, lemma_reaches_self, reachable, reaches_in, step,
};

verus! {

impl GameGraph {
    /// A walk over places is a walk over the names at those places.
    proof fn lemma_reach_named(&self, i: usize, j: usize, k: nat)
        requires
            self.wf(),
            reaches_in(list_graph(self.links@), i, j, k),
        ensures
            i < self.names@.len(),
            j < self.names@.len(),
            reaches_in(self@.adjacency, self.name(i as int), self.name(j as int), k),
    {
        let g = list_graph(self.links@);
        let p = choose|p: Seq<usize>| #[trigger] joins(g, p, i, j) && p.len() == k + 1;
        let q = Seq::new(p.len(), |t: int| self.name(p[t] as int));
        assert forall|t: int| 0 <= t < p.len() implies p[t] < self.names@.len() by {
            if t > 0 {
                assert(step(g, p, t - 1));
                assert(self.links@[p[t - 1] as int]@.contains(p[t]));
            }
        }
        assert forall|t: int| 0 <= t < q.len() - 1 implies #[trigger] step(
            self@.adjacency,
            q,
            t,
        ) by {
            assert(step(g, p, t));
        }
        assert(joins(self@.adjacency, q, self.name(i as int), self.name(j as int)));
    }

    /// A walk over names is a walk over the places of those names.
    proof fn lemma_reach_placed(&self, a: Seq<char>, b: Seq<char>, k: nat)
        requires
            self.wf(),
            reaches_in(self@.adjacency, a, b, k),
        ensures
            self.ids@.contains_key(a),
            self.ids@.contains_key(b),
            reaches_in(list_graph(self.links@), self.ids@[a], self.ids@[b], k),
    {
        let g = list_graph(self.links@);
        let q = choose|q: Seq<Seq<char>>|
            #[trigger] joins(self@.adjacency, q, a, b) && q.len() == k + 1;
        let p = Seq::new(q.len(), |t: int| self.ids@[q[t]]);
        assert forall|t: int| 0 <= t < q.len() implies self.ids@.contains_key(q[t]) by {
            if t > 0 {
                assert(step(self@.adjacency, q, t - 1));
            }
        }
        assert forall|t: int| 0 <= t < p.len() - 1 implies #[trigger] step(g, p, t) by {
            assert(step(self@.adjacency, q, t));
        }
        assert(joins(g, p, self.ids@[a], self.ids@[b]));
    }

    /// Hop distances between places are hop distances between their names.
    proof fn lemma_distance_named(&self, i: usize, j: usize, d: nat)
        requires
            self.wf(),
            is_distance(list_graph(self.links@), i, j, d),
        ensures
            is_distance(self@.adjacency, self.name(i as int), self.name(j as int), d),
    {
        self.lemma_reach_named(i, j, d);
        let a = self.name(i as int);
        let b = self.name(j as int);
        assert forall|m: nat| m < d implies !reaches_in(self@.adjacency, a, b, m) by {
            if reaches_in(self@.adjacency, a, b, m) {
                self.lemma_reach_placed(a, b, m);
            }
        }
    }

    /// The least number of edges from `start` to every game that can be
    /// reached from it, `start` itself at distance 0. Where `start` is no
    /// node, nothing is reached and the result is empty.
    pub fn bfs(&self, start: &str) -> (distances: StringHashMap<usize>)
        requires
            self.wf(),
        ensures
            is_distance_table(self@.adjacency, start@, distances@),
            !self@.adjacency.contains_key(start@) ==> distances@ == Map::<
                Seq<char>,
                usize,
            >::empty(),
    {
        let mut distances: StringHashMap<usize> = StringHashMap::new();
        let found = match self.ids.get(start) {
            Some(i) => Some(*i),
            None => None,
        };
        let s = match found {
            Some(i) => i,
            None => {
                return distances;
            },
        };
        let hops = hop_counts(&self.links, s);
        let n = self.names.len();
        let mut v: usize = 0;
        while v < n
            invariant
                self.wf(),
                n == self.names@.len(),
                hops@.len() == n,
                v <= n,
                forall|b: Seq<char>|
                    distances@.contains_key(b) <==> (self.ids@.contains_key(b) && self.ids@[b] < v
                        && hops@[self.ids@[b] as int] is Some),
                forall|b: Seq<char>| #[trigger]
                    distances@.contains_key(b) ==> hops@[self.ids@[b] as int] == Some(
                        distances@[b],
                    ),
            decreases n - v,
        {
            match hops[v] {
                Some(d) => {
                    assert(self.ids@[self.name(v as int)] == v);
                    distances.insert(self.names[v].clone(), d);
                },
                None => {},
            }
            v += 1;
        }
        proof {
            let adj = self@.adjacency;
            assert forall|b: Seq<char>|
                distances@.contains_key(b) <==> reachable(adj, start@, b) by {
                if distances@.contains_key(b) {
                    self.lemma_reach_named(s, self.ids@[b], distances@[b] as nat);
                }
                if reachable(adj, start@, b) {
                    let k = choose|k: nat| reaches_in(adj, start@, b, k);
                    self.lemma_reach_placed(start@, b, k);
                }
            }
            assert forall|b: Seq<char>| #[trigger] distances@.contains_key(b) implies is_distance(
                adj,
                start@,
                b,
                distances@[b] as nat,
            ) by {
                self.lemma_distance_named(s, self.ids@[b], distances@[b] as nat);
            }
        }
        distances
    }

    /// The greatest distance from `start` to a game that it reaches; 0
    /// where `start` is no node.
    pub fn maxDistance(&self, start: &str) -> (far: usize)
        requires
            self.wf(),
        ensures
            forall|b: Seq<char>, d: nat| #[trigger]
                is_distance(self@.adjacency, start@, b, d) ==> d <= far,
            self@.adjacency.contains_key(start@) ==> exists|b: Seq<char>| #[trigger]
                is_distance(self@.adjacency, start@, b, far as nat),
            !self@.adjacency.contains_key(start@) ==> far == 0,
    {
        let found = match self.ids.get(start) {
            Some(i) => Some(*i),
            None => None,
        };
        let s = match found {
            Some(i) => i,
            None => {
                return 0;
            },
        };
        let hops = hop_counts(&self.links, s);
        let n = self.names.len();
        proof {
            lemma_reaches_self(list_graph(self.links@), s);
        }
        let mut far: usize = 0;
        let ghost mut at: usize = s;
        let mut v: usize = 0;
        while v < n
            invariant
                n == self.names@.len(),
                hops@.len() == n,
                v <= n,
                at < n,
                hops@[at as int] == Some(far),
                forall|u: int|
                    0 <= u < v ==> (#[trigger] hops@[u] is Some ==> hops@[u].unwrap() <= far),
            decreases n - v,
        {
            match hops[v] {
                Some(d) => {
                    if d > far {
                        far = d;
                        proof {
                            at = v;
                        }
                    }
                },
                None => {},
            }
            v += 1;
        }
        proof {
            let adj = self@.adjacency;
            self.lemma_distance_named(s, at, far as nat);
            assert forall|b: Seq<char>, d: nat| #[trigger] is_distance(adj, start@, b, d) implies d
                <= far by {
                self.lemma_reach_placed(start@, b, d);
                let j = self.ids@[b];
                self.lemma_distance_named(s, j, hops@[j as int].unwrap() as nat);
            }
        }
        far
    }
}

} // verus!
