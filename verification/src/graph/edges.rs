//! Growing a graph: edges between named games, and records that are
//! joined to the games similar to them.

use vstd::prelude::*;
use crate::graph::{lemma_push_contains, list_has, GameGraph, Tags};
use crate::model::{alike, edges, RecordView};
use crate::record::GameRecord;
use crate::search::list_graph;
use crate::walks::has_edge;

verus! {

impl GameGraph {
    /// Joins the nodes at the places `i` and `j`, which are not joined yet.
    fn attach(&mut self, i: usize, j: usize)
        requires
            old(self).wf(),
            i < old(self).names@.len(),
            j < old(self).names@.len(),
            !has_edge(list_graph(old(self).links@), i, j),
        ensures
            final(self).wf(),
            final(self).names@ == old(self).names@,
            final(self).ids@ == old(self).ids@,
            final(self).tags@ == old(self).tags@,
            forall|u: usize, v: usize|
                has_edge(list_graph(final(self).links@), u, v) <==> {
                    ||| has_edge(list_graph(old(self).links@), u, v)
                    ||| u == i && v == j
                    ||| u == j && v == i
                },
    {
        let ghost was = *self;
        let ghost g = list_graph(was.links@);
        assert(!has_edge(g, j, i));
        self.links[i].push(j);
        if i != j {
            self.links[j].push(i);
        }
        proof {
            let h = list_graph(self.links@);
            assert forall|u: usize, v: usize|
                has_edge(h, u, v) <==> (has_edge(g, u, v) || (u == i && v == j) || (u == j && v
                    == i)) by {
                if u == i {
                    lemma_push_contains(was.links@[u as int]@, j, v);
                } else if u == j {
                    lemma_push_contains(was.links@[u as int]@, i, v);
                }
            }
            assert forall|k: int| 0 <= k < self.names@.len() implies self.ids@.contains_key(
                #[trigger] self.name(k),
            ) && self.ids@[self.name(k)] == k by {
                assert(self.name(k) == was.name(k));
            }
        }
    }

    /// Joins the nodes at the places `i` and `j`, unless they are joined.
    fn join(&mut self, i: usize, j: usize)
        requires
            old(self).wf(),
            i < old(self).names@.len(),
            j < old(self).names@.len(),
        ensures
            final(self).wf(),
            final(self).names@ == old(self).names@,
            final(self).ids@ == old(self).ids@,
            final(self).tags@ == old(self).tags@,
            forall|u: usize, v: usize|
                has_edge(list_graph(final(self).links@), u, v) <==> {
                    ||| has_edge(list_graph(old(self).links@), u, v)
                    ||| u == i && v == j
                    ||| u == j && v == i
                },
    {
        if !list_has(&self.links[i], j) {
            self.attach(i, j);
        } else {
            assert(has_edge(list_graph(self.links@), i, j));
        }
    }

    /// Adds an edge between two games, each of which becomes a node if it
    /// is none yet. An edge that exists is not added twice.
    pub fn addEdge(&mut self, game1: &str, game2: &str)
        requires
            old(self).wf(),
        ensures
            final(self).wf(),
            final(self)@ == old(self)@.with_edge(game1@, game2@),
            forall|a: Seq<char>, b: Seq<char>|
                has_edge(old(self)@.adjacency, a, b) ==> has_edge(final(self)@.adjacency, a, b),
            old(self)@.nodes().len() <= final(self)@.nodes().len(),
            edges(old(self)@.adjacency).len() <= edges(final(self)@.adjacency).len(),
    {
        proof {
            old(self).lemma_valid();
            old(self)@.lemma_with_edge_grows(game1@, game2@);
        }
        let i = self.intern(game1);
        let j = self.intern(game2);
        self.join(i, j);
        proof {
            let h = old(self)@.with_edge(game1@, game2@);
            assert forall|x: Seq<char>| #[trigger]
                self@.adjacency.contains_key(x) implies self@.adjacency[x] =~= h.adjacency[x] by {}
        }
    }

    /// The node at place `v` is another node than that at place `i`, a
    /// record was inserted under its name, and the latest agrees with `r`
    /// in genre or in publisher.
    spec fn similar_at(&self, i: usize, v: usize, r: RecordView) -> bool {
        &&& v != i
        &&& v < self.tags@.len()
        &&& self.tags@[v as int] is Some
        &&& alike(self.tags@[v as int].unwrap()@, r)
    }

    /// Whether the node at place `v` has tags that agree with `record` in
    /// genre or in publisher.
    fn agrees(&self, v: usize, record: &GameRecord) -> (yes: bool)
        requires
            v < self.tags@.len(),
        ensures
            yes == (self.tags@[v as int] is Some && alike(self.tags@[v as int].unwrap()@, record@)),
    {
        match &self.tags[v] {
            Some(tags) => tags.genre == record.genre || tags.publisher == record.publisher,
            None => false,
        }
    }

    /// For each place, whether the node there is a neighbor of the node at
    /// place `i`.
    fn neighbor_marks(&self, i: usize) -> (marks: Vec<bool>)
        requires
            self.wf(),
            i < self.names@.len(),
        ensures
            marks@.len() == self.names@.len(),
            forall|v: usize|
                v < marks@.len() ==> marks@[v as int] == has_edge(list_graph(self.links@), i, v),
    {
        let n = self.names.len();
        let mut marks: Vec<bool> = Vec::new();
        let mut v: usize = 0;
        while v < n
            invariant
                v <= n,
                marks@.len() == v,
                forall|x: int| 0 <= x < v ==> !marks@[x],
            decreases n - v,
        {
            marks.push(false);
            v += 1;
        }
        let list = &self.links[i];
        let mut k: usize = 0;
        while k < list.len()
            invariant
                self.wf(),
                n == self.names@.len(),
                i < n,
                *list == self.links@[i as int],
                k <= list.len(),
                marks@.len() == n,
                forall|x: usize|
                    x < n ==> marks@[x as int] == list@.subrange(0, k as int).contains(x),
            decreases list.len() - k,
        {
            let w = list[k];
            marks.set(w, true);
            proof {
                let before = list@.subrange(0, k as int);
                assert(list@.subrange(0, k + 1) =~= before.push(w));
                assert forall|x: usize| x < n implies marks@[x as int] == before.push(w).contains(
                    x,
                ) by {
                    lemma_push_contains(before, w, x);
                }
            }
            k += 1;
        }
        assert(list@.subrange(0, k as int) =~= list@);
        marks
    }

    /// Inserts a record: its name becomes a node if it is none yet, and the
    /// node is joined to every other name whose latest record has the same
    /// genre or the same publisher. The record takes the place of any
    /// earlier one of the same name; edges that exist stay.
    pub fn insert(&mut self, record: &GameRecord)
        requires
            old(self).wf(),
        ensures
            final(self).wf(),
            final(self)@ == old(self)@.with_record(record@),
            forall|a: Seq<char>, b: Seq<char>|
                has_edge(old(self)@.adjacency, a, b) ==> has_edge(final(self)@.adjacency, a, b),
            old(self)@.nodes().len() <= final(self)@.nodes().len(),
            edges(old(self)@.adjacency).len() <= edges(final(self)@.adjacency).len(),
    {
        proof {
            old(self).lemma_valid();
            old(self)@.lemma_with_record_grows(record@);
        }
        let i = self.intern(record.name.as_str());
        let ghost mid = *self;
        let ghost g = list_graph(mid.links@);
        let ghost r = record@;
        let n = self.names.len();
        let marks = self.neighbor_marks(i);
        let mut j: usize = 0;
        while j < n
            invariant
                self.wf(),
                mid.wf(),
                g == list_graph(mid.links@),
                r == record@,
                self.names@ == mid.names@,
                self.ids@ == mid.ids@,
                self.tags@ == mid.tags@,
                n == self.names@.len(),
                i < n,
                j <= n,
                marks@.len() == n,
                forall|v: usize| v < n ==> marks@[v as int] == has_edge(g, i, v),
                forall|u: usize, v: usize|
                    has_edge(list_graph(self.links@), u, v) <==> {
                        ||| has_edge(g, u, v)
                        ||| u == i && v < j && mid.similar_at(i, v, r)
                        ||| v == i && u < j && mid.similar_at(i, u, r)
                    },
            decreases n - j,
        {
            let ghost before = list_graph(self.links@);
            if j != i && self.agrees(j, record) {
                if !marks[j] {
                    self.attach(i, j);
                }
            }
            proof {
                let now = list_graph(self.links@);
                assert forall|u: usize, v: usize|
                    has_edge(now, u, v) <==> {
                        ||| has_edge(g, u, v)
                        ||| u == i && v < j + 1 && mid.similar_at(i, v, r)
                        ||| v == i && u < j + 1 && mid.similar_at(i, u, r)
                    } by {
                    assert(has_edge(before, u, v) <==> {
                        ||| has_edge(g, u, v)
                        ||| u == i && v < j && mid.similar_at(i, v, r)
                        ||| v == i && u < j && mid.similar_at(i, u, r)
                    });
                }
            }
            j += 1;
        }
        self.tags.set(
            i,
            Some(Tags { genre: record.genre.clone(), publisher: record.publisher.clone() }),
        );
        proof {
            let was = old(self)@;
            let h = was.with_record(r);
            let similar = was.similar_to(r);
            assert forall|k: int| 0 <= k < self.names@.len() implies self.ids@.contains_key(
                #[trigger] self.name(k),
            ) && self.ids@[self.name(k)] == k by {
                assert(self.name(k) == mid.name(k));
            }
            assert forall|x: Seq<char>|
                similar.contains(x) <==> (self.ids@.contains_key(x) && mid.similar_at(
                    i,
                    self.ids@[x],
                    r,
                )) by {}
            assert forall|x: Seq<char>| #[trigger]
                self@.adjacency.contains_key(x) implies self@.adjacency[x] =~= h.adjacency[x] by {
                assert forall|y: Seq<char>|
                    self@.adjacency[x].contains(y) <==> h.adjacency[x].contains(y) by {
                    mid.lemma_view_edge(x, y);
                }
            }
        }
    }
}

} // verus!
