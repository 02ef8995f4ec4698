//! The similarity graph engine.
//!
//! A graph keeps its nodes in the order in which they were created. A node
//! is known inside by its place in that order; `ids` finds the place of a
//! name, `links` holds the neighbors of each node as a list of places
//! without repetition, and `tags` keeps the genre and publisher of the
//! latest record inserted under each name.

use vstd::prelude::*;
use vstd::hash_map::StringHashMap;
use crate::model::{GraphView, TagsView};
use crate::record::{record_views, GameRecord};
use crate::search::{list_graph, lists_closed};
use crate::walks::has_edge;

mod distances;
mod edges;
mod stats;

verus! {

/// Genre and publisher of a record, as the graph keeps them.
struct Tags {
    genre: String,
    publisher: String,
}

impl View for Tags {
    type V = TagsView;

    closed spec fn view(&self) -> TagsView {
        TagsView { genre: self.genre@, publisher: self.publisher@ }
    }
}

/// An undirected graph of games, joined where they share a genre or a
/// publisher.
pub struct GameGraph {
    names: Vec<String>,
    ids: StringHashMap<usize>,
    links: Vec<Vec<usize>>,
    tags: Vec<Option<Tags>>,
}

impl View for GameGraph {
    type V = GraphView;

    closed spec fn view(&self) -> GraphView {
        GraphView {
            order: Seq::new(self.names@.len(), |i: int| self.names@[i]@),
            adjacency: Map::new(
                |a: Seq<char>| self.ids@.contains_key(a),
                |a: Seq<char>|
                    Set::new(
                        |b: Seq<char>|
                            self.ids@.contains_key(b) && has_edge(
                                list_graph(self.links@),
                                self.ids@[a],
                                self.ids@[b],
                            ),
                    ),
            ),
            catalog: Map::new(
                |a: Seq<char>| self.ids@.contains_key(a) && self.tags@[self.ids@[a] as int] is Some,
                |a: Seq<char>| self.tags@[self.ids@[a] as int].unwrap()@,
            ),
        }
    }
}

/// Whether `x` occurs in `list`.
fn list_has(list: &Vec<usize>, x: usize) -> (found: bool)
    ensures
        found == list@.contains(x),
{
    let mut k: usize = 0;
    while k < list.len()
        invariant
            k <= list.len(),
            forall|j: int| 0 <= j < k ==> list@[j] != x,
        decreases list.len() - k,
    {
        if list[k] == x {
            return true;
        }
        k += 1;
    }
    false
}

/// What a list holds after one more entry is pushed.
proof fn lemma_push_contains(list: Seq<usize>, x: usize, y: usize)
    ensures
        list.push(x).contains(y) <==> list.contains(y) || y == x,
{
    let longer = list.push(x);
    if list.contains(y) {
        let k = choose|k: int| 0 <= k < list.len() && list[k] == y;
        assert(longer[k] == y);
    }
    if y == x {
        assert(longer[list.len() as int] == y);
    }
}

impl GameGraph {
    /// The name of the node at place `i`.
    spec fn name(&self, i: int) -> Seq<char> {
        self.names@[i]@
    }

    /// What the fields of every graph satisfy: `ids` is the inverse of
    /// `names`, the lists hold places of nodes, none twice, and a node is
    /// in the list of each node that is in its own.
    pub closed spec fn wf(&self) -> bool {
        let n = self.names@.len();
        let g = list_graph(self.links@);
        &&& self.links@.len() == n
        &&& self.tags@.len() == n
        &&& forall|i: int|
            0 <= i < n ==> self.ids@.contains_key(#[trigger] self.name(i))
                && self.ids@[self.name(i)] == i
        &&& forall|a: Seq<char>| #[trigger]
            self.ids@.contains_key(a) ==> self.ids@[a] < n && self.name(self.ids@[a] as int) == a
        &&& lists_closed(self.links@)
        &&& forall|i: int| 0 <= i < n ==> (#[trigger] self.links@[i])@.no_duplicates()
        &&& forall|u: usize, v: usize| #[trigger] has_edge(g, u, v) ==> has_edge(g, v, u)
    }

    /// Two names are joined in the view exactly if both are nodes and the
    /// list of the one holds the place of the other.
    proof fn lemma_view_edge(&self, a: Seq<char>, b: Seq<char>)
        ensures
            has_edge(self@.adjacency, a, b) <==> {
                &&& self.ids@.contains_key(a)
                &&& self.ids@.contains_key(b)
                &&& has_edge(list_graph(self.links@), self.ids@[a], self.ids@[b])
            },
    {
    }

    /// A node has as many neighbors as its list is long.
    proof fn lemma_view_degree(&self, i: int)
        requires
            self.wf(),
            0 <= i < self.names@.len(),
        ensures
            self@.adjacency.contains_key(self.name(i)),
            self@.adjacency[self.name(i)].finite(),
            self@.adjacency[self.name(i)].len() == self.links@[i]@.len(),
    {
        let list = self.links@[i]@;
        let named = Seq::new(list.len(), |k: int| self.name(list[k] as int));
        assert forall|b: Seq<char>| named.to_set().contains(b) <==> self@.adjacency[self.name(
            i,
        )].contains(b) by {
            if self@.adjacency[self.name(i)].contains(b) {
                let v = self.ids@[b];
                let k = choose|k: int| 0 <= k < list.len() && list[k] == v;
                assert(named[k] == b);
            }
        }
        assert(named.to_set() =~= self@.adjacency[self.name(i)]);
        named.unique_seq_to_set();
    }

    /// The view of a well-formed graph is a valid graph.
    pub proof fn lemma_valid(&self)
        requires
            self.wf(),
        ensures
            self@.valid(),
    {
        let g = self@;
        assert forall|i: int, j: int|
            0 <= i < g.order.len() && 0 <= j < g.order.len() && i != j implies g.order[i]
            != g.order[j] by {
            assert(self.ids@[self.name(i)] == i);
            assert(self.ids@[self.name(j)] == j);
        }
        assert forall|a: Seq<char>| g.order.contains(a) <==> g.adjacency.contains_key(a) by {
            if g.order.contains(a) {
                let i = choose|i: int| 0 <= i < g.order.len() && g.order[i] == a;
                assert(self.name(i) == a);
            }
            if g.adjacency.contains_key(a) {
                assert(g.order[self.ids@[a] as int] == a);
            }
        }
        assert forall|a: Seq<char>| g.adjacency.contains_key(a) implies g.adjacency[a].finite() by {
            self.lemma_view_degree(self.ids@[a] as int);
        }
    }

    /// An edge from `a` to `b` exists exactly if one from `b` to `a` does.
    pub proof fn lemma_symmetric(&self, a: Seq<char>, b: Seq<char>)
        requires
            self.wf(),
        ensures
            has_edge(self@.adjacency, a, b) <==> has_edge(self@.adjacency, b, a),
    {
    }

    /// A graph without nodes.
    pub fn new() -> (graph: GameGraph)
        ensures
            graph.wf(),
            graph@ == GraphView::empty(),
    {
        GameGraph {
            names: Vec::new(),
            ids: StringHashMap::new(),
            links: Vec::new(),
            tags: Vec::new(),
        }
    }

    /// Whether `name` is a node.
    pub fn hasNode(&self, name: &str) -> (found: bool)
        requires
            self.wf(),
        ensures
            found == self@.adjacency.contains_key(name@),
    {
        self.ids.contains_key(name)
    }

    /// The number of nodes.
    pub fn nodeCount(&self) -> (count: usize)
        requires
            self.wf(),
        ensures
            count == self@.nodes().len(),
            count == self@.order.len(),
    {
        proof {
            self.lemma_valid();
            self@.lemma_nodes_finite();
        }
        self.names.len()
    }

    /// Whether `b` is a neighbor of `a`.
    pub fn hasEdge(&self, a: &str, b: &str) -> (found: bool)
        requires
            self.wf(),
        ensures
            found == has_edge(self@.adjacency, a@, b@),
    {
        match self.ids.get(a) {
            Some(i) => match self.ids.get(b) {
                Some(j) => list_has(&self.links[*i], *j),
                None => false,
            },
            None => false,
        }
    }

    /// The names of the nodes, in the order in which they became nodes.
    pub fn nodes(&self) -> (names: Vec<String>)
        requires
            self.wf(),
        ensures
            names@.len() == self@.order.len(),
            forall|i: int| 0 <= i < names@.len() ==> names@[i]@ == self@.order[i],
    {
        let mut names: Vec<String> = Vec::new();
        let mut v: usize = 0;
        while v < self.names.len()
            invariant
                v <= self.names@.len(),
                names@.len() == v,
                forall|i: int| 0 <= i < v ==> names@[i]@ == self.names@[i]@,
            decreases self.names@.len() - v,
        {
            names.push(self.names[v].clone());
            v += 1;
        }
        names
    }

    /// The place of the node `name`, which is made a node if it is none.
    fn intern(&mut self, name: &str) -> (i: usize)
        requires
            old(self).wf(),
        ensures
            final(self).wf(),
            final(self)@ == old(self)@.with_node(name@),
            final(self).ids@.contains_key(name@),
            final(self).ids@[name@] == i,
            final(self).names@.len() >= old(self).names@.len(),
            forall|a: Seq<char>| #[trigger]
                old(self).ids@.contains_key(a) ==> final(self).ids@.contains_key(a)
                    && final(self).ids@[a] == old(self).ids@[a],
            forall|k: int|
                0 <= k < old(self).names@.len() ==> final(self).links@[k] == old(self).links@[k]
                    && final(self).tags@[k] == old(self).tags@[k],
            forall|k: int|
                old(self).names@.len() <= k < final(self).names@.len() ==> final(self).links@[k]@
                    == Seq::<usize>::empty() && final(self).tags@[k] is None,
    {
        let found = match self.ids.get(name) {
            Some(i) => Some(*i),
            None => None,
        };
        match found {
            Some(i) => i,
            None => {
                let i = self.names.len();
                self.names.push(name.to_owned());
                self.ids.insert(name.to_owned(), i);
                self.links.push(Vec::new());
                self.tags.push(None);
                proof {
                    let was = *old(self);
                    let wv = was@.with_node(name@);
                    assert forall|k: int| 0 <= k < self.names@.len() implies self.ids@.contains_key(
                        #[trigger] self.name(k),
                    ) && self.ids@[self.name(k)] == k by {
                        if k < i {
                            assert(self.name(k) == was.name(k));
                        }
                    }
                    assert forall|u: usize, v: usize| #[trigger]
                        has_edge(list_graph(self.links@), u, v) implies has_edge(
                        list_graph(was.links@),
                        u,
                        v,
                    ) && v < i by {}
                    assert forall|a: Seq<char>| #[trigger]
                        self@.adjacency.contains_key(a) implies self@.adjacency[a]
                        =~= wv.adjacency[a] by {}
                }
                i
            },
        }
    }
}

/// The graph of the given records, inserted in their order.
pub fn buildGraph(records: &Vec<GameRecord>) -> (graph: GameGraph)
    ensures
        graph.wf(),
        graph@ == GraphView::build(record_views(records@)),
{
    let mut graph = GameGraph::new();
    let mut k: usize = 0;
    while k < records.len()
        invariant
            graph.wf(),
            k <= records.len(),
            graph@ == GraphView::build(record_views(records@).take(k as int)),
        decreases records.len() - k,
    {
        graph.insert(&records[k]);
        proof {
            let all = record_views(records@);
            assert(all.take(k + 1).drop_last() =~= all.take(k as int));
        }
        k += 1;
    }
    assert(record_views(records@).take(k as int) =~= record_views(records@));
    graph
}

} // verus!
