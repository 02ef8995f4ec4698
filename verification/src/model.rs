//! The mathematical model of a similarity graph: what a graph is, what
//! adding a node, an edge or a record makes of it, and what holds of every
//! graph that these steps build.

use vstd::prelude::*;
use vstd::set_lib::lemma_len_subset;
use crate::walks::has_edge;

verus! {

/// What a record says of a game.
pub struct RecordView {
    pub name: Seq<char>,
    pub genre: Seq<char>,
    pub publisher: Seq<char>,
}

/// What the graph remembers of a record once it is inserted.
pub struct TagsView {
    pub genre: Seq<char>,
    pub publisher: Seq<char>,
}

/// A similarity graph.
///
/// `order` lists the nodes as they were created, `adjacency` gives every
/// node its set of neighbors, and `catalog` holds, for every name that was
/// inserted as a record, the genre and publisher of its latest record.
#[verifier::ext_equal]
pub struct GraphView {
    pub order: Seq<Seq<char>>,
    pub adjacency: Map<Seq<char>, Set<Seq<char>>>,
    pub catalog: Map<Seq<char>, TagsView>,
}

/// The ordered pairs `(a, b)` where `b` is a neighbor of `a`.
pub open spec fn arcs(adj: Map<Seq<char>, Set<Seq<char>>>) -> Set<(Seq<char>, Seq<char>)> {
    Set::new(|e: (Seq<char>, Seq<char>)| has_edge(adj, e.0, e.1))
}

/// The two ends of an arc, as a set: one element for a loop, else two.
pub open spec fn ends(e: (Seq<char>, Seq<char>)) -> Set<Seq<char>> {
    set![e.0, e.1]
}

/// The edges of a graph, each as the set of its ends.
pub open spec fn edges(adj: Map<Seq<char>, Set<Seq<char>>>) -> Set<Set<Seq<char>>> {
    arcs(adj).map(|e: (Seq<char>, Seq<char>)| ends(e))
}

/// The genre or the publisher agrees.
pub open spec fn alike(t: TagsView, r: RecordView) -> bool {
    t.genre == r.genre || t.publisher == r.publisher
}

impl GraphView {
    /// The graph without nodes.
    pub open spec fn empty() -> GraphView {
        GraphView { order: Seq::empty(), adjacency: Map::empty(), catalog: Map::empty() }
    }

    /// The node set.
    pub open spec fn nodes(self) -> Set<Seq<char>> {
        self.adjacency.dom()
    }

    /// The number of distinct neighbors of `a`.
    pub open spec fn degree(self, a: Seq<char>) -> nat {
        self.adjacency[a].len()
    }

    /// What every graph built from `empty` by `with_node`, `with_edge` and
    /// `with_record` satisfies: the order lists each node once, neighbors
    /// are nodes, neighbor sets are finite, edges run both ways, and only
    /// nodes have tags.
    pub open spec fn valid(self) -> bool {
        &&& self.order.no_duplicates()
        &&& forall|a: Seq<char>| self.order.contains(a) <==> self.adjacency.contains_key(a)
        &&& forall|a: Seq<char>| self.adjacency.contains_key(a) ==> self.adjacency[a].finite()
        &&& forall|a: Seq<char>, b: Seq<char>| #[trigger]
            has_edge(self.adjacency, a, b) ==> has_edge(self.adjacency, b, a)
        &&& forall|a: Seq<char>| self.catalog.contains_key(a) ==> self.adjacency.contains_key(a)
    }

    /// The graph with `a` among its nodes: a node that is new comes last in
    /// the order and has no neighbor.
    pub open spec fn with_node(self, a: Seq<char>) -> GraphView {
        if self.adjacency.contains_key(a) {
            self
        } else {
            GraphView {
                order: self.order.push(a),
                adjacency: self.adjacency.insert(a, Set::empty()),
                catalog: self.catalog,
            }
        }
    }

    /// The graph with an edge between `a` and `b`, both made nodes first,
    /// `a` before `b`.
    pub open spec fn with_edge(self, a: Seq<char>, b: Seq<char>) -> GraphView {
        let g = self.with_node(a).with_node(b);
        let left = g.adjacency.insert(a, g.adjacency[a].insert(b));
        GraphView {
            order: g.order,
            adjacency: left.insert(b, left[b].insert(a)),
            catalog: g.catalog,
        }
    }

    /// The names other than `r.name` whose tags agree with `r` in genre or
    /// in publisher.
    pub open spec fn similar_to(self, r: RecordView) -> Set<Seq<char>> {
        Set::new(
            |x: Seq<char>| x != r.name && self.catalog.contains_key(x) && alike(self.catalog[x], r),
        )
    }

    /// The graph after the record `r` is inserted: `r.name` is a node, it
    /// is joined to every name similar to `r`, and its tags are those of
    /// `r`. No other edge comes or goes.
    pub open spec fn with_record(self, r: RecordView) -> GraphView {
        let g = self.with_node(r.name);
        let similar = self.similar_to(r);
        GraphView {
            order: g.order,
            adjacency: Map::new(
                |x: Seq<char>| g.adjacency.contains_key(x),
                |x: Seq<char>|
                    if x == r.name {
                        g.adjacency[x] + similar
                    } else if similar.contains(x) {
                        g.adjacency[x].insert(r.name)
                    } else {
                        g.adjacency[x]
                    },
            ),
            catalog: self.catalog.insert(
                r.name,
                TagsView { genre: r.genre, publisher: r.publisher },
            ),
        }
    }

    /// The graph that the records build when they are inserted in turn.
    pub open spec fn build(records: Seq<RecordView>) -> GraphView
        decreases records.len(),
    {
        if records.len() == 0 {
            GraphView::empty()
        } else {
            GraphView::build(records.drop_last()).with_record(records.last())
        }
    }

    /// `a` is the first node in the order among those of greatest degree.
    pub open spec fn most_central(self, a: Seq<char>) -> bool {
        exists|i: int|
            {
                &&& 0 <= i < self.order.len()
                &&& #[trigger] self.order[i] == a
                &&& forall|j: int|
                    0 <= j < self.order.len() ==> self.degree(#[trigger] self.order[j])
                        <= self.degree(a)
                &&& forall|j: int|
                    0 <= j < i ==> self.degree(#[trigger] self.order[j]) < self.degree(a)
            }
    }

    /// A valid graph has finitely many nodes, as many as its order lists.
    pub proof fn lemma_nodes_finite(self)
        requires
            self.valid(),
        ensures
            self.nodes().finite(),
            self.nodes().len() == self.order.len(),
            self.nodes() == self.order.to_set(),
    {
        assert(self.nodes() =~= self.order.to_set());
        self.order.unique_seq_to_set();
    }

    /// Adding a node keeps a graph valid.
    pub proof fn lemma_with_node_valid(self, a: Seq<char>)
        requires
            self.valid(),
        ensures
            self.with_node(a).valid(),
    {
        let g = self.with_node(a);
        if !self.adjacency.contains_key(a) {
            assert(!self.order.contains(a));
            assert forall|x: Seq<char>| g.order.contains(x) <==> g.adjacency.contains_key(x) by {
                if g.order.contains(x) {
                    let i = choose|i: int| 0 <= i < g.order.len() && g.order[i] == x;
                    if i < self.order.len() {
                        assert(self.order.contains(x));
                    }
                }
                if g.adjacency.contains_key(x) {
                    if x == a {
                        assert(g.order[self.order.len() as int] == a);
                    } else {
                        assert(self.order.contains(x));
                        let i = choose|i: int| 0 <= i < self.order.len() && self.order[i] == x;
                        assert(g.order[i] == x);
                    }
                }
            }
            assert forall|x: Seq<char>, y: Seq<char>| #[trigger]
                has_edge(g.adjacency, x, y) implies has_edge(g.adjacency, y, x) by {
                assert(has_edge(self.adjacency, x, y));
            }
        }
    }

    /// Adding an edge keeps a graph valid.
    pub proof fn lemma_with_edge_valid(self, a: Seq<char>, b: Seq<char>)
        requires
            self.valid(),
        ensures
            self.with_edge(a, b).valid(),
    {
        self.lemma_with_node_valid(a);
        self.with_node(a).lemma_with_node_valid(b);
        let g = self.with_node(a).with_node(b);
        let h = self.with_edge(a, b);
        assert forall|x: Seq<char>, y: Seq<char>| #[trigger]
            has_edge(h.adjacency, x, y) implies has_edge(h.adjacency, y, x) by {
            assert(has_edge(g.adjacency, x, y) ==> has_edge(g.adjacency, y, x));
        }
    }

    /// Inserting a record keeps a graph valid.
    pub proof fn lemma_with_record_valid(self, r: RecordView)
        requires
            self.valid(),
        ensures
            self.with_record(r).valid(),
    {
        self.lemma_with_node_valid(r.name);
        self.lemma_nodes_finite();
        let g = self.with_node(r.name);
        let h = self.with_record(r);
        let similar = self.similar_to(r);
        vstd::set_lib::lemma_set_subset_finite(self.nodes(), similar);
        assert forall|x: Seq<char>, y: Seq<char>| #[trigger]
            has_edge(h.adjacency, x, y) implies has_edge(h.adjacency, y, x) by {
            assert(has_edge(g.adjacency, x, y) ==> has_edge(g.adjacency, y, x));
        }
    }

    /// Whatever records are inserted, the graph they build is valid.
    pub proof fn lemma_build_valid(records: Seq<RecordView>)
        ensures
            GraphView::build(records).valid(),
        decreases records.len(),
    {
        if records.len() > 0 {
            GraphView::lemma_build_valid(records.drop_last());
            GraphView::build(records.drop_last()).lemma_with_record_valid(records.last());
        }
    }

    /// A valid graph has finitely many edges.
    pub proof fn lemma_edges_finite(self)
        requires
            self.valid(),
        ensures
            arcs(self.adjacency).finite(),
            edges(self.adjacency).finite(),
    {
        self.lemma_nodes_finite();
        lemma_pairs_finite(self.nodes(), self.nodes());
        let all = pairs(self.nodes(), self.nodes());
        vstd::set_lib::lemma_set_subset_finite(all, arcs(self.adjacency));
        arcs(self.adjacency).lemma_map_finite(|e: (Seq<char>, Seq<char>)| ends(e));
    }

    /// Inserting a record removes no node and no edge, so that neither the
    /// number of nodes nor the number of edges goes down.
    pub proof fn lemma_with_record_grows(self, r: RecordView)
        requires
            self.valid(),
        ensures
            self.nodes().subset_of(self.with_record(r).nodes()),
            forall|a: Seq<char>, b: Seq<char>|
                has_edge(self.adjacency, a, b) ==> has_edge(self.with_record(r).adjacency, a, b),
            edges(self.adjacency).subset_of(edges(self.with_record(r).adjacency)),
            self.nodes().len() <= self.with_record(r).nodes().len(),
            edges(self.adjacency).len() <= edges(self.with_record(r).adjacency).len(),
    {
        let h = self.with_record(r);
        self.lemma_with_record_valid(r);
        h.lemma_nodes_finite();
        h.lemma_edges_finite();
        lemma_len_subset(self.nodes(), h.nodes());
        lemma_more_arcs_more_edges(self.adjacency, h.adjacency);
        lemma_len_subset(edges(self.adjacency), edges(h.adjacency));
    }

    /// Adding an edge removes no node and no edge, so that neither the
    /// number of nodes nor the number of edges goes down.
    pub proof fn lemma_with_edge_grows(self, a: Seq<char>, b: Seq<char>)
        requires
            self.valid(),
        ensures
            self.nodes().subset_of(self.with_edge(a, b).nodes()),
            forall|x: Seq<char>, y: Seq<char>|
                has_edge(self.adjacency, x, y) ==> has_edge(self.with_edge(a, b).adjacency, x, y),
            edges(self.adjacency).subset_of(edges(self.with_edge(a, b).adjacency)),
            self.nodes().len() <= self.with_edge(a, b).nodes().len(),
            edges(self.adjacency).len() <= edges(self.with_edge(a, b).adjacency).len(),
    {
        let h = self.with_edge(a, b);
        self.lemma_with_edge_valid(a, b);
        h.lemma_nodes_finite();
        h.lemma_edges_finite();
        lemma_more_arcs_more_edges(self.adjacency, h.adjacency);
        lemma_len_subset(edges(self.adjacency), edges(h.adjacency));
    }

    /// After a record is inserted, two names are joined exactly if they
    /// were joined before or one of them is the record's name and the other
    /// is similar to the record.
    pub proof fn lemma_with_record_edges(self, r: RecordView, a: Seq<char>, b: Seq<char>)
        requires
            self.valid(),
        ensures
            has_edge(self.with_record(r).adjacency, a, b) <==> {
                ||| has_edge(self.adjacency, a, b)
                ||| a == r.name && self.similar_to(r).contains(b)
                ||| b == r.name && self.similar_to(r).contains(a)
            },
    {
    }
}

/// Two records agree in genre or in publisher.
pub open spec fn shares(r: RecordView, s: RecordView) -> bool {
    r.genre == s.genre || r.publisher == s.publisher
}

/// No two of the records have the same name.
pub open spec fn distinct_names(records: Seq<RecordView>) -> bool {
    forall|i: int, j: int|
        0 <= i < records.len() && 0 <= j < records.len() && i != j ==> (#[trigger] records[i]).name
            != (#[trigger] records[j]).name
}

/// The nodes of the graph that records build are the names of the records.
pub proof fn lemma_build_nodes(records: Seq<RecordView>, x: Seq<char>)
    ensures
        GraphView::build(records).nodes().contains(x) <==> exists|i: int|
            0 <= i < records.len() && (#[trigger] records[i]).name == x,
        GraphView::build(records).catalog.dom() == GraphView::build(records).nodes(),
    decreases records.len(),
{
    if records.len() > 0 {
        let rest = records.drop_last();
        lemma_build_nodes(rest, x);
        if exists|i: int| 0 <= i < records.len() && (#[trigger] records[i]).name == x {
            let i = choose|i: int| 0 <= i < records.len() && (#[trigger] records[i]).name == x;
            if i < rest.len() {
                assert(rest[i].name == x);
            }
        }
    }
}

/// Where no name occurs twice, the graph keeps of every record its own
/// genre and publisher.
pub proof fn lemma_build_catalog(records: Seq<RecordView>, i: int)
    requires
        distinct_names(records),
        0 <= i < records.len(),
    ensures
        GraphView::build(records).catalog.contains_key(records[i].name),
        GraphView::build(records).catalog[records[i].name] == (TagsView {
            genre: records[i].genre,
            publisher: records[i].publisher,
        }),
    decreases records.len(),
{
    let rest = records.drop_last();
    if i < rest.len() {
        lemma_build_catalog(rest, i);
    }
}

/// The similarity rule: where no name occurs twice, two names are joined
/// in the graph that the records build exactly if they are the names of
/// two of the records that agree in genre or in publisher.
pub proof fn lemma_build_edges(records: Seq<RecordView>, a: Seq<char>, b: Seq<char>)
    requires
        distinct_names(records),
    ensures
        has_edge(GraphView::build(records).adjacency, a, b) <==> exists|i: int, j: int|
            0 <= i < records.len() && 0 <= j < records.len() && i != j
                && (#[trigger] records[i]).name == a && (#[trigger] records[j]).name == b
                && shares(records[i], records[j]),
    decreases records.len(),
{
    if records.len() > 0 {
        let rest = records.drop_last();
        let last = records.len() - 1;
        let r = records[last];
        let g = GraphView::build(rest);
        lemma_build_edges(rest, a, b);
        GraphView::lemma_build_valid(rest);
        let joined = exists|i: int, j: int|
            0 <= i < records.len() && 0 <= j < records.len() && i != j
                && (#[trigger] records[i]).name == a && (#[trigger] records[j]).name == b
                && shares(records[i], records[j]);
        if has_edge(GraphView::build(records).adjacency, a, b) && !has_edge(g.adjacency, a, b) {
            // The edge came with the last record: the other end is the
            // name of an earlier record that agrees with it.
            let other = if a == r.name { b } else { a };
            lemma_build_nodes(rest, other);
            let k = choose|k: int| 0 <= k < rest.len() && (#[trigger] rest[k]).name == other;
            lemma_build_catalog(rest, k);
        }
        if joined {
            let (i, j) = choose|i: int, j: int|
                0 <= i < records.len() && 0 <= j < records.len() && i != j
                    && (#[trigger] records[i]).name == a && (#[trigger] records[j]).name == b
                    && shares(records[i], records[j]);
            if i < last && j < last {
                assert(rest[i].name == a && rest[j].name == b && shares(rest[i], rest[j]));
            } else if i == last {
                lemma_build_catalog(rest, j);
            } else {
                lemma_build_catalog(rest, i);
            }
        }
    }
}

/// No record joins a game to itself: the graph that records build has no
/// loop.
pub proof fn lemma_build_no_loop(records: Seq<RecordView>, a: Seq<char>)
    ensures
        !has_edge(GraphView::build(records).adjacency, a, a),
    decreases records.len(),
{
    if records.len() > 0 {
        let rest = records.drop_last();
        lemma_build_no_loop(rest, a);
    }
}

/// The pairs of an element of `s` and an element of `t`.
pub open spec fn pairs<A, B>(s: Set<A>, t: Set<B>) -> Set<(A, B)> {
    Set::new(|p: (A, B)| s.contains(p.0) && t.contains(p.1))
}

/// Two finite sets have finitely many pairs.
pub proof fn lemma_pairs_finite<A, B>(s: Set<A>, t: Set<B>)
    requires
        s.finite(),
        t.finite(),
    ensures
        pairs(s, t).finite(),
    decreases s.len(),
{
    if s.len() == 0 {
        assert(pairs(s, t) =~= Set::<(A, B)>::empty());
    } else {
        let a = s.choose();
        lemma_pairs_finite(s.remove(a), t);
        let with_a = t.map(|b: B| (a, b));
        t.lemma_map_finite(|b: B| (a, b));
        assert(pairs(s, t) =~= pairs(s.remove(a), t) + with_a);
    }
}

/// A graph that keeps every arc of another keeps every edge of it.
pub proof fn lemma_more_arcs_more_edges(
    adj: Map<Seq<char>, Set<Seq<char>>>,
    more: Map<Seq<char>, Set<Seq<char>>>,
)
    requires
        forall|a: Seq<char>, b: Seq<char>| has_edge(adj, a, b) ==> has_edge(more, a, b),
    ensures
        edges(adj).subset_of(edges(more)),
{
    assert forall|s: Set<Seq<char>>| edges(adj).contains(s) implies edges(more).contains(s) by {
        let e = choose|e: (Seq<char>, Seq<char>)| arcs(adj).contains(e) && s == ends(e);
        assert(arcs(more).contains(e));
    }
}

} // verus!
