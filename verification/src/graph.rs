//! The move graph: one node for each prepared ply, an edge from a move to each
//! reply that the preparation knows.
//!
//! The nodes and edges live in a `petgraph` graph. What that graph holds is
//! named by [`graph_labels`] and [`graph_edges`]; the functions that call into
//! `petgraph` are believed, everything above them is proved.

use petgraph::graph::Graph;
use petgraph::graph::NodeIndex;
use vstd::prelude::*;

use crate::model::ids;
use crate::model::lemma_neighbors_none;
use crate::model::lemma_neighbors_within;
use crate::model::lemma_with_child;
use crate::model::lemma_with_root;
use crate::model::near_end;
use crate::model::neighbors;
use crate::model::opt_id;
use crate::model::Direction;
use crate::model::MoveGraph;

verus! {

/// `petgraph::graph::Graph`, opaque to the verifier.
#[verifier::external_type_specification]
#[verifier::external_body]
#[verifier::reject_recursive_types(N)]
#[verifier::reject_recursive_types(E)]
#[verifier::reject_recursive_types(Ty)]
#[verifier::reject_recursive_types(Ix)]
pub struct ExGraph<N, E, Ty, Ix>(Graph<N, E, Ty, Ix>);

/// `petgraph::Directed`, the marker of graphs whose edges have a direction.
#[verifier::external_type_specification]
#[verifier::external_body]
pub struct ExDirected(petgraph::Directed);

/// The notation held by each node of a `petgraph` graph, by node index.
pub uninterp spec fn graph_labels(g: Graph<String, ()>) -> Seq<Seq<char>>;

/// The edges of a `petgraph` graph as (source, target), by edge index.
pub uninterp spec fn graph_edges(g: Graph<String, ()>) -> Seq<(int, int)>;

/// `Graph::default`: claims that the new graph has no node and no edge.
#[verifier::external_body]
fn graph_default() -> (g: Graph<String, ()>)
    ensures
        graph_labels(g) == Seq::<Seq<char>>::empty(),
        graph_edges(g) == Seq::<(int, int)>::empty(),
{
    Graph::default()
}

/// `Graph::clone`: claims that the copy holds the same notations and edges
/// under the same indices.
#[verifier::external_body]
fn graph_clone(g: &Graph<String, ()>) -> (copy: Graph<String, ()>)
    ensures
        graph_labels(copy) == graph_labels(*g),
        graph_edges(copy) == graph_edges(*g),
{
    g.clone()
}

/// `Graph::node_count`: claims that it is the number of nodes.
#[verifier::external_body]
fn graph_node_count(g: &Graph<String, ()>) -> (n: usize)
    ensures
        n == graph_labels(*g).len(),
{
    g.node_count()
}

/// `Graph::edge_count`: claims that it is the number of edges.
#[verifier::external_body]
fn graph_edge_count(g: &Graph<String, ()>) -> (n: usize)
    ensures
        n == graph_edges(*g).len(),
{
    g.edge_count()
}

/// Indexing a `Graph` by a node: claims that it gives that node's notation.
/// `petgraph` panics where the node does not exist.
#[verifier::external_body]
fn graph_label(g: &Graph<String, ()>, n: usize) -> (label: &String)
    requires
        n < graph_labels(*g).len(),
    ensures
        label@ == graph_labels(*g)[n as int],
{
    &g[NodeIndex::new(n)]
}

/// `Graph::add_node`: claims that the node is appended under the next index
/// and that the edges stay. `petgraph` panics once the indices of its 32-bit
/// index type are used up.
#[verifier::external_body]
fn graph_add_node(g: &mut Graph<String, ()>, label: String) -> (n: usize)
    requires
        graph_labels(*old(g)).len() < u32::MAX,
    ensures
        n == graph_labels(*old(g)).len(),
        graph_labels(*final(g)) == graph_labels(*old(g)).push(label@),
        graph_edges(*final(g)) == graph_edges(*old(g)),
{
    g.add_node(label).index()
}

/// `Graph::add_edge`: claims that the edge is appended and that the nodes
/// stay. `petgraph` panics where an end does not exist and once the edge
/// indices are used up.
#[verifier::external_body]
fn graph_add_edge(g: &mut Graph<String, ()>, from: usize, to: usize)
    requires
        from < graph_labels(*old(g)).len(),
        to < graph_labels(*old(g)).len(),
        graph_edges(*old(g)).len() < u32::MAX,
    ensures
        graph_labels(*final(g)) == graph_labels(*old(g)),
        graph_edges(*final(g)) == graph_edges(*old(g)).push((from as int, to as int)),
{
    g.add_edge(NodeIndex::new(from), NodeIndex::new(to), ());
}

/// `Graph::neighbors_directed`: claims what `petgraph` documents of a
/// directed graph, that the neighbours come in reverse order of the addition
/// of their edges.
#[verifier::external_body]
fn graph_neighbors(g: &Graph<String, ()>, n: usize, dir: Direction) -> (found: Vec<usize>)
    requires
        n < graph_labels(*g).len(),
    ensures
        ids(found@) == neighbors(graph_edges(*g), n as int, dir),
{
    let side = match dir {
        Direction::Outgoing => petgraph::Direction::Outgoing,
        Direction::Incoming => petgraph::Direction::Incoming,
    };
    g.neighbors_directed(NodeIndex::new(n), side).map(|x| x.index()).collect()
}

/// A repertoire of prepared lines, move by move.
pub struct OpeningGraph {
    graph: Graph<String, ()>,
}

impl View for OpeningGraph {
    type V = MoveGraph;

    closed spec fn view(&self) -> MoveGraph {
        MoveGraph { labels: graph_labels(self.graph), edges: graph_edges(self.graph) }
    }
}

impl Clone for OpeningGraph {
    fn clone(&self) -> (copy: Self)
        ensures
            copy@ == self@,
    {
        OpeningGraph { graph: graph_clone(&self.graph) }
    }
}

impl Default for OpeningGraph {
    fn default() -> (g: Self)
        ensures
            g@ == MoveGraph::empty(),
    {
        OpeningGraph { graph: graph_default() }
    }
}

impl OpeningGraph {
    /// Every edge joins two nodes of the graph.
    pub open spec fn wf(&self) -> bool {
        self@.wf()
    }

    /// A graph without moves.
    pub fn new() -> (g: Self)
        ensures
            g@ == MoveGraph::empty(),
            g.wf(),
            g@.is_forest(),
    {
        OpeningGraph { graph: graph_default() }
    }

    /// The number of nodes.
    pub fn node_count(&self) -> (n: usize)
        ensures
            n == self@.len(),
    {
        graph_node_count(&self.graph)
    }

    /// Whether one more move can be added.
    pub fn has_room(&self) -> (room: bool)
        ensures
            room == self@.has_room(),
    {
        graph_node_count(&self.graph) < 0xFFFF_FFFF && graph_edge_count(&self.graph) < 0xFFFF_FFFF
    }

    /// The notation of the move that `n` holds.
    pub fn node_notation(&self, n: usize) -> (san: &String)
        requires
            self@.has(n as int),
        ensures
            san@ == self@.labels[n as int],
    {
        graph_label(&self.graph, n)
    }

    /// The far ends of the edges at `n` on the side `dir`, the edge added
    /// last first; none for a handle that is no node.
    pub fn neighbors_of(&self, n: usize, dir: Direction) -> (found: Vec<usize>)
        requires
            self.wf(),
        ensures
            ids(found@) == neighbors(self@.edges, n as int, dir),
            forall|k: int| 0 <= k < found@.len() ==> self@.has(#[trigger] found@[k] as int),
    {
        proof {
            lemma_neighbors_within(self@.edges, n as int, dir, self@.len() as int);
        }
        if n < graph_node_count(&self.graph) {
            let found = graph_neighbors(&self.graph, n, dir);
            assert forall|k: int| 0 <= k < found@.len() implies self@.has(
                #[trigger] found@[k] as int,
            ) by {
                assert(ids(found@)[k] == found@[k] as int);
            }
            found
        } else {
            proof {
                assert forall|i: int|
                    #![trigger self@.edges[i]]
                    0 <= i < self@.edges.len() implies near_end(self@.edges[i], dir)
                    != n as int by {}
                lemma_neighbors_none(self@.edges, n as int, dir);
            }
            let found: Vec<usize> = Vec::new();
            assert(ids(found@) == Seq::<int>::empty());
            found
        }
    }

    /// The replies known to the move `n`.
    pub fn children(&self, n: usize) -> (found: Vec<usize>)
        requires
            self.wf(),
        ensures
            ids(found@) == self@.children(n as int),
            forall|k: int| 0 <= k < found@.len() ==> self@.has(#[trigger] found@[k] as int),
    {
        self.neighbors_of(n, Direction::Outgoing)
    }

    /// The moves that `n` is a reply to.
    pub fn parents(&self, n: usize) -> (found: Vec<usize>)
        requires
            self.wf(),
        ensures
            ids(found@) == self@.parents(n as int),
            forall|k: int| 0 <= k < found@.len() ==> self@.has(#[trigger] found@[k] as int),
    {
        self.neighbors_of(n, Direction::Incoming)
    }

    /// Whether `n` is a first move.
    pub fn is_root(&self, n: usize) -> (root: bool)
        requires
            self.wf(),
        ensures
            root == self@.is_root(n as int),
    {
        if n < graph_node_count(&self.graph) {
            let parents = self.neighbors_of(n, Direction::Incoming);
            assert(ids(parents@).len() == parents@.len());
            parents.len() == 0
        } else {
            false
        }
    }

    /// The first moves, in the order of their handles.
    pub fn roots(&self) -> (found: Vec<usize>)
        requires
            self.wf(),
        ensures
            ids(found@) == self@.roots(),
            forall|k: int| 0 <= k < found@.len() ==> self@.has(#[trigger] found@[k] as int),
    {
        let n = graph_node_count(&self.graph);
        let mut found: Vec<usize> = Vec::new();
        let mut i: usize = 0;
        assert(ids(found@) == self@.roots_below(0));
        while i < n
            invariant
                i <= n,
                n == self@.len(),
                self.wf(),
                ids(found@) == self@.roots_below(i as int),
                forall|k: int| 0 <= k < found@.len() ==> self@.has(#[trigger] found@[k] as int),
            decreases n - i,
        {
            let ghost before = found@;
            if self.is_root(i) {
                found.push(i);
                assert(ids(found@) == ids(before).push(i as int));
            }
            i += 1;
        }
        found
    }

    /// The moves that can follow `at`: the first moves before any move, the
    /// replies to the last move after it.
    pub fn candidates(&self, at: Option<usize>) -> (found: Vec<usize>)
        requires
            self.wf(),
        ensures
            ids(found@) == self@.candidates(opt_id(at)),
            forall|k: int| 0 <= k < found@.len() ==> self@.has(#[trigger] found@[k] as int),
    {
        match at {
            Some(n) => self.children(n),
            None => self.roots(),
        }
    }

    /// The first of `among` that holds the notation `san`.
    pub fn find_first(&self, among: &Vec<usize>, san: &String) -> (found: Option<usize>)
        requires
            forall|k: int| 0 <= k < among@.len() ==> self@.has(#[trigger] among@[k] as int),
        ensures
            opt_id(found) == self@.first_match(ids(among@), san@),
            found matches Some(n) ==> self@.has(n as int),
    {
        let mut i: usize = 0;
        assert(ids(among@).skip(0) == ids(among@));
        while i < among.len()
            invariant
                i <= among@.len(),
                forall|k: int| 0 <= k < among@.len() ==> self@.has(#[trigger] among@[k] as int),
                self@.first_match(ids(among@), san@) == self@.first_match(
                    ids(among@).skip(i as int),
                    san@,
                ),
            decreases among@.len() - i,
        {
            let n = among[i];
            let ghost rest = ids(among@).skip(i as int);
            assert(rest.first() == n as int);
            assert(rest.drop_first() == ids(among@).skip(i + 1));
            if *graph_label(&self.graph, n) == *san {
                return Some(n);
            }
            i += 1;
        }
        None
    }

    /// The last of `among` that holds the notation `san`.
    pub fn find_last(&self, among: &Vec<usize>, san: &String) -> (found: Option<usize>)
        requires
            forall|k: int| 0 <= k < among@.len() ==> self@.has(#[trigger] among@[k] as int),
        ensures
            opt_id(found) == self@.last_match(ids(among@), san@),
            found matches Some(n) ==> self@.has(n as int),
    {
        let mut found: Option<usize> = None;
        let mut i: usize = 0;
        assert(ids(among@).take(0) == Seq::<int>::empty());
        while i < among.len()
            invariant
                i <= among@.len(),
                forall|k: int| 0 <= k < among@.len() ==> self@.has(#[trigger] among@[k] as int),
                opt_id(found) == self@.last_match(ids(among@).take(i as int), san@),
                found matches Some(n) ==> self@.has(n as int),
            decreases among@.len() - i,
        {
            let n = among[i];
            let ghost seen = ids(among@).take(i + 1);
            assert(seen.last() == n as int);
            assert(seen.drop_last() == ids(among@).take(i as int));
            if *graph_label(&self.graph, n) == *san {
                found = Some(n);
            }
            i += 1;
        }
        assert(ids(among@).take(among@.len() as int) == ids(among@));
        found
    }

    /// Adds a first move and gives its handle.
    pub(crate) fn add_root(&mut self, san: String) -> (n: usize)
        requires
            old(self).wf(),
            old(self)@.labels.len() < u32::MAX,
        ensures
            final(self)@ == old(self)@.with_root(san@),
            n == old(self)@.len(),
            final(self).wf(),
    {
        proof {
            lemma_with_root(self@, san@);
        }
        graph_add_node(&mut self.graph, san)
    }

    /// Adds a reply to `parent` and gives its handle.
    pub(crate) fn add_child(&mut self, parent: usize, san: String) -> (n: usize)
        requires
            old(self).wf(),
            old(self)@.has(parent as int),
            old(self)@.has_room(),
        ensures
            final(self)@ == old(self)@.with_child(parent as int, san@),
            n == old(self)@.len(),
            final(self).wf(),
    {
        proof {
            lemma_with_child(self@, parent as int, san@);
        }
        let n = graph_add_node(&mut self.graph, san);
        graph_add_edge(&mut self.graph, parent, n);
        n
    }
}

} // verus!
