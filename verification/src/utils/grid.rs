//! A graph of tile kinds that may stand side by side, kept in a graph of the
//! `petgraph` crate.

use petgraph::graph::{Graph, NodeIndex};
use petgraph::Undirected;
use std::hash::Hash;
use vstd::laws_eq::obeys_concrete_eq;
use vstd::prelude::*;

verus! {

/// The undirected graph of `petgraph`, with nothing at its nodes and edges.
#[verifier::external_type_specification]
#[verifier::external_body]
#[verifier::reject_recursive_types(N)]
#[verifier::reject_recursive_types(E)]
#[verifier::reject_recursive_types(Ty)]
#[verifier::reject_recursive_types(Ix)]
pub struct ExGraph<N, E, Ty, Ix>(Graph<N, E, Ty, Ix>);

/// The mark of `petgraph` for a graph whose edges have no direction.
#[verifier::external_type_specification]
#[verifier::external_body]
pub struct ExUndirected(Undirected);

/// The number of nodes of a graph.
pub uninterp spec fn graph_nodes(graph: Graph<(), (), Undirected>) -> nat;

/// The edges of a graph in the order in which they were added, each as the
/// pair of the nodes it joins.
pub uninterp spec fn graph_edges(graph: Graph<(), (), Undirected>) -> Seq<(int, int)>;

/// Whether an edge of `edges` joins `a` and `b`, in either direction.
pub open spec fn joined(edges: Seq<(int, int)>, a: int, b: int) -> bool {
    exists|i: int| 0 <= i < edges.len() && (#[trigger] edges[i] == (a, b) || edges[i] == (b, a))
}

/// `Graph::new_undirected` of `petgraph`: a graph without nodes and edges.
#[verifier::external_body]
fn new_undirected() -> (graph: Graph<(), (), Undirected>)
    ensures
        graph_nodes(graph) == 0,
        graph_edges(graph) == Seq::<(int, int)>::empty(),
{
    Graph::new_undirected()
}

/// `Graph::add_node` of `petgraph`: the graph gets one more node, whose
/// index is the number of nodes before, and keeps its edges. It panics on a
/// graph that holds as many nodes as its index type can count, which
/// `requires` leaves out.
#[verifier::external_body]
fn add_node(graph: &mut Graph<(), (), Undirected>) -> (index: usize)
    requires
        graph_nodes(*old(graph)) < u32::MAX,
    ensures
        index == graph_nodes(*old(graph)),
        graph_nodes(*final(graph)) == graph_nodes(*old(graph)) + 1,
        graph_edges(*final(graph)) == graph_edges(*old(graph)),
{
    graph.add_node(()).index()
}

/// `Graph::add_edge` of `petgraph`: the graph gets one more edge, from `a`
/// to `b`, behind the others, and keeps its nodes. It panics where a node
/// does not exist and on a graph that holds as many edges as its index type
/// can count, which `requires` leaves out.
#[verifier::external_body]
fn add_edge(graph: &mut Graph<(), (), Undirected>, a: usize, b: usize)
    requires
        a < graph_nodes(*old(graph)),
        b < graph_nodes(*old(graph)),
        graph_edges(*old(graph)).len() < u32::MAX,
    ensures
        graph_nodes(*final(graph)) == graph_nodes(*old(graph)),
        graph_edges(*final(graph)) == graph_edges(*old(graph)).push((a as int, b as int)),
{
    graph.add_edge(NodeIndex::new(a), NodeIndex::new(b), ());
}

/// `Graph::contains_edge` of `petgraph`, on nodes of the graph: whether an
/// edge joins `a` and `b`; in an undirected graph the direction of the edge
/// does not count.
#[verifier::external_body]
fn contains_edge(graph: &Graph<(), (), Undirected>, a: usize, b: usize) -> (found: bool)
    requires
        a < graph_nodes(*graph),
        b < graph_nodes(*graph),
    ensures
        found == joined(graph_edges(*graph), a as int, b as int),
{
    graph.contains_edge(NodeIndex::new(a), NodeIndex::new(b))
}

/// `Graph::edge_count` of `petgraph`: the number of edges of the graph.
#[verifier::external_body]
fn edge_count(graph: &Graph<(), (), Undirected>) -> (count: usize)
    ensures
        count == graph_edges(*graph).len(),
{
    graph.edge_count()
}

/// The node that stands for `kind`: the last one that was added for it.
pub open spec fn node_of<T>(kinds: Seq<T>, kind: T) -> Option<int>
    decreases kinds.len(),
{
    if kinds.len() == 0 {
        None
    } else if kinds.last() == kind {
        Some(kinds.len() - 1)
    } else {
        node_of(kinds.drop_last(), kind)
    }
}

/// Whether `a` and `b` both have a node and an edge joins their nodes.
pub open spec fn neighbors_in<T>(kinds: Seq<T>, edges: Seq<(int, int)>, a: T, b: T) -> bool {
    &&& node_of(kinds, a) is Some
    &&& node_of(kinds, b) is Some
    &&& joined(edges, node_of(kinds, a)->0, node_of(kinds, b)->0)
}

/// The node of a kind, when it has one, is a place of the list that holds
/// the kind.
pub proof fn lemma_node_of<T>(kinds: Seq<T>, kind: T)
    ensures
        node_of(kinds, kind) matches Some(node) ==> 0 <= node < kinds.len() && kinds[node] == kind,
        node_of(kinds, kind) is None ==> !kinds.contains(kind),
    decreases kinds.len(),
{
    if kinds.len() > 0 {
        lemma_node_of(kinds.drop_last(), kind);
        if kinds.last() != kind && kinds.contains(kind) {
            let i = choose|i: int| 0 <= i < kinds.len() && kinds[i] == kind;
            assert(kinds.drop_last()[i] == kind);
        }
    }
}

/// The graph of the tile kinds: a node for each kind that was added, and an
/// edge between two kinds that may stand side by side.
pub struct TileAdjacencyGraph<T: Eq + Hash + Clone> {
    graph: Graph<(), (), Undirected>,
    kinds: Vec<T>,
}

impl<T: Eq + Hash + Clone> TileAdjacencyGraph<T> {
    /// The kinds in the order in which they were added; the place of a kind
    /// is its node.
    pub closed spec fn kinds(&self) -> Seq<T> {
        self.kinds@
    }

    /// The edges in the order in which they were added.
    pub closed spec fn edges(&self) -> Seq<(int, int)> {
        graph_edges(self.graph)
    }

    /// The graph is well formed: it has a node for every kind in the list,
    /// and `==` on the kinds is equality of values.
    pub closed spec fn wf(&self) -> bool {
        &&& obeys_concrete_eq::<T>()
        &&& graph_nodes(self.graph) == self.kinds@.len()
    }

    /// A graph without kinds.
    pub fn new() -> (graph: Self)
        ensures
            graph.kinds() == Seq::<T>::empty(),
            graph.edges() == Seq::<(int, int)>::empty(),
            obeys_concrete_eq::<T>() ==> graph.wf(),
    {
        TileAdjacencyGraph { graph: new_undirected(), kinds: Vec::new() }
    }

    /// The number of nodes: one for each time a kind was added.
    pub fn node_count(&self) -> (count: usize)
        ensures
            count == self.kinds().len(),
    {
        self.kinds.len()
    }

    /// The number of edges.
    pub fn edge_count(&self) -> (count: usize)
        ensures
            count == self.edges().len(),
    {
        edge_count(&self.graph)
    }

    /// Adds a node for `tile_type`. A kind that is added again gets a new
    /// node, and the edges of its old node no longer count for it.
    pub fn add_tile_type(&mut self, tile_type: T)
        requires
            old(self).wf(),
            old(self).kinds().len() < u32::MAX,
        ensures
            final(self).wf(),
            final(self).kinds() == old(self).kinds().push(tile_type),
            final(self).edges() == old(self).edges(),
    {
        let _node = add_node(&mut self.graph);
        self.kinds.push(tile_type);
    }

    /// The node of `kind`, if it has one.
    fn find_node(&self, kind: &T) -> (node: Option<usize>)
        requires
            self.wf(),
        ensures
            node_of(self.kinds(), *kind) == match node {
                Some(i) => Some(i as int),
                None => None,
            },
    {
        let mut i: usize = self.kinds.len();
        proof {
            reveal(obeys_concrete_eq);
            assert(self.kinds@.take(i as int) =~= self.kinds@);
        }
        while i > 0
            invariant
                i <= self.kinds.len(),
                obeys_concrete_eq::<T>(),
                node_of(self.kinds@, *kind) == node_of(self.kinds@.take(i as int), *kind),
            decreases i,
        {
            i -= 1;
            proof {
                reveal(obeys_concrete_eq);
                assert(self.kinds@.take(i as int + 1).drop_last() =~= self.kinds@.take(i as int));
                assert(self.kinds@.take(i as int + 1).last() == self.kinds@[i as int]);
            }
            if self.kinds[i] == *kind {
                return Some(i);
            }
        }
        None
    }

    /// Joins the nodes of `tile_a` and `tile_b` by an edge, if both kinds
    /// have a node; else nothing changes.
    pub fn add_bidirectional_edge(&mut self, tile_a: T, tile_b: T)
        requires
            old(self).wf(),
            old(self).edges().len() < u32::MAX,
        ensures
            final(self).wf(),
            final(self).kinds() == old(self).kinds(),
            final(self).edges() == match (
                node_of(old(self).kinds(), tile_a),
                node_of(old(self).kinds(), tile_b),
            ) {
                (Some(a), Some(b)) => old(self).edges().push((a, b)),
                _ => old(self).edges(),
            },
    {
        proof {
            lemma_node_of(self.kinds(), tile_a);
            lemma_node_of(self.kinds(), tile_b);
        }
        match (self.find_node(&tile_a), self.find_node(&tile_b)) {
            (Some(a), Some(b)) => {
                add_edge(&mut self.graph, a, b);
            },
            _ => {},
        }
    }

    /// Whether `tile_a` and `tile_b` may stand side by side: both have a
    /// node, and an edge joins their nodes.
    pub fn are_neighbors(&self, tile_a: &T, tile_b: &T) -> (neighbors: bool)
        requires
            self.wf(),
        ensures
            neighbors == neighbors_in(self.kinds(), self.edges(), *tile_a, *tile_b),
    {
        proof {
            lemma_node_of(self.kinds(), *tile_a);
            lemma_node_of(self.kinds(), *tile_b);
        }
        match (self.find_node(tile_a), self.find_node(tile_b)) {
            (Some(a), Some(b)) => contains_edge(&self.graph, a, b),
            _ => false,
        }
    }
}

} // verus!
