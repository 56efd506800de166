//! Trusted boundary around petgraph's stable graph, which stores the
//! phrase's letter graph and is handed on to the display layer.
//!
//! The graph's contents are modelled by two uninterpreted views: the set of
//! occupied node indices and the multiset of directed edges. The slot counts
//! model how many node and edge slots the graph has ever allocated; they only
//! serve to rule out the index-type limit of the graph.

use vstd::prelude::*;

use petgraph::stable_graph::NodeIndex;
use petgraph::stable_graph::StableGraph;
use petgraph::visit::EdgeRef;
use petgraph::visit::IntoEdgeReferences;

verus! {

use vstd::multiset::Multiset;

#[verifier::external_type_specification]
#[verifier::external_body]
#[verifier::reject_recursive_types(N)]
#[verifier::reject_recursive_types(E)]
#[verifier::reject_recursive_types(Ty)]
#[verifier::reject_recursive_types(Ix)]
pub struct ExStableGraph<N, E, Ty, Ix>(StableGraph<N, E, Ty, Ix>);

#[verifier::external_type_specification]
#[verifier::external_body]
pub struct ExDirected(petgraph::Directed);

/// The occupied node indices of a stable graph.
pub uninterp spec fn graph_nodes(g: StableGraph<(), (), petgraph::Directed, u32>) -> Set<usize>;

/// The directed edges of a stable graph, as a multiset of index pairs.
pub uninterp spec fn graph_edges(g: StableGraph<(), (), petgraph::Directed, u32>) -> Multiset<
    (usize, usize),
>;

/// How many node slots the graph has ever allocated, vacant ones included.
pub uninterp spec fn graph_node_slots(g: StableGraph<(), (), petgraph::Directed, u32>) -> nat;

/// How many edge slots the graph has ever allocated, vacant ones included.
pub uninterp spec fn graph_edge_slots(g: StableGraph<(), (), petgraph::Directed, u32>) -> nat;

/// Relies on petgraph's `StableGraph::new`: a graph with no nodes, no edges
/// and no allocated slots.
#[verifier::external_body]
pub(crate) fn graph_new() -> (g: StableGraph<(), (), petgraph::Directed, u32>)
    ensures
        graph_nodes(g) == Set::<usize>::empty(),
        graph_edges(g) == Multiset::<(usize, usize)>::empty(),
        graph_node_slots(g) == 0,
        graph_edge_slots(g) == 0,
{
    StableGraph::new()
}

/// Relies on petgraph's `StableGraph::add_node`: returns the index of a slot
/// that was not occupied before, either reusing a vacant slot or allocating
/// one more; edges are untouched.
#[verifier::external_body]
pub(crate) fn graph_add_node(g: &mut StableGraph<(), (), petgraph::Directed, u32>) -> (id: usize)
    requires
        graph_node_slots(*old(g)) < 0xFFFF_FFFF,
    ensures
        !graph_nodes(*old(g)).contains(id),
        graph_nodes(*final(g)) == graph_nodes(*old(g)).insert(id),
        graph_edges(*final(g)) == graph_edges(*old(g)),
        graph_node_slots(*final(g)) <= graph_node_slots(*old(g)) + 1,
        graph_edge_slots(*final(g)) == graph_edge_slots(*old(g)),
{
    g.add_node(()).index()
}

/// Relies on petgraph's `StableGraph::add_edge`: adds one directed edge from
/// `a` to `b`; parallel edges are allowed; nodes are untouched.
#[verifier::external_body]
pub(crate) fn graph_add_edge(g: &mut StableGraph<(), (), petgraph::Directed, u32>, a: usize, b: usize)
    requires
        graph_nodes(*old(g)).contains(a),
        graph_nodes(*old(g)).contains(b),
        graph_edge_slots(*old(g)) < 0xFFFF_FFFF,
    ensures
        graph_edges(*final(g)) == graph_edges(*old(g)).insert((a, b)),
        graph_nodes(*final(g)) == graph_nodes(*old(g)),
        graph_node_slots(*final(g)) == graph_node_slots(*old(g)),
        graph_edge_slots(*final(g)) <= graph_edge_slots(*old(g)) + 1,
{
    let _ = g.add_edge(NodeIndex::new(a), NodeIndex::new(b), ());
}

/// Relies on petgraph's `edge_references`: every present edge once, as a
/// pair of endpoint indices.
#[verifier::external_body]
pub(crate) fn graph_edge_list(g: &StableGraph<(), (), petgraph::Directed, u32>) -> (r: Vec<
    (usize, usize),
>)
    ensures
        r@.to_multiset() == graph_edges(*g),
{
    g.edge_references().map(|e| (e.source().index(), e.target().index())).collect()
}

} // verus!
