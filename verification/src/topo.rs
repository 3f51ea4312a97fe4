//! Topological traversal and location codes, as the `petgraph` and
//! `open_location_code` crates provide them.
//!
//! Nothing in this file is proved: each item states what the outside
//! function's documentation and source show of it.

use petgraph::graph::{DiGraph, NodeIndex};
use petgraph::visit::{Topo, Walker};
use vstd::prelude::*;

verus! {

/// The nodes that a topological traversal of a directed graph visits, in
/// the order of the visits. The graph has the nodes `0` to `nodes - 1`, added
/// in that order, and the edges `edges`, each from its first node to its
/// second, added in the order of the sequence.
///
/// The traversal leaves out the nodes that lie on a cycle, so whether the
/// result is an order of all the nodes is for the caller to find out.
pub uninterp spec fn topo_order(nodes: usize, edges: Seq<(usize, usize)>) -> Seq<usize>;

/// `petgraph::visit::Topo` on a `DiGraph` that is built from the given nodes
/// and edges: the nodes in the order in which the traversal visits them.
#[verifier::external_body]
pub(crate) fn topo_visit(nodes: usize, edges: &Vec<(usize, usize)>) -> (order: Vec<usize>)
    requires
        nodes < u32::MAX,
        edges.len() < u32::MAX,
        forall|i: int| 0 <= i < edges.len() ==> (#[trigger] edges[i]).0 < nodes && edges[i].1 < nodes,
    ensures
        order@ == topo_order(nodes, edges@),
{
    let mut graph = DiGraph::<(), ()>::with_capacity(nodes, edges.len());
    for _ in 0..nodes {
        graph.add_node(());
    }
    for edge in edges.iter() {
        graph.add_edge(NodeIndex::new(edge.0), NodeIndex::new(edge.1), ());
    }
    Topo::new(&graph).iter(&graph).map(|node| node.index()).collect()
}

/// Whether a text is a full Open Location Code, one that decodes to an
/// area.
pub uninterp spec fn location_code_decodes(code: Seq<char>) -> bool;

/// `open_location_code::decode`: whether the code decodes to an area.
#[verifier::external_body]
pub(crate) fn decodes_location_code(code: &str) -> (ok: bool)
    ensures
        ok == location_code_decodes(code@),
{
    open_location_code::decode(code).is_ok()
}

} // verus!
