//! Executable representation of the layered graph.
//!
//! The whole graph lives in one arena: the caller builds a `Vec` of rows,
//! each row a `Vec` of [`Node`]s, and an [`Edge`] names its destination by
//! its index within the following row. Several edges, from the same or from
//! different predecessors, may carry the same index: nothing is owned through
//! an edge. The solver mutates each node's `min_path` in place.

use vstd::prelude::*;
use crate::model::EdgeView;
use crate::model::NodeView;

verus! {

/// Unidirectional, weighted edge to a node of the following row.
pub struct Edge {
    /// Weight of the edge. Weights carry no sign: costs never decrease along
    /// a path.
    pub weight: usize,
    /// Index, within the following row, of the node the edge leads to.
    pub destination: usize,
}

impl Edge {
    pub fn new(weight: usize, destination: usize) -> (edge: Edge)
        ensures
            edge@ == (EdgeView { weight: weight as int, destination: destination as int }),
    {
        Edge { weight, destination }
    }
}

impl View for Edge {
    type V = EdgeView;

    open spec fn view(&self) -> EdgeView {
        EdgeView { weight: self.weight as int, destination: self.destination as int }
    }
}

impl DeepView for Edge {
    type V = EdgeView;

    open spec fn deep_view(&self) -> EdgeView {
        self@
    }
}

/// Node of the layered graph.
pub struct Node {
    /// Edges to nodes of the following row.
    pub edges: Vec<Edge>,
    /// Weight of the lightest known path from any row-0 node to this node;
    /// `None` while the node is unreached.
    pub min_path: Option<usize>,
}

impl Node {
    /// A fresh, unreached node with the given outgoing edges.
    pub fn new(edges: Vec<Edge>) -> (node: Node)
        ensures
            node.deep_view() == (NodeView { edges: edges.deep_view(), min_path: None::<int> }),
    {
        Node { edges, min_path: None }
    }
}

impl Default for Node {
    /// A fresh, unreached node with no outgoing edges.
    fn default() -> (node: Node)
        ensures
            node.deep_view() == (NodeView { edges: Seq::<EdgeView>::empty(), min_path: None::<int> }),
    {
        let node = Node { edges: Vec::new(), min_path: None };
        proof {
            assert(node.edges.deep_view() =~= Seq::<EdgeView>::empty());
        }
        node
    }
}

impl DeepView for Node {
    type V = NodeView;

    open spec fn deep_view(&self) -> NodeView {
        NodeView {
            edges: self.edges.deep_view(),
            min_path: match self.min_path {
                Some(v) => Some(v as int),
                None => None,
            },
        }
    }
}

} // verus!
