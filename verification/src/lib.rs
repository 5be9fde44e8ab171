//! Minimum-cost path through a layered directed graph.
//!
//! Nodes are arranged in ordered rows; an edge connects a node of row `i` to a
//! node of row `i + 1` and carries a non-negative weight. The solver performs
//! a single forward relaxation sweep and returns the least total weight of any
//! path from a node of row 0 to a node of the last row, or `None` when no such
//! path exists.

pub mod graph;
pub mod laws;
pub mod lemmas;
pub mod model;
pub mod solver;

pub use graph::Edge;
pub use graph::Node;
pub use model::EdgeView;
pub use model::NodeView;
pub use solver::min_path_cost;
