//! Workflow executor library.
//!
//! A workflow is a directed graph of nodes (start, end, echo, add, if/else)
//! joined by edges, some of them conditional. This library validates workflows
//! (edges and input references name existing nodes, no cycles) and decides how
//! a run proceeds: which nodes are ready, what a node produces from the outputs
//! of the nodes before it, and which edges are followed once it completes.
//! Running the nodes concurrently is left to the caller, which hands each
//! completion back to the [`GraphState`].

pub mod error;
pub mod graph;
pub mod paths;
pub mod state;
pub mod value;
pub mod workflow;

pub use error::{ErrorView, WorkflowError};
pub use graph::{Edge, Evaluation, Node, NodeId, NodeType};
pub use state::{GraphState, NodeOutput, NodeStatus};
pub use value::{Value, ValueView};
pub use vstd::hash_map::StringHashMap;
pub use vstd::hash_set::StringHashSet;
pub use workflow::{parse_input_reference, should_take_edge, AdjList, Workflow};

use vstd::prelude::*;

verus! {

/// Executes workflows: validates them, then runs their nodes in dependency
/// order, independent nodes concurrently, following only the edges whose
/// conditions match.
pub struct SimpleExecutor;

} // verus!
