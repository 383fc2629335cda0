//! Errors reported by workflow validation and execution.

use vstd::prelude::*;

verus! {

/// Why a workflow was rejected or a step could not be taken.
#[derive(Debug)]
pub enum WorkflowError {
    /// Two nodes share one id.
    DuplicateNode,
    /// An edge names a node that the workflow does not have.
    MissingEdgeNode,
    /// An input reference names a node that the workflow does not have.
    InvalidInputNode,
    /// An input reference is not of the form `node.field`.
    InvalidInputReference(String),
    /// The edges form a cycle.
    CycleDetected,
    /// A completed node's dependent is not part of the graph state.
    UnknownUpdateNode,
    /// A node's input refers to a node that has no output yet.
    InputNotInContext,
    /// An input of an `Add` node is neither a number nor a string.
    NotNumeric,
    /// No node has the requested id.
    NodeNotFound,
    /// A completion was reported for a node that is not running.
    NodeNotRunning,
}

/// The content of a [`WorkflowError`].
pub enum ErrorView {
    DuplicateNode,
    MissingEdgeNode,
    InvalidInputNode,
    InvalidInputReference(Seq<char>),
    CycleDetected,
    UnknownUpdateNode,
    InputNotInContext,
    NotNumeric,
    NodeNotFound,
    NodeNotRunning,
}

impl View for WorkflowError {
    type V = ErrorView;

    open spec fn view(&self) -> ErrorView {
        match self {
            WorkflowError::DuplicateNode => ErrorView::DuplicateNode,
            WorkflowError::MissingEdgeNode => ErrorView::MissingEdgeNode,
            WorkflowError::InvalidInputNode => ErrorView::InvalidInputNode,
            WorkflowError::InvalidInputReference(r) => ErrorView::InvalidInputReference(r@),
            WorkflowError::CycleDetected => ErrorView::CycleDetected,
            WorkflowError::UnknownUpdateNode => ErrorView::UnknownUpdateNode,
            WorkflowError::InputNotInContext => ErrorView::InputNotInContext,
            WorkflowError::NotNumeric => ErrorView::NotNumeric,
            WorkflowError::NodeNotFound => ErrorView::NodeNotFound,
            WorkflowError::NodeNotRunning => ErrorView::NodeNotRunning,
        }
    }
}

/// The human-readable text of an error.
pub open spec fn error_message(e: ErrorView) -> Seq<char> {
    match e {
        ErrorView::DuplicateNode => "Duplicate node id"@,
        ErrorView::MissingEdgeNode => "Node in edge does not exist"@,
        ErrorView::InvalidInputNode => "Invalid node id in input"@,
        ErrorView::InvalidInputReference(r) => "Invalid input reference: "@ + r,
        ErrorView::CycleDetected => "Cycle detected"@,
        ErrorView::UnknownUpdateNode => "Updating on a node that does not exist"@,
        ErrorView::InputNotInContext => "Input not in context map"@,
        ErrorView::NotNumeric => "Expected number or numeric string"@,
        ErrorView::NodeNotFound => "Node not found"@,
        ErrorView::NodeNotRunning => "Node is not running"@,
    }
}

impl WorkflowError {
    /// The human-readable text of this error.
    pub fn message(&self) -> (r: String)
        ensures
            r@ == error_message(self@),
    {
        match self {
            WorkflowError::DuplicateNode => "Duplicate node id".to_owned(),
            WorkflowError::MissingEdgeNode => "Node in edge does not exist".to_owned(),
            WorkflowError::InvalidInputNode => "Invalid node id in input".to_owned(),
            WorkflowError::InvalidInputReference(r) => {
                let prefix = "Invalid input reference: ".to_owned();
                prefix.concat(r.as_str())
            },
            WorkflowError::CycleDetected => "Cycle detected".to_owned(),
            WorkflowError::UnknownUpdateNode => "Updating on a node that does not exist".to_owned(),
            WorkflowError::InputNotInContext => "Input not in context map".to_owned(),
            WorkflowError::NotNumeric => "Expected number or numeric string".to_owned(),
            WorkflowError::NodeNotFound => "Node not found".to_owned(),
            WorkflowError::NodeNotRunning => "Node is not running".to_owned(),
        }
    }
}

} // verus!
