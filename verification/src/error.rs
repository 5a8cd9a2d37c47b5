//! The ways in which an operation on the graph can fail.

use vstd::prelude::*;

verus! {

/// Why an operation was refused. The graph is unchanged whenever one of these is returned.
#[derive(Clone, Copy, Debug, PartialEq, Eq, Structural)]
pub enum DagError {
    /// A node handle names no live node.
    NodeNotFound,
    /// An edge handle names no live edge, or no edge joins the two nodes.
    EdgeNotFound,
    /// The edge would close a directed cycle.
    WouldCreateCycle,
    /// An ordering found a cycle in the graph.
    CycleDetected,
    /// A function supplied by the caller failed.
    CallbackFailure,
}

impl DagError {
    /// The message that goes with the error.
    pub fn message(&self) -> (r: &'static str)
        ensures
            r@ == (match *self {
                DagError::NodeNotFound => "No node found for index"@,
                DagError::EdgeNotFound => "No edge found between nodes"@,
                DagError::WouldCreateCycle => "Adding an edge would cycle"@,
                DagError::CycleDetected => "Sort encountered a cycle"@,
                DagError::CallbackFailure => "A supplied function failed"@,
            }),
    {
        match self {
            DagError::NodeNotFound => "No node found for index",
            DagError::EdgeNotFound => "No edge found between nodes",
            DagError::WouldCreateCycle => "Adding an edge would cycle",
            DagError::CycleDetected => "Sort encountered a cycle",
            DagError::CallbackFailure => "A supplied function failed",
        }
    }
}

} // verus!
