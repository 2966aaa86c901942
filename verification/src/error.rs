//! The failures that the graph, the ordering and the compiler report.

use vstd::prelude::*;
use vstd::string::StringExecFns;
use crate::text::{decimal, decimal_text};

verus! {

/// The block that a compile pass did not find.
#[derive(Clone, Copy, Debug, PartialEq, Eq, Hash, Structural)]
pub enum Unbound {
    /// The block that the call names is not defined.
    Named,
    /// No block is open.
    Open,
    /// The block of the imports is not defined.
    Imports,
    /// The block of the bindings is not defined.
    Bindings,
    /// The block of the fragment function is not defined, and no number is
    /// left to define it under.
    Fragment,
}

impl Unbound {
    /// The block, in words.
    pub open spec fn words(self) -> Seq<char> {
        match self {
            Unbound::Named => "the block named is not defined"@,
            Unbound::Open => "no block is open"@,
            Unbound::Imports => "imports"@,
            Unbound::Bindings => "bindings"@,
            Unbound::Fragment => "fragment"@,
        }
    }

    /// The block, in words.
    pub fn describe(self) -> (text: &'static str)
        ensures
            text@ == self.words(),
    {
        match self {
            Unbound::Named => "the block named is not defined",
            Unbound::Open => "no block is open",
            Unbound::Imports => "imports",
            Unbound::Bindings => "bindings",
            Unbound::Fragment => "fragment",
        }
    }
}

/// Why an operation on a graph or a compile pass was refused.
#[derive(Clone, Copy, Debug, PartialEq, Eq, Structural)]
pub enum GraphError {
    /// No node type is registered under the name.
    UnknownNodeType,
    /// The node or the socket index does not exist, or the node has no such parameter.
    InvalidSocket,
    /// The kinds of two values that must agree do not.
    TypeMismatch,
    /// The connection would make a node depend on itself.
    WouldCreateCycle,
    /// A traversal came back to the node that it was handling.
    CycleDetected(usize),
    /// The node has no value outside a shader.
    NotEvaluable(usize),
    /// Text was sent to a block that is not there.
    UnboundBlock(Unbound),
    /// The graph has no output node, or the node it names is gone.
    MissingOutputNode,
    /// A stored graph does not describe a graph.
    Malformed,
}

impl GraphError {
    /// Whether the failure is a cycle, at whichever node.
    pub open spec fn is_cycle(self) -> bool {
        self is CycleDetected
    }

    /// Whether the failure is a block that is not there, whichever.
    pub open spec fn is_unbound(self) -> bool {
        self is UnboundBlock
    }

    /// The text of the failure, for a status line. It names the node or the
    /// block at which the failure was met.
    pub open spec fn message(self) -> Seq<char> {
        match self {
            GraphError::UnknownNodeType => "unknown node type"@,
            GraphError::InvalidSocket => "invalid socket"@,
            GraphError::TypeMismatch => "type mismatch"@,
            GraphError::WouldCreateCycle => "connection would create a cycle"@,
            GraphError::CycleDetected(id) => "cycle detected at node "@ + decimal(id as nat),
            GraphError::NotEvaluable(id) => "no value outside a shader for node "@ + decimal(
                id as nat,
            ),
            GraphError::UnboundBlock(block) => "unbound block: "@ + block.words(),
            GraphError::MissingOutputNode => "missing output node"@,
            GraphError::Malformed => "malformed graph"@,
        }
    }

    /// The text of the failure, for a status line.
    pub fn describe(&self) -> (text: String)
        ensures
            text@ == self.message(),
    {
        match self {
            GraphError::UnknownNodeType => String::from_str("unknown node type"),
            GraphError::InvalidSocket => String::from_str("invalid socket"),
            GraphError::TypeMismatch => String::from_str("type mismatch"),
            GraphError::WouldCreateCycle => String::from_str("connection would create a cycle"),
            GraphError::CycleDetected(id) => {
                let mut text = String::from_str("cycle detected at node ");
                text.append(decimal_text(*id).as_str());
                text
            },
            GraphError::NotEvaluable(id) => {
                let mut text = String::from_str("no value outside a shader for node ");
                text.append(decimal_text(*id).as_str());
                text
            },
            GraphError::UnboundBlock(block) => {
                let mut text = String::from_str("unbound block: ");
                text.append(block.describe());
                text
            },
            GraphError::MissingOutputNode => String::from_str("missing output node"),
            GraphError::Malformed => String::from_str("malformed graph"),
        }
    }
}

} // verus!
