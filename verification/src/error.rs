//! Errors of graph construction and validation: the error the library
//! returns, and the reasons it gives, each with its text.
use vstd::prelude::*;

use crate::model::types::{DerivId, NodeId, PropId};
use crate::text::{decimal, push_decimal, push_text};

verus! {

/// The error the library returns: a graph that breaks a rule, with the text
/// that says which.
#[derive(Debug)]
pub enum ObgraphError {
    Validation(String),
}

/// The text an error carries.
pub open spec fn error_text(e: ObgraphError) -> Seq<char> {
    match e {
        ObgraphError::Validation(m) => m@,
    }
}

/// Why construction or validation refuses a graph.
#[derive(Debug)]
pub enum GraphError {
    /// Two nodes share an identifier.
    DuplicateNode { ident: String },
    /// A node declares two properties with one name.
    DuplicateProperty { node: String, prop: String },
    /// A reference names a node that is not declared.
    UnknownNode { ident: String },
    /// A reference names a property that the node does not declare.
    UnknownProperty { node: String, prop: String },
    /// A node is the child of more than one anchor.
    MultipleParents { ident: String },
    /// More elements of one kind than a 32-bit identifier can number.
    CapacityExceeded,
    /// An always-trusted property is the destination of a constraint.
    ConstraintOnAlwaysProperty { prop: PropId },
    /// A root node is the child of an anchor.
    RootWithParent { node: NodeId },
    /// A derivation takes no argument.
    NullaryDerivation { deriv: DerivId },
    /// Anchors, derivation inputs and constraints form a cycle.
    Cycle,
}

/// The text that describes an error.
pub open spec fn error_message(e: GraphError) -> Seq<char> {
    match e {
        GraphError::DuplicateNode { ident } => "duplicate node identifier: "@ + ident@,
        GraphError::DuplicateProperty { node, prop } => "duplicate property "@ + prop@
            + " on node "@ + node@,
        GraphError::UnknownNode { ident } => "unknown node identifier: "@ + ident@,
        GraphError::UnknownProperty { node, prop } => "unknown property "@ + prop@
            + " on node "@ + node@,
        GraphError::MultipleParents { ident } => "node "@ + ident@
            + " has more than one parent link"@,
        GraphError::CapacityExceeded => "more graph elements than 32-bit identifiers can number"@,
        GraphError::ConstraintOnAlwaysProperty { prop } => "constraint on pre-satisfied property "@
            + decimal(prop.0 as nat),
        GraphError::RootWithParent { node } => "root node "@ + decimal(node.0 as nat)
            + " is the child of an anchor"@,
        GraphError::NullaryDerivation { deriv } => "derivation "@ + decimal(deriv.0 as nat)
            + " has no arguments"@,
        GraphError::Cycle => "cycle detected"@,
    }
}

impl GraphError {
    /// The text that describes the error.
    pub fn message(&self) -> (r: String)
        ensures
            r@ == error_message(*self),
    {
        let mut s = String::new();
        match self {
            GraphError::DuplicateNode { ident } => {
                push_text(&mut s, "duplicate node identifier: ");
                push_text(&mut s, ident.as_str());
            },
            GraphError::DuplicateProperty { node, prop } => {
                push_text(&mut s, "duplicate property ");
                push_text(&mut s, prop.as_str());
                push_text(&mut s, " on node ");
                push_text(&mut s, node.as_str());
            },
            GraphError::UnknownNode { ident } => {
                push_text(&mut s, "unknown node identifier: ");
                push_text(&mut s, ident.as_str());
            },
            GraphError::UnknownProperty { node, prop } => {
                push_text(&mut s, "unknown property ");
                push_text(&mut s, prop.as_str());
                push_text(&mut s, " on node ");
                push_text(&mut s, node.as_str());
            },
            GraphError::MultipleParents { ident } => {
                push_text(&mut s, "node ");
                push_text(&mut s, ident.as_str());
                push_text(&mut s, " has more than one parent link");
            },
            GraphError::CapacityExceeded => {
                push_text(&mut s, "more graph elements than 32-bit identifiers can number");
            },
            GraphError::ConstraintOnAlwaysProperty { prop } => {
                push_text(&mut s, "constraint on pre-satisfied property ");
                push_decimal(&mut s, prop.0);
            },
            GraphError::RootWithParent { node } => {
                push_text(&mut s, "root node ");
                push_decimal(&mut s, node.0);
                push_text(&mut s, " is the child of an anchor");
            },
            GraphError::NullaryDerivation { deriv } => {
                push_text(&mut s, "derivation ");
                push_decimal(&mut s, deriv.0);
                push_text(&mut s, " has no arguments");
            },
            GraphError::Cycle => {
                push_text(&mut s, "cycle detected");
            },
        }
        s
    }
}

/// The error returned for `e`: a validation error with the text of `e`.
pub fn validation_error_of(e: &GraphError) -> (r: ObgraphError)
    ensures
        error_text(r) == error_message(*e),
{
    ObgraphError::Validation(e.message())
}

} // verus!
