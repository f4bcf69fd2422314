//! An embeddable, in-memory directed property graph.
//!
//! Nodes and edges carry dynamic [`value::Value`] attributes; the graph
//! supports traversal, search, shortest paths, sampling and an observer
//! protocol for attribute changes, and persists to JSON and binary formats.

pub mod algorithms;
pub mod attrs;
pub mod bincodec;
pub mod codec;
pub mod edge;
pub mod graph;
pub mod jsoncodec;
pub mod node;
pub mod observer;
pub mod paths;
pub mod subgraph;
pub mod traversal;
pub mod value;
pub mod walks;

use vstd::prelude::*;

verus! {

/// The error taxonomy of the library.
#[derive(Clone, Copy, PartialEq, Eq, Structural, Debug)]
pub enum GraphError {
    /// `add_node` was given an id that is already present.
    DuplicateId,
    /// An edge endpoint or a root/target id is not in the graph.
    NodeNotFound,
    /// A lookup by id found nothing.
    NotFound,
    /// A length bound was zero or inverted.
    InvalidParameter,
    /// The target was not reached within the depth bound.
    Unreachable,
    /// A persisted form could not be decoded.
    CodecError,
}

impl GraphError {
    /// A short human-readable name for the error.
    pub fn message(&self) -> (r: &'static str)
    {
        match self {
            GraphError::DuplicateId => "duplicate node id",
            GraphError::NodeNotFound => "node not found",
            GraphError::NotFound => "not found",
            GraphError::InvalidParameter => "invalid parameter",
            GraphError::Unreachable => "target not reachable within depth bound",
            GraphError::CodecError => "could not decode persisted graph",
        }
    }
}

} // verus!
