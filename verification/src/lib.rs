//! An undirected graph over text labels, with shortest-path queries.
//!
//! Nodes are named by arbitrary strings, compared character by character.
//! The contracts speak of a graph through its view, a map from each node's
//! label to the set of its neighbours' labels.
//!
//! - [`graph`] holds the graph and the operations that grow it.
//! - [`inspect`] reads the nodes and the neighbours of a node.
//! - [`search`] finds the degrees of separation of two labels.
//! - [`dot`] renders a graph as DOT text.
//! - [`import`] adds the names found in delimited text.
//! - [`model`] states what all of these mean, and what follows from it.

pub mod dot;
pub mod graph;
pub mod import;
pub mod inspect;
pub mod model;
pub mod search;

pub use graph::Graph;
