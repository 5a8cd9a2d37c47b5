//! An in-memory engine for directed acyclic graphs with stable integer handles.
//!
//! The graph lives in an arena whose slots keep their index while a node or an edge is
//! alive. Edges are inserted only where they close no cycle, so every graph that this crate
//! hands out is acyclic, and the orderings and searches on top of it can rely on that.
//!
//! - [`dag`]: the graph and its queries and changes.
//! - [`ordering`], [`lexical`]: topological orders and the longest walk.
//! - [`reach`]: ancestors, descendants, breadth-first successors, components.
//! - [`dag_isomorphism`]: whether two graphs have the same shape.
//! - [`state`]: the content of a graph as plain lists, and back.
//! - [`model`], [`paths`]: what a graph is, mathematically; [`laws`]: what always holds of it.
//! - [`store`], [`search`], [`keys`]: the arena, the searches and the order of strings
//!   that come from elsewhere, with what is taken on trust about them.
//! - [`lists`], [`shape`], [`seqs`], [`round_trip`]: the proofs behind the rest.

pub mod dag;
pub mod dag_isomorphism;
pub mod error;
pub mod keys;
pub mod laws;
pub mod lexical;
pub mod lists;
pub mod model;
pub mod ordering;
pub mod paths;
pub mod reach;
pub mod round_trip;
pub mod search;
pub mod seqs;
pub mod shape;
pub mod state;
pub mod store;
