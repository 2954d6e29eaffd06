//! Bounded neighbourhoods in a graph of cross-referencing documents.
//!
//! A corpus of documents is turned into node descriptors, the descriptors into
//! a directed reference graph, and the graph into the part of it that lies
//! within a few hops of one target node.

pub mod digraph;
pub mod graph;
pub mod filter;
pub mod document;
pub mod label;
pub mod pipeline;
