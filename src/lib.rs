//! Reverse-mode automatic differentiation on a graph of scalar nodes, and a
//! small feed-forward network built on it.
//!
//! The graph is an append-only arena: a node can only refer to nodes created
//! before it, so it is acyclic by construction. The number type is a
//! parameter (`engine::Scalar`); every structural property of the graph, the
//! backward traversal and the network is proved for any choice of it.

pub mod engine;
pub mod nn;
