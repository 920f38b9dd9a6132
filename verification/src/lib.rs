//! A scene graph for two dimensions, verified with Verus.
//!
//! Nodes live in a [`pool::Pool`] and are named by [`handle::Handle`]s. A
//! [`graph::Graph`] links them into one hierarchy below a root, keeps parent
//! and children in agreement through every change, hands out several nodes
//! for writing at once, lends a node out against a ticket, and derives each
//! node's place and visibility in the world from those above it.
//!
//! The graph is generic over its algebra of placements
//! ([`transform::Transform`]); [`lattice`] is an exact one over the integers.
//! What every operation does is stated over [`model::GraphModel`], and
//! [`laws`] holds what follows for the graph as a whole.

pub mod graph;
pub mod handle;
pub mod lattice;
pub mod laws;
pub mod lemmas;
pub mod model;
pub mod node;
pub mod pool;
pub mod transform;
pub mod tree;
pub mod walk;
