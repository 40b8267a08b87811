//! A scalar reverse-mode automatic-differentiation engine.
//!
//! The graph is an arena of nodes addressed by index: an operation's operands are
//! always created before it, so the graph is acyclic by construction. The library
//! keeps the structure of the graph and decides the backward pass: which nodes it
//! visits, in which order, and which accumulation step each node's local rule makes.
//! The caller keeps the numbers (each node's value and gradient, by index), seeds
//! the root's gradient with 1 and runs the steps in the order given.
pub mod graph;
pub mod topo;
pub mod backward;
pub mod diagram;
pub mod network;
