//! A weighted-choice graph for Markov-chain style random walks.
//!
//! A [`graph::Graph`] maps each state to a [`link::Link`]: the weighted
//! alternatives ([`choice::Choice`]) that can follow it, kept in ascending
//! order of weight together with the sum of their weights. An
//! [`edge::Edge`] appends alternatives to the link of one state, and a
//! [`traversal::Traversal`] walks the graph one step at a time, picking the
//! next state from a threshold that the caller derives from a random sample.
pub mod choice;
pub mod link;
pub mod graph;
pub mod edge;
pub mod traversal;
