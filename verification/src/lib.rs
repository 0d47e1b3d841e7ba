//! A compressed prefix tree over sequences of Unicode scalar values.
//!
//! [`PatriciaTree`] stores payloads under keys. Keys that begin alike share
//! the nodes of their common beginning, and a node that neither ends a key
//! nor branches is merged with the node below it.

mod count;
mod entries;
mod insert;
mod label;
mod layout;
mod lookup;
mod node;
mod outline;
mod remove;

pub mod laws;
pub mod tree;

pub use tree::stored;
pub use tree::PatriciaTree;
