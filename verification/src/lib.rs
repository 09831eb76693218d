//! A reactive behavior-tree runtime core.
//!
//! A behavior tree is an immutable tree of action and condition leaves under
//! `Sequence` and `Fallback` nodes. This crate holds the verified core of the
//! runtime: the status and message value types, the tree model, the pure
//! traversal that picks the next leaf to run, the converter that flattens
//! traversal into a `(leaf, status) -> next leaf` map, the decision logic of
//! the two engines, and the typestate builder. The asynchronous plumbing that
//! spawns leaf processes and waits on their channels lives outside this crate
//! and drives the engine cores with the events it observes.

pub use crate::bt::BT;
pub use crate::node::{Node, NodeType};
pub use crate::status::Status;

pub mod action;
pub mod bt;
pub mod condition;
pub mod converter;
pub mod engine;
pub mod engine_factory;
pub mod message;
pub mod node;
pub mod status;
pub mod traversal;
