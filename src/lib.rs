//! A graph-stack: a stack in which an element may sit on several others.
//!
//! Nodes live in an append-only arena and name their ancestors by index.
//! An enumerator walks, one path at a time, every descent from a chosen
//! node down to a node without ancestors.
use vstd::prelude::*;

pub mod paths;
pub mod stacks;
pub mod store;

pub use stacks::Stacks;
pub use store::{GraphError, GraphStack};
