//! A keyed, ordered tree of typed nodes and the structural difference
//! between two snapshots of it.

pub mod child;
pub mod diff;
pub mod fidelity;
pub mod index;
pub mod key;
pub mod laws;
pub mod node;
pub mod reorder;
pub mod tree;
pub mod visit;
pub mod widget;
