//! A treap: a map from keys to values that keeps a priority with every
//! entry, and is a search tree by key and a heap by priority at once.
//!
//! The nodes live in a slot table ([`arena`]); the container ([`treap`])
//! links them by their positions.  What every operation does is stated
//! over a mathematical tree ([`tree`]), and [`layout`] says how such a tree
//! lies in the table.

pub mod arena;
pub mod layout;
pub mod order;
pub mod rank;
pub mod treap;
pub mod tree;

pub use arena::{DirectVecIndex, Error, IndexError, Node, NodePtr};
pub use treap::Treap;
pub use tree::Tree;
