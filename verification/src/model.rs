//! What the operations on a tree compute, stated over plain values.

pub mod collect;
pub mod insert;
pub mod leaves;
pub mod lookup;
pub mod merge;
pub mod trie;
pub mod walk;
