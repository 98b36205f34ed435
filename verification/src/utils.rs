//! Helpers of the tree engine: bit arithmetic on keys and the transient
//! descriptors used while walking and building a tree.

pub mod key_order;
pub mod tree_cell;
pub mod tree_ref;
pub mod tree_utils;
