//! The records kept in a store: branches, leaves, data, and the node that
//! wraps one of them with its reference count.

pub mod tree_branch;
pub mod tree_data;
pub mod tree_hasher;
pub mod tree_leaf;
pub mod tree_node;
