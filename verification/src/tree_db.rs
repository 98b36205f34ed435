//! Stores for the nodes of a tree.

pub mod hash_db;
