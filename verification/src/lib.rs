//! A content-addressed, binary-indexed Merkle trie: a persistent, versioned
//! key/value store whose nodes are addressed by the hash of their content
//! and shared between versions through reference counts.
//!
//! * `merkle_bit` holds the engine: lookup, insertion and removal.
//! * `traits` holds the interfaces to the store, the hash function and
//!   the value codec; `tree` and `tree_db` hold the records and the
//!   in-memory store.
//! * `model` states over plain values what the operations compute.
//! * `theorems` proves what holds of them.

pub mod constants;
pub mod merkle_bit;
pub mod model;
pub mod theorems;
pub mod traits;
pub mod tree;
pub mod tree_db;
pub mod utils;
