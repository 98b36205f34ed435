//! The leaf record.

use vstd::prelude::*;

use crate::constants::KEY_LEN;

verus! {

/// A leaf: one key and the address of the data stored under it.
#[derive(Clone, Copy, Debug, PartialEq, Eq)]
pub struct TreeLeaf {
    /// The key of this leaf.
    pub key: [u8; KEY_LEN],
    /// The address of the data node.
    pub data: [u8; KEY_LEN],
}

impl TreeLeaf {
    /// A leaf with all fields zero.
    pub fn new() -> (r: Self)
        ensures
            r.key@ == Seq::new(KEY_LEN as nat, |i: int| 0u8),
            r.data@ == Seq::new(KEY_LEN as nat, |i: int| 0u8),
    {
        let r = TreeLeaf { key: [0u8; KEY_LEN], data: [0u8; KEY_LEN] };
        proof {
            assert(r.key@ =~= Seq::new(KEY_LEN as nat, |i: int| 0u8));
            assert(r.data@ =~= Seq::new(KEY_LEN as nat, |i: int| 0u8));
        }
        r
    }

    /// The key of this leaf.
    pub fn get_key(&self) -> (r: &[u8; KEY_LEN])
        ensures
            *r == self.key,
    {
        &self.key
    }

    /// The address of the data node.
    pub fn get_data(&self) -> (r: &[u8; KEY_LEN])
        ensures
            *r == self.data,
    {
        &self.data
    }

    /// Replaces the key.
    pub fn set_key(&mut self, key: [u8; KEY_LEN])
        ensures
            *final(self) == (TreeLeaf { key, ..*old(self) }),
    {
        self.key = key;
    }

    /// Replaces the address of the data node.
    pub fn set_data(&mut self, data: [u8; KEY_LEN])
        ensures
            *final(self) == (TreeLeaf { data, ..*old(self) }),
    {
        self.data = data;
    }

    /// Takes the leaf apart into key and data address.
    pub fn deconstruct(self) -> (r: ([u8; KEY_LEN], [u8; KEY_LEN]))
        ensures
            r == (self.key, self.data),
    {
        (self.key, self.data)
    }
}

} // verus!
