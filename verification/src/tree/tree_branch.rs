//! The branch record.

use vstd::prelude::*;

use crate::constants::KEY_LEN;

verus! {

/// A branch: the point at which the keys below it part into a zero side
/// and a one side.
#[derive(Clone, Copy, Debug, PartialEq, Eq)]
pub struct TreeBranch {
    /// The number of leaves below this branch.
    pub count: u64,
    /// The address of the child whose keys have a clear bit at `split_index`.
    pub zero: [u8; KEY_LEN],
    /// The address of the child whose keys have a set bit at `split_index`.
    pub one: [u8; KEY_LEN],
    /// The bit position at which the two sides part.
    pub split_index: u8,
    /// A key that agrees with every key below on the bits before `split_index`.
    pub key: [u8; KEY_LEN],
}

impl TreeBranch {
    /// A branch with all fields zero.
    pub fn new() -> (r: Self)
        ensures
            r.count == 0,
            r.zero@ == Seq::new(KEY_LEN as nat, |i: int| 0u8),
            r.one@ == Seq::new(KEY_LEN as nat, |i: int| 0u8),
            r.split_index == 0,
            r.key@ == Seq::new(KEY_LEN as nat, |i: int| 0u8),
    {
        let r = TreeBranch {
            count: 0,
            zero: [0u8; KEY_LEN],
            one: [0u8; KEY_LEN],
            split_index: 0,
            key: [0u8; KEY_LEN],
        };
        proof {
            assert(r.zero@ =~= Seq::new(KEY_LEN as nat, |i: int| 0u8));
            assert(r.one@ =~= Seq::new(KEY_LEN as nat, |i: int| 0u8));
            assert(r.key@ =~= Seq::new(KEY_LEN as nat, |i: int| 0u8));
        }
        r
    }

    /// The number of leaves below this branch.
    pub fn get_count(&self) -> (r: u64)
        ensures
            r == self.count,
    {
        self.count
    }

    /// The address of the zero side.
    pub fn get_zero(&self) -> (r: &[u8; KEY_LEN])
        ensures
            *r == self.zero,
    {
        &self.zero
    }

    /// The address of the one side.
    pub fn get_one(&self) -> (r: &[u8; KEY_LEN])
        ensures
            *r == self.one,
    {
        &self.one
    }

    /// The bit position at which the two sides part.
    pub fn get_split_index(&self) -> (r: u8)
        ensures
            r == self.split_index,
    {
        self.split_index
    }

    /// The representative key.
    pub fn get_key(&self) -> (r: &[u8; KEY_LEN])
        ensures
            *r == self.key,
    {
        &self.key
    }

    /// Replaces the leaf count.
    pub fn set_count(&mut self, count: u64)
        ensures
            *final(self) == (TreeBranch { count, ..*old(self) }),
    {
        self.count = count;
    }

    /// Replaces the address of the zero side.
    pub fn set_zero(&mut self, zero: [u8; KEY_LEN])
        ensures
            *final(self) == (TreeBranch { zero, ..*old(self) }),
    {
        self.zero = zero;
    }

    /// Replaces the address of the one side.
    pub fn set_one(&mut self, one: [u8; KEY_LEN])
        ensures
            *final(self) == (TreeBranch { one, ..*old(self) }),
    {
        self.one = one;
    }

    /// Replaces the split index.
    pub fn set_split_index(&mut self, split_index: u8)
        ensures
            *final(self) == (TreeBranch { split_index, ..*old(self) }),
    {
        self.split_index = split_index;
    }

    /// Replaces the representative key.
    pub fn set_key(&mut self, key: [u8; KEY_LEN])
        ensures
            *final(self) == (TreeBranch { key, ..*old(self) }),
    {
        self.key = key;
    }

    /// Takes the branch apart into count, zero, one, split index and key.
    pub fn deconstruct(self) -> (r: (u64, [u8; KEY_LEN], [u8; KEY_LEN], u8, [u8; KEY_LEN]))
        ensures
            r == (self.count, self.zero, self.one, self.split_index, self.key),
    {
        (self.count, self.zero, self.one, self.split_index, self.key)
    }
}

} // verus!
