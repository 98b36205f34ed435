//! The data record.

use vstd::prelude::*;
use vstd::slice::slice_to_vec;

verus! {

/// The encoded value stored under a key.
#[derive(Clone, Debug, PartialEq, Eq)]
pub struct TreeData {
    /// The encoded value.
    pub value: Vec<u8>,
}

impl TreeData {
    /// A data record with an empty value.
    pub fn new() -> (r: Self)
        ensures
            r.value@ == Seq::<u8>::empty(),
    {
        TreeData { value: Vec::new() }
    }

    /// The encoded value.
    pub fn get_value(&self) -> (r: &[u8])
        ensures
            r@ == self.value@,
    {
        self.value.as_slice()
    }

    /// Replaces the encoded value by a copy of `value`.
    pub fn set_value(&mut self, value: &[u8])
        ensures
            final(self).value@ == value@,
    {
        self.value = slice_to_vec(value);
    }

    /// A copy of this record.
    pub fn duplicate(&self) -> (r: Self)
        ensures
            r.value@ == self.value@,
    {
        TreeData { value: slice_to_vec(self.value.as_slice()) }
    }
}

} // verus!
