//! Sizes shared by the whole crate.

use vstd::prelude::*;

verus! {

/// The number of bytes in a key and in a node address.
pub const KEY_LEN: usize = 32;

/// The number of bits in a key; split indices are smaller than this.
pub const KEY_BITS: usize = 256;

} // verus!
