//! The default hash function of a tree.

use std::collections::hash_map::DefaultHasher;
use vstd::prelude::*;
use vstd::std_specs::hash::DefaultHasherAdditionalSpecFns;

use crate::constants::KEY_LEN;
use crate::traits::Hasher;

verus! {

/// The hasher that trees use unless told otherwise.
pub type TreeHasher = DefaultHasher;

/// The 64-bit `value` as a digest: its bytes from the least significant
/// one, followed by zeros.
pub open spec fn widen(value: u64) -> Seq<u8> {
    Seq::new(
        KEY_LEN as nat,
        |i: int|
            if i < 8 {
                ((value >> ((8 * i) as u64)) & 0xffu64) as u8
            } else {
                0u8
            },
    )
}

impl Hasher for DefaultHasher {
    open spec fn digest(pieces: Seq<Seq<u8>>) -> Seq<u8> {
        widen(DefaultHasher::spec_finish(pieces))
    }

    open spec fn pieces(&self) -> Seq<Seq<u8>> {
        self@
    }

    fn new(_size: usize) -> (r: Self) {
        DefaultHasher::new()
    }

    fn update(&mut self, data: &[u8]) {
        <DefaultHasher as std::hash::Hasher>::write(self, data);
    }

    fn finalize(self) -> (r: [u8; KEY_LEN]) {
        let value: u64 = <DefaultHasher as std::hash::Hasher>::finish(&self);
        let mut v: [u8; KEY_LEN] = [0u8; KEY_LEN];
        let mut i: usize = 0;
        while i < 8
            invariant
                i <= 8,
                forall|j: int| 0 <= j < i ==> v@[j] == widen(value)[j],
                forall|j: int| i <= j < KEY_LEN ==> v@[j] == 0u8,
            decreases 8 - i,
        {
            let shifted: u64 = value >> (8 * i as u64);
            proof {
                assert(shifted & 0xffu64 < 256) by (bit_vector);
            }
            v[i] = (shifted & 0xff) as u8;
            i = i + 1;
        }
        proof {
            assert(v@ =~= widen(value));
        }
        v
    }
}

} // verus!
