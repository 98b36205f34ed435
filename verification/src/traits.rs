//! The interfaces between the tree engine and its collaborators: the
//! store, the hash function and the value codec.

use std::path::PathBuf;
use vstd::prelude::*;

use crate::constants::KEY_LEN;
use crate::tree::tree_node::{Store, TreeNode};

verus! {

/// `std::path::PathBuf`, which names the place where a store lives. The
/// engine only hands it on to `Database::open`.
#[verifier::external_type_specification]
#[verifier::external_body]
pub struct ExPathBuf(PathBuf);

/// What can go wrong in an operation on a tree.
#[derive(Clone, Copy, Debug, PartialEq, Eq, Structural)]
pub enum Exception {
    /// Keys and values differ in number, or the batch is empty.
    ArgumentMismatch,
    /// Two entries of one batch carry the same key.
    DuplicateKey,
    /// A descent went deeper than the configured maximum depth.
    DepthExceeded,
    /// A stored node is not of the variant that its place requires, or a
    /// node that must exist is missing.
    CorruptTree,
    /// The store failed.
    StoreFailure,
    /// A value could not be encoded or decoded.
    CodecFailure,
}

/// One of the three records a node can hold.
#[derive(Clone, Debug, PartialEq, Eq)]
pub enum NodeVariant<BranchType, LeafType, DataType> {
    /// A branch record.
    Branch(BranchType),
    /// A leaf record.
    Leaf(LeafType),
    /// A data record.
    Data(DataType),
}

/// A store of nodes by address.
///
/// A store has two contents. The view of a store is the published one:
/// the nodes that reads see. The pending one is what the published one
/// becomes when the writes made so far are published. `insert` writes to
/// the pending contents only; `batch_write` publishes them, and so does
/// `remove`, after it has dropped its node from them.
///
/// An operation may fail, and then reports `Exception::StoreFailure` and
/// leaves the published contents as they are. A store that is `reliable`
/// never fails.
pub trait Database: Sized + View<V = Store> {
    /// Whether every operation on this store succeeds.
    spec fn reliable(&self) -> bool;

    /// The contents of the store once its writes are published.
    spec fn pending(&self) -> Store;

    /// Opens the store at `path`. Nothing is pending in an opened store.
    fn open(path: &PathBuf) -> (r: Result<Self, Exception>)
        ensures
            r matches Ok(db) ==> db.pending() == db@,
            r matches Err(e) ==> e == Exception::StoreFailure,
    ;

    /// The node published under `key`, if there is one.
    fn get_node(&self, key: &[u8; KEY_LEN]) -> (r: Result<Option<TreeNode>, Exception>)
        ensures
            self@.dom().finite(),
            self.pending().dom().finite(),
            self.reliable() ==> r is Ok,
            r matches Ok(found) ==> match found {
                Some(node) => self@.contains_key(key@) && self@[key@] == node@,
                None => !self@.contains_key(key@),
            },
            r matches Err(e) ==> e == Exception::StoreFailure,
    ;

    /// Writes `node` under `key`, in place of what is pending there.
    fn insert(&mut self, key: [u8; KEY_LEN], node: TreeNode) -> (r: Result<(), Exception>)
        ensures
            final(self).reliable() == old(self).reliable(),
            old(self).reliable() ==> r is Ok,
            final(self)@ == old(self)@,
            r is Ok ==> final(self).pending() == old(self).pending().insert(key@, node@),
            r matches Err(e) ==> e == Exception::StoreFailure,
    ;

    /// Drops what is pending under `key`, and publishes the pending
    /// contents.
    fn remove(&mut self, key: &[u8; KEY_LEN]) -> (r: Result<(), Exception>)
        ensures
            final(self).reliable() == old(self).reliable(),
            old(self).reliable() ==> r is Ok,
            r is Ok ==> final(self).pending() == old(self).pending().remove(key@) && final(self)@
                == final(self).pending(),
            r is Err ==> final(self)@ == old(self)@,
            r matches Err(e) ==> e == Exception::StoreFailure,
    ;

    /// Publishes the pending contents.
    fn batch_write(&mut self) -> (r: Result<(), Exception>)
        ensures
            final(self).reliable() == old(self).reliable(),
            old(self).reliable() ==> r is Ok,
            r is Ok ==> final(self).pending() == old(self).pending() && final(self)@ == old(
                self,
            ).pending(),
            r is Err ==> final(self)@ == old(self)@,
            r matches Err(e) ==> e == Exception::StoreFailure,
    ;
}

/// A hash function that absorbs its input piece by piece.
///
/// The digest is a function of the pieces absorbed, in their order.
pub trait Hasher: Sized {
    /// The digest of `pieces`.
    spec fn digest(pieces: Seq<Seq<u8>>) -> Seq<u8>;

    /// The pieces absorbed so far.
    spec fn pieces(&self) -> Seq<Seq<u8>>;

    /// A hasher that has absorbed nothing. `size` is the number of bytes
    /// the caller will take from the digest.
    fn new(size: usize) -> (r: Self)
        ensures
            r.pieces() == Seq::<Seq<u8>>::empty(),
    ;

    /// Absorbs `data` as one more piece.
    fn update(&mut self, data: &[u8])
        ensures
            final(self).pieces() == old(self).pieces().push(data@),
    ;

    /// The digest of what was absorbed.
    fn finalize(self) -> (r: [u8; KEY_LEN])
        ensures
            r@ == Self::digest(self.pieces()),
    ;
}

/// Values that can be turned into bytes.
pub trait Encode: View {
    /// The bytes that stand for `value`, or `None` where it has no encoding.
    spec fn encoding(value: Self::V) -> Option<Seq<u8>>;

    /// Encodes the value.
    fn encode(&self) -> (r: Result<Vec<u8>, Exception>)
        ensures
            match r {
                Ok(bytes) => Self::encoding(self@) == Some(bytes@),
                Err(e) => Self::encoding(self@) is None && e == Exception::CodecFailure,
            },
    ;
}

/// Values that can be read back from bytes.
pub trait Decode: View + Sized {
    /// The value that `bytes` stand for, or `None` where they stand for none.
    spec fn decoding(bytes: Seq<u8>) -> Option<Self::V>;

    /// Decodes a value.
    fn decode(buffer: &[u8]) -> (r: Result<Self, Exception>)
        ensures
            match r {
                Ok(value) => Self::decoding(buffer@) == Some(value@),
                Err(e) => Self::decoding(buffer@) is None && e == Exception::CodecFailure,
            },
    ;
}

/// A codec that reads back what it wrote.
pub trait Codec: Encode + Decode {
    /// Decoding the encoding of a value gives the value.
    proof fn round_trip(value: Self::V)
        requires
            Self::encoding(value) is Some,
        ensures
            Self::decoding(Self::encoding(value).unwrap()) == Some(value),
    ;
}

impl Encode for Vec<u8> {
    open spec fn encoding(value: Seq<u8>) -> Option<Seq<u8>> {
        Some(value)
    }

    fn encode(&self) -> (r: Result<Vec<u8>, Exception>) {
        Ok(vstd::slice::slice_to_vec(self.as_slice()))
    }
}

impl Decode for Vec<u8> {
    open spec fn decoding(bytes: Seq<u8>) -> Option<Seq<u8>> {
        Some(bytes)
    }

    fn decode(buffer: &[u8]) -> (r: Result<Self, Exception>) {
        Ok(vstd::slice::slice_to_vec(buffer))
    }
}

impl Codec for Vec<u8> {
    proof fn round_trip(value: Seq<u8>) {
    }
}

/// The eight bytes of `value`, from the least significant one.
pub open spec fn u64_bytes(value: u64) -> Seq<u8> {
    Seq::new(8, |i: int| ((value >> ((8 * i) as u64)) & 0xffu64) as u8)
}

/// The number whose eight bytes, from the least significant one, are
/// `bytes`.
pub open spec fn u64_of(bytes: Seq<u8>) -> u64 {
    (bytes[0] as u64) | (bytes[1] as u64) << 8u64 | (bytes[2] as u64) << 16u64 | (bytes[3] as u64)
        << 24u64 | (bytes[4] as u64) << 32u64 | (bytes[5] as u64) << 40u64 | (bytes[6] as u64)
        << 48u64 | (bytes[7] as u64) << 56u64
}

impl Encode for u64 {
    open spec fn encoding(value: u64) -> Option<Seq<u8>> {
        Some(u64_bytes(value))
    }

    fn encode(&self) -> (r: Result<Vec<u8>, Exception>) {
        let value = *self;
        let mut bytes: Vec<u8> = Vec::new();
        let mut i: usize = 0;
        while i < 8
            invariant
                i <= 8,
                bytes@.len() == i,
                forall|j: int| 0 <= j < i ==> bytes@[j] == u64_bytes(value)[j],
            decreases 8 - i,
        {
            let shifted: u64 = value >> (8 * i as u64);
            proof {
                assert(shifted & 0xffu64 < 256) by (bit_vector);
            }
            bytes.push((shifted & 0xff) as u8);
            i = i + 1;
        }
        proof {
            assert(bytes@ =~= u64_bytes(value));
        }
        Ok(bytes)
    }
}

impl Decode for u64 {
    open spec fn decoding(bytes: Seq<u8>) -> Option<u64> {
        if bytes.len() == 8 {
            Some(u64_of(bytes))
        } else {
            None
        }
    }

    fn decode(buffer: &[u8]) -> (r: Result<Self, Exception>) {
        if buffer.len() != 8 {
            return Err(Exception::CodecFailure);
        }
        let value = (buffer[0] as u64) | (buffer[1] as u64) << 8 | (buffer[2] as u64) << 16 | (
        buffer[3] as u64) << 24 | (buffer[4] as u64) << 32 | (buffer[5] as u64) << 40 | (
        buffer[6] as u64) << 48 | (buffer[7] as u64) << 56;
        Ok(value)
    }
}

impl Codec for u64 {
    proof fn round_trip(value: u64) {
        let b = u64_bytes(value);
        let b0 = b[0];
        let b1 = b[1];
        let b2 = b[2];
        let b3 = b[3];
        let b4 = b[4];
        let b5 = b[5];
        let b6 = b[6];
        let b7 = b[7];
        assert((b0 as u64) | (b1 as u64) << 8u64 | (b2 as u64) << 16u64 | (b3 as u64) << 24u64 | (
        b4 as u64) << 32u64 | (b5 as u64) << 40u64 | (b6 as u64) << 48u64 | (b7 as u64) << 56u64
            == value) by (bit_vector)
            requires
                b0 == ((value >> 0u64) & 0xffu64) as u8,
                b1 == ((value >> 8u64) & 0xffu64) as u8,
                b2 == ((value >> 16u64) & 0xffu64) as u8,
                b3 == ((value >> 24u64) & 0xffu64) as u8,
                b4 == ((value >> 32u64) & 0xffu64) as u8,
                b5 == ((value >> 40u64) & 0xffu64) as u8,
                b6 == ((value >> 48u64) & 0xffu64) as u8,
                b7 == ((value >> 56u64) & 0xffu64) as u8,
        ;
    }
}

} // verus!
