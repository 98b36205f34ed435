//! The addresses of nodes, and what the leaves of a batch leave in the
//! store.
//!
//! A store has two contents: the published one, which reads see, and the
//! pending one, which writes fill. An insertion reads the published
//! contents and writes to the pending ones.

use vstd::prelude::*;

use crate::traits::{Encode, Exception, Hasher};
use crate::tree::tree_node::{NodeKind, NodeModel, Store};

verus! {

/// The byte that marks the input of the hash of a data node.
pub const DATA_TAG: u8 = 0x64;

/// The byte that marks the input of the hash of a leaf.
pub const LEAF_TAG: u8 = 0x6c;

/// The byte that marks the input of the hash of a branch.
pub const BRANCH_TAG: u8 = 0x62;

/// The address of a node: the digest of its tag and of the two parts of
/// its content.
pub open spec fn address<H: Hasher>(tag: u8, first: Seq<u8>, second: Seq<u8>) -> Seq<u8> {
    H::digest(seq![seq![tag], first, second])
}

/// The address of the data node that holds `value` for `key`.
pub open spec fn data_address<H: Hasher>(key: Seq<u8>, value: Seq<u8>) -> Seq<u8> {
    address::<H>(DATA_TAG, key, value)
}

/// The address of the leaf of `key` whose data node is at `data`.
pub open spec fn leaf_address<H: Hasher>(key: Seq<u8>, data: Seq<u8>) -> Seq<u8> {
    address::<H>(LEAF_TAG, key, data)
}

/// The address of the branch over the children at `zero` and `one`.
pub open spec fn branch_address<H: Hasher>(zero: Seq<u8>, one: Seq<u8>) -> Seq<u8> {
    address::<H>(BRANCH_TAG, zero, one)
}

/// The reference count of a node that is written anew at `location`: one
/// more than the count of the node that is there, or one.
pub open spec fn fresh_references(store: Store, location: Seq<u8>) -> u64 {
    if store.contains_key(location) {
        store[location].references.saturating_add(1)
    } else {
        1
    }
}

/// The pending contents after the data node and the leaf of `key` with
/// the encoded value `encoded` are written. The reference counts are
/// counted from the published contents.
pub open spec fn with_leaf<H: Hasher>(
    published: Store,
    pending: Store,
    key: Seq<u8>,
    encoded: Seq<u8>,
) -> Store {
    let data = data_address::<H>(key, encoded);
    let leaf = leaf_address::<H>(key, data);
    pending.insert(
        data,
        NodeModel {
            references: fresh_references(published, data),
            kind: NodeKind::Data { value: encoded },
        },
    ).insert(
        leaf,
        NodeModel {
            references: fresh_references(published, leaf),
            kind: NodeKind::Leaf { key, data },
        },
    )
}

/// The addresses of the leaves of `pairs`, in their order, and the
/// pending contents after the leaves and their data nodes are written;
/// or `CodecFailure` where a value has no encoding.
pub open spec fn leaves_run<H: Hasher, V: Encode>(
    published: Store,
    pending: Store,
    pairs: Seq<(Seq<u8>, V::V)>,
) -> Result<(Seq<Seq<u8>>, Store), Exception>
    decreases pairs.len(),
{
    if pairs.len() == 0 {
        Ok((Seq::empty(), pending))
    } else {
        match leaves_run::<H, V>(published, pending, pairs.drop_last()) {
            Err(e) => Err(e),
            Ok((locations, before)) => match V::encoding(pairs.last().1) {
                None => Err(Exception::CodecFailure),
                Some(encoded) => Ok(
                    (
                        locations.push(
                            leaf_address::<H>(
                                pairs.last().0,
                                data_address::<H>(pairs.last().0, encoded),
                            ),
                        ),
                        with_leaf::<H>(published, before, pairs.last().0, encoded),
                    ),
                ),
            },
        }
    }
}

/// Where the leaves of the first pairs of a batch cannot be written, the
/// leaves of the batch cannot, and for the same reason.
pub proof fn lemma_leaves_run_fails<H: Hasher, V: Encode>(
    published: Store,
    store: Store,
    pairs: Seq<(Seq<u8>, V::V)>,
    upto: int,
)
    requires
        0 <= upto <= pairs.len(),
        leaves_run::<H, V>(published, store, pairs.subrange(0, upto)) is Err,
    ensures
        leaves_run::<H, V>(published, store, pairs) == leaves_run::<H, V>(published, store, pairs.subrange(0, upto)),
    decreases pairs.len() - upto,
{
    if upto < pairs.len() {
        let longer = pairs.subrange(0, upto + 1);
        assert(longer.drop_last() =~= pairs.subrange(0, upto));
        lemma_leaves_run_fails::<H, V>(published, store, pairs, upto + 1);
    } else {
        assert(pairs.subrange(0, upto) =~= pairs);
    }
}

/// The pending contents after the leaves of `pairs` are written as far
/// as they can be: those of all pairs, or those of the pairs before the
/// first whose value has no encoding.
pub open spec fn leaves_written<H: Hasher, V: Encode>(
    published: Store,
    pending: Store,
    pairs: Seq<(Seq<u8>, V::V)>,
) -> Store
    decreases pairs.len(),
{
    if pairs.len() == 0 {
        pending
    } else {
        match leaves_run::<H, V>(published, pending, pairs) {
            Ok((locations, after)) => after,
            Err(e) => leaves_written::<H, V>(published, pending, pairs.drop_last()),
        }
    }
}

/// Where the leaves of the first `upto` pairs of a batch can be written
/// and the next one cannot, the leaves of those pairs are what is
/// written of the batch.
pub proof fn lemma_written_before_failure<H: Hasher, V: Encode>(
    published: Store,
    store: Store,
    pairs: Seq<(Seq<u8>, V::V)>,
    upto: int,
)
    requires
        0 <= upto < pairs.len(),
        leaves_run::<H, V>(published, store, pairs.subrange(0, upto)) is Ok,
        leaves_run::<H, V>(published, store, pairs.subrange(0, upto + 1)) is Err,
    ensures
        leaves_written::<H, V>(published, store, pairs) == leaves_run::<H, V>(
            published,
            store,
            pairs.subrange(0, upto),
        )->Ok_0.1,
    decreases pairs.len(),
{
    lemma_leaves_run_fails::<H, V>(published, store, pairs, upto + 1);
    let shorter = pairs.drop_last();
    if pairs.len() == upto + 1 {
        assert(shorter =~= pairs.subrange(0, upto));
        assert(pairs.subrange(0, upto + 1) =~= pairs);
        assert(leaves_written::<H, V>(published, store, shorter) == leaves_run::<H, V>(
            published,
            store,
            shorter,
        )->Ok_0.1);
    } else {
        assert(shorter.subrange(0, upto) =~= pairs.subrange(0, upto));
        assert(shorter.subrange(0, upto + 1) =~= pairs.subrange(0, upto + 1));
        lemma_written_before_failure::<H, V>(published, store, shorter, upto);
    }
}

/// There are as many leaves as pairs in a batch.
pub proof fn lemma_leaves_run_len<H: Hasher, V: Encode>(
    published: Store,
    store: Store,
    pairs: Seq<(Seq<u8>, V::V)>,
)
    ensures
        leaves_run::<H, V>(published, store, pairs) matches Ok((locations, after)) ==> locations.len()
            == pairs.len(),
    decreases pairs.len(),
{
    if pairs.len() > 0 {
        lemma_leaves_run_len::<H, V>(published, store, pairs.drop_last());
    }
}

} // verus!
