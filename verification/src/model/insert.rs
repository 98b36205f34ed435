//! What an insertion yields.

use vstd::prelude::*;

use crate::model::leaves::{leaves_run, leaves_written};
use crate::model::trie::{key_sorted_perm, planted};
use crate::model::walk::{walk, walk_writes};
use crate::traits::{Encode, Exception, Hasher};
use crate::tree::tree_node::Store;
use crate::utils::key_order::{pair_keys, sorted};
use crate::utils::tree_ref::RefModel;

verus! {

/// The subtrees that the new leaves at `locations` make: one leaf each,
/// under the keys `keys`.
pub open spec fn new_refs(keys: Seq<Seq<u8>>, locations: Seq<Seq<u8>>) -> Seq<RefModel> {
    Seq::new(
        locations.len(),
        |i: int| RefModel { key: keys[i], location: locations[i], node_count: 1, count: 1 },
    )
}

/// `pairs` holds the pairs of `batch`, each as often as `batch` does, in
/// the order of their keys.
pub open spec fn batch_sorted<T>(pairs: Seq<(Seq<u8>, T)>, batch: Seq<(Seq<u8>, T)>) -> bool {
    &&& pairs.to_multiset() == batch.to_multiset()
    &&& sorted(pair_keys(pairs))
}

/// The building of a tree over the subtrees `given` yields `outcome`:
/// the address of the root and the store with the branches, or an error.
pub open spec fn plant_yields<H: Hasher>(
    store: Store,
    given: Seq<RefModel>,
    outcome: Result<(Seq<u8>, Store), Exception>,
) -> bool {
    exists|sorted_refs: Seq<RefModel>| #[trigger]
        key_sorted_perm(sorted_refs, given) && planted::<H>(store, sorted_refs) == outcome
}

/// The insertion of the sorted batch `pairs` on top of the tree at
/// `previous_root` yields `outcome`: the address of the new root and
/// the contents of the store with the new nodes, or an error.
///
/// The leaves of the batch are written first. Then the earlier tree, if
/// there is one, is walked for the nodes that are taken over. At last the
/// new tree is built over the new leaves and the nodes taken over. All
/// this reads the published contents and writes to the pending ones,
/// which are published at the end.
pub open spec fn insert_yields<H: Hasher, V: Encode>(
    published: Store,
    pending: Store,
    previous_root: Option<Seq<u8>>,
    pairs: Seq<(Seq<u8>, V::V)>,
    max_depth: nat,
    outcome: Result<(Seq<u8>, Store), Exception>,
) -> bool {
    match leaves_run::<H, V>(published, pending, pairs) {
        Err(e) => outcome == Err::<(Seq<u8>, Store), Exception>(e),
        Ok((locations, with_leaves)) => {
            let fresh = new_refs(pair_keys(pairs), locations);
            match previous_root {
                None => plant_yields::<H>(with_leaves, fresh, outcome),
                Some(root) => match walk(
                    published,
                    with_leaves,
                    root,
                    pair_keys(pairs),
                    locations,
                    max_depth,
                ) {
                    Err(e) => outcome == Err::<(Seq<u8>, Store), Exception>(e),
                    Ok((kept, counted)) => plant_yields::<H>(counted, fresh + kept, outcome),
                },
            }
        },
    }
}

/// The pending contents that an insertion leaves when it fails: the
/// leaves that were written before a value had no encoding; or the leaves
/// of the batch and what the walk wrote before it stopped; or, where the
/// batch and the nodes taken over have a key twice, the leaves and what
/// the walk wrote, without any new branch.
pub open spec fn insert_leaves_behind<H: Hasher, V: Encode>(
    published: Store,
    pending: Store,
    previous_root: Option<Seq<u8>>,
    pairs: Seq<(Seq<u8>, V::V)>,
    max_depth: nat,
) -> Store {
    match leaves_run::<H, V>(published, pending, pairs) {
        Err(e) => leaves_written::<H, V>(published, pending, pairs),
        Ok((locations, with_leaves)) => match previous_root {
            None => with_leaves,
            Some(root) => walk_writes(
                published,
                with_leaves,
                root,
                pair_keys(pairs),
                locations,
                max_depth,
            ),
        },
    }
}

} // verus!
