//! Well-formed subtrees in other stores, under other heights and in
//! other regions.

use vstd::prelude::*;

use crate::theorems::reading::{find, side_region, sound, under, Region};
use crate::traits::Decode;
use crate::tree::tree_node::{NodeKind, Store};

verus! {

/// `after` holds a node with the same record at each address at which
/// `before` holds a node.
pub open spec fn records_kept(before: Store, after: Store) -> bool {
    forall|a: Seq<u8>| #[trigger]
        before.contains_key(a) ==> after.contains_key(a) && after[a].kind == before[a].kind
}

/// The region `r` with the height `height`.
pub open spec fn with_height(r: Region, height: nat) -> Region {
    Region { key: r.key, split: r.split, side: r.side, height }
}

/// The height `height` is enough for every well-formed subtree of a
/// region that parts after `split`.
pub open spec fn tall(split: int, height: nat) -> bool {
    height + split >= 255
}

/// A well-formed subtree is well-formed in a store that keeps the
/// records, and holds there what it held.
pub proof fn lemma_sound_frame<V: Decode>(before: Store, after: Store, location: Seq<u8>, r: Region)
    requires
        sound::<V>(before, location, r),
        records_kept(before, after),
    ensures
        sound::<V>(after, location, r),
        forall|q: Seq<u8>| #[trigger]
            find::<V>(after, location, q, r.height) == find::<V>(before, location, q, r.height),
    decreases r.height,
{
    assert(before.contains_key(location));
    match before[location].kind {
        NodeKind::Data { value } => {},
        NodeKind::Leaf { key, data } => {
            assert(before.contains_key(data));
        },
        NodeKind::Branch { count, zero, one, split_index, key } => {
            let zero_region = side_region(key, split_index, false, r.height);
            let one_region = side_region(key, split_index, true, r.height);
            lemma_sound_frame::<V>(before, after, zero, zero_region);
            lemma_sound_frame::<V>(before, after, one, one_region);
            assert forall|q: Seq<u8>| #[trigger]
                find::<V>(after, location, q, r.height) == find::<V>(
                    before,
                    location,
                    q,
                    r.height,
                ) by {
                assert(find::<V>(after, zero, q, zero_region.height) == find::<V>(
                    before,
                    zero,
                    q,
                    zero_region.height,
                ));
                assert(find::<V>(after, one, q, one_region.height) == find::<V>(
                    before,
                    one,
                    q,
                    one_region.height,
                ));
            }
        },
    }
}

/// A well-formed subtree is well-formed under every height that is
/// enough for its region, and holds under that height what it held.
pub proof fn lemma_sound_height<V: Decode>(store: Store, location: Seq<u8>, r: Region, height: nat)
    requires
        sound::<V>(store, location, r),
        tall(r.split, height),
    ensures
        sound::<V>(store, location, with_height(r, height)),
        forall|q: Seq<u8>| #[trigger]
            find::<V>(store, location, q, height) == find::<V>(store, location, q, r.height),
    decreases r.height,
{
    match store[location].kind {
        NodeKind::Data { value } => {},
        NodeKind::Leaf { key, data } => {},
        NodeKind::Branch { count, zero, one, split_index, key } => {
            let zero_region = side_region(key, split_index, false, r.height);
            let one_region = side_region(key, split_index, true, r.height);
            let lower = (height - 1) as nat;
            lemma_sound_height::<V>(store, zero, zero_region, lower);
            lemma_sound_height::<V>(store, one, one_region, lower);
            assert(with_height(zero_region, lower) == side_region(key, split_index, false, height));
            assert(with_height(one_region, lower) == side_region(key, split_index, true, height));
            assert forall|q: Seq<u8>| #[trigger]
                find::<V>(store, location, q, height) == find::<V>(store, location, q, r.height) by {
                assert(find::<V>(store, zero, q, lower) == find::<V>(
                    store,
                    zero,
                    q,
                    zero_region.height,
                ));
                assert(find::<V>(store, one, q, lower) == find::<V>(
                    store,
                    one,
                    q,
                    one_region.height,
                ));
            }
        },
    }
}

/// The key that the node at `location` carries, and the number of bits
/// of that key with which all keys below the node agree: all bits for a
/// leaf, the bits before the split index for a branch.
pub open spec fn node_key(store: Store, location: Seq<u8>) -> (Seq<u8>, int) {
    match store[location].kind {
        NodeKind::Leaf { key, data } => (key, 256),
        NodeKind::Branch { count, zero, one, split_index, key } => (key, split_index as int),
        NodeKind::Data { value } => (Seq::empty(), 0),
    }
}

/// A well-formed subtree is well-formed for every region that holds its
/// key and parts before it does.
pub proof fn lemma_sound_moves<V: Decode>(store: Store, location: Seq<u8>, r: Region, to: Region)
    requires
        sound::<V>(store, location, r),
        under(node_key(store, location).0, to),
        to.split < node_key(store, location).1,
        to.height == r.height,
    ensures
        sound::<V>(store, location, to),
{
    match store[location].kind {
        NodeKind::Data { value } => {},
        NodeKind::Leaf { key, data } => {},
        NodeKind::Branch { count, zero, one, split_index, key } => {
            assert(side_region(key, split_index, false, r.height) == side_region(
                key,
                split_index,
                false,
                to.height,
            ));
        },
    }
}

/// No way from the node at `location` down to a leaf goes through more
/// than `height` branches.
pub open spec fn within_height(store: Store, location: Seq<u8>, height: nat) -> bool
    decreases height,
{
    match store[location].kind {
        NodeKind::Branch { count, zero, one, split_index, key } => height > 0 && within_height(
            store,
            zero,
            (height - 1) as nat,
        ) && within_height(store, one, (height - 1) as nat),
        _ => true,
    }
}

/// A well-formed subtree is well-formed under every height that it does
/// not exceed, and holds under that height what it held.
pub proof fn lemma_sound_lower<V: Decode>(store: Store, location: Seq<u8>, r: Region, height: nat)
    requires
        sound::<V>(store, location, r),
        within_height(store, location, height),
    ensures
        sound::<V>(store, location, with_height(r, height)),
        forall|q: Seq<u8>| #[trigger]
            find::<V>(store, location, q, height) == find::<V>(store, location, q, r.height),
    decreases r.height,
{
    match store[location].kind {
        NodeKind::Data { value } => {},
        NodeKind::Leaf { key, data } => {},
        NodeKind::Branch { count, zero, one, split_index, key } => {
            let zero_region = side_region(key, split_index, false, r.height);
            let one_region = side_region(key, split_index, true, r.height);
            let lower = (height - 1) as nat;
            lemma_sound_lower::<V>(store, zero, zero_region, lower);
            lemma_sound_lower::<V>(store, one, one_region, lower);
            assert(with_height(zero_region, lower) == side_region(key, split_index, false, height));
            assert(with_height(one_region, lower) == side_region(key, split_index, true, height));
            assert forall|q: Seq<u8>| #[trigger]
                find::<V>(store, location, q, height) == find::<V>(store, location, q, r.height) by {
                assert(find::<V>(store, zero, q, lower) == find::<V>(
                    store,
                    zero,
                    q,
                    zero_region.height,
                ));
                assert(find::<V>(store, one, q, lower) == find::<V>(
                    store,
                    one,
                    q,
                    one_region.height,
                ));
            }
        },
    }
}

} // verus!
