//! Lookups in a tree that is not there, and walks that go too deep.

use vstd::prelude::*;

use crate::model::lookup::{lookup, lookup_run, lookup_step};
use crate::model::walk::{walk_run, walk_step};
use crate::traits::{Decode, Exception};
use crate::tree::tree_node::Store;
use crate::utils::tree_cell::CellModel;
use crate::utils::tree_ref::RefModel;

verus! {

/// A lookup under a root that the store does not have finds nothing, and
/// does not fail.
pub proof fn lemma_lookup_without_root<V: Decode>(
    store: Store,
    root: Seq<u8>,
    queried: Seq<Seq<u8>>,
    max_depth: nat,
)
    requires
        !store.contains_key(root),
    ensures
        lookup::<V>(store, root, queried, max_depth) == Ok::<Map<Seq<u8>, V::V>, Exception>(
            Map::empty(),
        ),
{
}

/// A lookup that comes to a cell deeper than the maximum depth stops
/// there with `DepthExceeded`.
pub proof fn lemma_lookup_stops_at_depth<V: Decode>(
    store: Store,
    queue: Seq<CellModel>,
    found: Map<Seq<u8>, V::V>,
    queried: Seq<Seq<u8>>,
    max_depth: nat,
)
    requires
        queue.len() > 0,
        queue[0].depth > max_depth,
    ensures
        lookup_run::<V>(store, queue, found, queried, max_depth) == Err::<
            Map<Seq<u8>, V::V>,
            Exception,
        >(Exception::DepthExceeded),
{
    assert(lookup_step::<V>(store, queue[0], queried, max_depth).error == Some(
        Exception::DepthExceeded,
    ));
}

/// A lookup puts no cell in its queue that is more than one level
/// deeper than the maximum depth: it stops before it would.
pub proof fn lemma_lookup_goes_no_deeper<V: Decode>(
    store: Store,
    cell: CellModel,
    queried: Seq<Seq<u8>>,
    max_depth: nat,
)
    ensures
        forall|i: int|
            0 <= i < lookup_step::<V>(store, cell, queried, max_depth).pushed.len() ==> (
            #[trigger] lookup_step::<V>(store, cell, queried, max_depth).pushed[i]).depth
                <= max_depth + 1,
{
}

/// The walk through an earlier tree that comes to a cell deeper than the
/// maximum depth stops there with `DepthExceeded`.
pub proof fn lemma_walk_stops_at_depth(
    published: Store,
    store: Store,
    queue: Seq<CellModel>,
    emitted: Seq<RefModel>,
    keys: Seq<Seq<u8>>,
    locations: Seq<Seq<u8>>,
    max_depth: nat,
)
    requires
        queue.len() > 0,
        queue[0].depth > max_depth,
    ensures
        walk_run(published, store, queue, emitted, keys, locations, max_depth) == Err::<
            (Seq<RefModel>, Store),
            Exception,
        >(Exception::DepthExceeded),
{
    assert(walk_step(published, store, queue[0], keys, locations, max_depth).error == Some(
        Exception::DepthExceeded,
    ));
}

/// The walk through an earlier tree puts no cell in its queue that is
/// more than one level deeper than the maximum depth.
pub proof fn lemma_walk_goes_no_deeper(
    published: Store,
    store: Store,
    cell: CellModel,
    keys: Seq<Seq<u8>>,
    locations: Seq<Seq<u8>>,
    max_depth: nat,
)
    ensures
        forall|i: int|
            0 <= i < walk_step(published, store, cell, keys, locations, max_depth).pushed.len() ==> (
            #[trigger] walk_step(published, store, cell, keys, locations, max_depth).pushed[i]).depth
                <= max_depth + 1,
{
}

} // verus!
