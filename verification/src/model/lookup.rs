//! What a lookup finds.
//!
//! A lookup walks the tree breadth-first. It keeps a queue of cells, each
//! a node with the keys that may lie below it, and takes them from the
//! front one by one.

use vstd::prelude::*;

use crate::traits::{Decode, Exception};
use crate::tree::tree_node::{NodeKind, Store};
use crate::utils::tree_cell::{cell_weight, queue_weight, lemma_children_weigh_less, lemma_queue_weight_add, CellModel};
use crate::utils::tree_utils::{descendants, one_side, zero_side, lemma_leading_bounds, same_prefix, bit_of};

verus! {

/// What one step of a lookup does: it fails, or it puts cells at the back
/// of the queue and may have found the value of a key.
pub struct LookupStep<T> {
    pub error: Option<Exception>,
    pub pushed: Seq<CellModel>,
    pub hit: Option<(Seq<u8>, T)>,
}

/// The cell for the child at `location`, if the store has that node and
/// there are keys to look for below it.
pub open spec fn child_cell(store: Store, location: Seq<u8>, keys: Seq<Seq<u8>>, depth: nat) -> Seq<
    CellModel,
> {
    if store.contains_key(location) && keys.len() > 0 {
        seq![CellModel { location, keys, node: store[location], depth }]
    } else {
        Seq::empty()
    }
}

/// The step that a lookup takes at `cell`.
///
/// - Deeper than `max_depth`, the lookup fails.
/// - At a branch, the keys of the cell that can lie below it are split by
///   their bit at the split index, and each side that has keys and whose
///   child is in the store gives a cell, the one side first.
/// - At a leaf, the data node is read and decoded; the value is a hit if
///   the key of the leaf is among the `queried` keys.
/// - A data node, or a leaf without one, means that the tree is corrupt.
pub open spec fn lookup_step<V: Decode>(
    store: Store,
    cell: CellModel,
    queried: Seq<Seq<u8>>,
    max_depth: nat,
) -> LookupStep<V::V> {
    if cell.depth > max_depth {
        LookupStep { error: Some(Exception::DepthExceeded), pushed: Seq::empty(), hit: None }
    } else {
        match cell.node.kind {
            NodeKind::Branch { count, zero, one, split_index, key } => {
                let below = descendants(cell.keys, key, split_index as int);
                let zeros = zero_side(below, split_index as int);
                let ones = one_side(below, split_index as int);
                LookupStep {
                    error: None,
                    pushed: child_cell(store, one, ones, cell.depth + 1) + child_cell(
                        store,
                        zero,
                        zeros,
                        cell.depth + 1,
                    ),
                    hit: None,
                }
            },
            NodeKind::Leaf { key, data } => {
                if !store.contains_key(data) {
                    LookupStep {
                        error: Some(Exception::CorruptTree),
                        pushed: Seq::empty(),
                        hit: None,
                    }
                } else {
                    match store[data].kind {
                        NodeKind::Data { value } => match V::decoding(value) {
                            None => LookupStep {
                                error: Some(Exception::CodecFailure),
                                pushed: Seq::empty(),
                                hit: None,
                            },
                            Some(v) => LookupStep {
                                error: None,
                                pushed: Seq::empty(),
                                hit: if queried.contains(key) {
                                    Some((key, v))
                                } else {
                                    None
                                },
                            },
                        },
                        _ => LookupStep {
                            error: Some(Exception::CorruptTree),
                            pushed: Seq::empty(),
                            hit: None,
                        },
                    }
                }
            },
            NodeKind::Data { value } => LookupStep {
                error: Some(Exception::CorruptTree),
                pushed: Seq::empty(),
                hit: None,
            },
        }
    }
}

/// `found` with the hit of a step added.
pub open spec fn with_hit<T>(found: Map<Seq<u8>, T>, hit: Option<(Seq<u8>, T)>) -> Map<Seq<u8>, T> {
    match hit {
        Some((key, value)) => found.insert(key, value),
        None => found,
    }
}

/// The cells that a step puts in the queue weigh less than the cell it
/// took out.
pub proof fn lemma_lookup_step_weight<V: Decode>(
    store: Store,
    cell: CellModel,
    queried: Seq<Seq<u8>>,
    max_depth: nat,
)
    requires
        lookup_step::<V>(store, cell, queried, max_depth).error is None,
    ensures
        queue_weight(lookup_step::<V>(store, cell, queried, max_depth).pushed, max_depth)
            < cell_weight(cell, max_depth),
{
    let step = lookup_step::<V>(store, cell, queried, max_depth);
    match cell.node.kind {
        NodeKind::Branch { count, zero, one, split_index, key } => {
            let below = descendants(cell.keys, key, split_index as int);
            let zeros = zero_side(below, split_index as int);
            let ones = one_side(below, split_index as int);
            lemma_leading_bounds(below, |k: Seq<u8>| !bit_of(k, split_index as int));
            lemma_leading_bounds(
                cell.keys,
                |k: Seq<u8>| !same_prefix(k, key, split_index as int),
            );
            let start = crate::utils::tree_utils::leading(
                cell.keys,
                |k: Seq<u8>| !same_prefix(k, key, split_index as int),
            ) as int;
            lemma_leading_bounds(
                cell.keys.subrange(start, cell.keys.len() as int),
                |k: Seq<u8>| same_prefix(k, key, split_index as int),
            );
            lemma_children_weigh_less(cell, ones, zeros, step.pushed, max_depth);
        },
        _ => {
            assert(step.pushed =~= Seq::<CellModel>::empty());
        },
    }
}

/// The values that a lookup finds when it has `queue` before it and has
/// found `found` so far, or the error on which it stops.
pub open spec fn lookup_run<V: Decode>(
    store: Store,
    queue: Seq<CellModel>,
    found: Map<Seq<u8>, V::V>,
    queried: Seq<Seq<u8>>,
    max_depth: nat,
) -> Result<Map<Seq<u8>, V::V>, Exception>
    decreases queue_weight(queue, max_depth),
    via lookup_run_decreases::<V>
{
    if queue.len() == 0 {
        Ok(found)
    } else {
        let step = lookup_step::<V>(store, queue[0], queried, max_depth);
        match step.error {
            Some(e) => Err(e),
            None => lookup_run::<V>(
                store,
                queue.drop_first() + step.pushed,
                with_hit(found, step.hit),
                queried,
                max_depth,
            ),
        }
    }
}

#[via_fn]
proof fn lookup_run_decreases<V: Decode>(
    store: Store,
    queue: Seq<CellModel>,
    found: Map<Seq<u8>, V::V>,
    queried: Seq<Seq<u8>>,
    max_depth: nat,
) {
    if queue.len() != 0 {
        let step = lookup_step::<V>(store, queue[0], queried, max_depth);
        if step.error is None {
            lemma_lookup_step_weight::<V>(store, queue[0], queried, max_depth);
            lemma_queue_weight_add(queue.drop_first(), step.pushed, max_depth);
        }
    }
}

/// What a lookup of the sorted keys `queried` finds in the tree at `root`:
/// the values by key, or the error on which the lookup stops. A root that
/// the store does not have is an empty tree.
pub open spec fn lookup<V: Decode>(
    store: Store,
    root: Seq<u8>,
    queried: Seq<Seq<u8>>,
    max_depth: nat,
) -> Result<Map<Seq<u8>, V::V>, Exception> {
    if queried.len() == 0 || !store.contains_key(root) {
        Ok(Map::empty())
    } else {
        lookup_run::<V>(
            store,
            seq![CellModel { location: root, keys: queried, node: store[root], depth: 0 }],
            Map::empty(),
            queried,
            max_depth,
        )
    }
}

} // verus!
