//! What the walk through an earlier tree yields when new leaves are
//! inserted.
//!
//! The walk finds the nodes of the earlier tree that the new keys do not
//! touch. Each of them gets one more reference and a descriptor, by which
//! it is joined into the new tree. Like a lookup, the walk keeps a queue
//! of cells and takes them from the front.

use vstd::prelude::*;

use crate::model::lookup::child_cell;
use crate::traits::Exception;
use crate::tree::tree_node::{NodeKind, NodeModel, Store};
use crate::utils::key_order::last_index_of;
use crate::utils::tree_cell::{
    cell_weight, lemma_children_weigh_less, lemma_queue_weight_add, queue_weight, CellModel,
};
use crate::utils::tree_ref::RefModel;
use crate::utils::tree_utils::{
    bit_of, descendants, leading, lemma_leading_bounds, one_side, same_prefix, zero_side,
};

verus! {

/// `node` with one more reference. A count that has reached the largest
/// number stays there.
pub open spec fn bumped(node: NodeModel) -> NodeModel {
    NodeModel { references: node.references.saturating_add(1), kind: node.kind }
}

/// What one step of the walk does: it fails, or it leaves the pending
/// contents as `store`, puts cells at the back of the queue and yields
/// descriptors.
pub struct WalkStep {
    pub error: Option<Exception>,
    pub store: Store,
    pub pushed: Seq<CellModel>,
    pub emitted: Seq<RefModel>,
}

/// A step that fails with `e`.
pub open spec fn walk_failure(store: Store, e: Exception) -> WalkStep {
    WalkStep { error: Some(e), store, pushed: Seq::empty(), emitted: Seq::empty() }
}

/// A step that does nothing.
pub open spec fn walk_pass(store: Store) -> WalkStep {
    WalkStep { error: None, store, pushed: Seq::empty(), emitted: Seq::empty() }
}

/// What the walk does with the child at `location` of a branch, for which
/// the keys `side` are left. The child is read from the published
/// contents.
///
/// - A child that the store does not have is a subtree that does not
///   exist: nothing is done.
/// - Where keys are left, the child gives a cell.
/// - Where none is left, the child is taken over as it is: it is written
///   with one more reference and yields a descriptor. A data node in this
///   place means that the tree is corrupt.
pub open spec fn walk_child(
    published: Store,
    pending: Store,
    location: Seq<u8>,
    side: Seq<Seq<u8>>,
    depth: nat,
) -> WalkStep {
    if !published.contains_key(location) {
        walk_pass(pending)
    } else if side.len() > 0 {
        WalkStep {
            error: None,
            store: pending,
            pushed: child_cell(published, location, side, depth),
            emitted: Seq::empty(),
        }
    } else {
        match published[location].kind {
            NodeKind::Branch { count, zero, one, split_index, key } => WalkStep {
                error: None,
                store: pending.insert(location, bumped(published[location])),
                pushed: Seq::empty(),
                emitted: seq![RefModel { key, location, node_count: count, count: 1 }],
            },
            NodeKind::Leaf { key, data } => WalkStep {
                error: None,
                store: pending.insert(location, bumped(published[location])),
                pushed: Seq::empty(),
                emitted: seq![RefModel { key, location, node_count: 1, count: 1 }],
            },
            NodeKind::Data { value } => walk_failure(pending, Exception::CorruptTree),
        }
    }
}

/// The step that the walk takes at `cell`. `keys` are the new keys, in
/// order, and `locations` the addresses of their new leaves. Nodes are
/// read from the published contents and written to the pending ones.
///
/// - Deeper than `max_depth`, the walk fails.
/// - A leaf whose key is new is passed over: its new leaf is written
///   already.
/// - Any other leaf is written with one more reference and yields a
///   descriptor.
/// - A branch below which none of the keys of the cell can lie is taken
///   over as it is: it is written with one more reference and yields a
///   descriptor.
/// - At any other branch the keys that can lie below it are split by
///   their bit at the split index, and the walk deals with the child of
///   the one side and then with the child of the zero side.
/// - A data node means that the tree is corrupt.
pub open spec fn walk_step(
    published: Store,
    pending: Store,
    cell: CellModel,
    keys: Seq<Seq<u8>>,
    locations: Seq<Seq<u8>>,
    max_depth: nat,
) -> WalkStep {
    if cell.depth > max_depth {
        walk_failure(pending, Exception::DepthExceeded)
    } else {
        match cell.node.kind {
            NodeKind::Leaf { key, data } => {
                let place = last_index_of(keys, key);
                if 0 <= place < locations.len() {
                    walk_pass(pending)
                } else if !published.contains_key(cell.location) {
                    walk_failure(pending, Exception::CorruptTree)
                } else {
                    WalkStep {
                        error: None,
                        store: pending.insert(cell.location, bumped(published[cell.location])),
                        pushed: Seq::empty(),
                        emitted: seq![
                            RefModel { key, location: cell.location, node_count: 1, count: 1 },
                        ],
                    }
                }
            },
            NodeKind::Data { value } => walk_failure(pending, Exception::CorruptTree),
            NodeKind::Branch { count, zero, one, split_index, key } => {
                let below = descendants(cell.keys, key, split_index as int);
                if cell.keys.len() > 0 && below.len() == 0 {
                    WalkStep {
                        error: None,
                        store: pending.insert(cell.location, bumped(cell.node)),
                        pushed: Seq::empty(),
                        emitted: seq![
                            RefModel { key, location: cell.location, node_count: count, count: 1 },
                        ],
                    }
                } else {
                    let zeros = zero_side(below, split_index as int);
                    let ones = one_side(below, split_index as int);
                    let first = walk_child(published, pending, one, ones, cell.depth + 1);
                    if first.error is Some {
                        first
                    } else {
                        let second = walk_child(
                            published,
                            first.store,
                            zero,
                            zeros,
                            cell.depth + 1,
                        );
                        WalkStep {
                            error: second.error,
                            store: second.store,
                            pushed: first.pushed + second.pushed,
                            emitted: first.emitted + second.emitted,
                        }
                    }
                }
            },
        }
    }
}

/// The cells that a step puts in the queue weigh less than the cell it
/// took out.
pub proof fn lemma_walk_step_weight(
    published: Store,
    store: Store,
    cell: CellModel,
    keys: Seq<Seq<u8>>,
    locations: Seq<Seq<u8>>,
    max_depth: nat,
)
    requires
        walk_step(published, store, cell, keys, locations, max_depth).error is None,
    ensures
        queue_weight(walk_step(published, store, cell, keys, locations, max_depth).pushed, max_depth)
            < cell_weight(cell, max_depth),
{
    let step = walk_step(published, store, cell, keys, locations, max_depth);
    match cell.node.kind {
        NodeKind::Branch { count, zero, one, split_index, key } => {
            let below = descendants(cell.keys, key, split_index as int);
            if cell.keys.len() > 0 && below.len() == 0 {
                assert(step.pushed =~= Seq::<CellModel>::empty());
            } else {
                let zeros = zero_side(below, split_index as int);
                let ones = one_side(below, split_index as int);
                lemma_leading_bounds(below, |k: Seq<u8>| !bit_of(k, split_index as int));
                lemma_leading_bounds(
                    cell.keys,
                    |k: Seq<u8>| !same_prefix(k, key, split_index as int),
                );
                let start = leading(
                    cell.keys,
                    |k: Seq<u8>| !same_prefix(k, key, split_index as int),
                ) as int;
                lemma_leading_bounds(
                    cell.keys.subrange(start, cell.keys.len() as int),
                    |k: Seq<u8>| same_prefix(k, key, split_index as int),
                );
                let first = walk_child(published, store, one, ones, cell.depth + 1);
                let second = walk_child(published, first.store, zero, zeros, cell.depth + 1);
                assert(step.pushed =~= first.pushed + second.pushed);
                lemma_children_weigh_less(cell, ones, zeros, step.pushed, max_depth);
            }
        },
        _ => {
            assert(step.pushed =~= Seq::<CellModel>::empty());
        },
    }
}

/// The descriptors that the walk yields and the store that it leaves when
/// it has `queue` before it, has yielded `emitted` so far and the store
/// is `store`; or the error on which it stops.
pub open spec fn walk_run(
    published: Store,
    store: Store,
    queue: Seq<CellModel>,
    emitted: Seq<RefModel>,
    keys: Seq<Seq<u8>>,
    locations: Seq<Seq<u8>>,
    max_depth: nat,
) -> Result<(Seq<RefModel>, Store), Exception>
    decreases queue_weight(queue, max_depth),
    via walk_run_decreases
{
    if queue.len() == 0 {
        Ok((emitted, store))
    } else {
        let step = walk_step(published, store, queue[0], keys, locations, max_depth);
        match step.error {
            Some(e) => Err(e),
            None => walk_run(
                published,
                step.store,
                queue.drop_first() + step.pushed,
                emitted + step.emitted,
                keys,
                locations,
                max_depth,
            ),
        }
    }
}

#[via_fn]
proof fn walk_run_decreases(
    published: Store,
    store: Store,
    queue: Seq<CellModel>,
    emitted: Seq<RefModel>,
    keys: Seq<Seq<u8>>,
    locations: Seq<Seq<u8>>,
    max_depth: nat,
) {
    if queue.len() != 0 {
        let step = walk_step(published, store, queue[0], keys, locations, max_depth);
        if step.error is None {
            lemma_walk_step_weight(published, store, queue[0], keys, locations, max_depth);
            lemma_queue_weight_add(queue.drop_first(), step.pushed, max_depth);
        }
    }
}

/// The pending contents with which the walk ends when it has `queue`
/// before it and the store is `store`, be it at the end of the queue or
/// on an error.
pub open spec fn walk_run_writes(
    published: Store,
    store: Store,
    queue: Seq<CellModel>,
    keys: Seq<Seq<u8>>,
    locations: Seq<Seq<u8>>,
    max_depth: nat,
) -> Store
    decreases queue_weight(queue, max_depth),
    via walk_run_writes_decreases
{
    if queue.len() == 0 {
        store
    } else {
        let step = walk_step(published, store, queue[0], keys, locations, max_depth);
        match step.error {
            Some(e) => step.store,
            None => walk_run_writes(
                published,
                step.store,
                queue.drop_first() + step.pushed,
                keys,
                locations,
                max_depth,
            ),
        }
    }
}

#[via_fn]
proof fn walk_run_writes_decreases(
    published: Store,
    store: Store,
    queue: Seq<CellModel>,
    keys: Seq<Seq<u8>>,
    locations: Seq<Seq<u8>>,
    max_depth: nat,
) {
    if queue.len() != 0 {
        let step = walk_step(published, store, queue[0], keys, locations, max_depth);
        if step.error is None {
            lemma_walk_step_weight(published, store, queue[0], keys, locations, max_depth);
            lemma_queue_weight_add(queue.drop_first(), step.pushed, max_depth);
        }
    }
}

/// Where the walk ends without an error, it ends with the store that it
/// yields.
pub proof fn lemma_walk_run_writes(
    published: Store,
    store: Store,
    queue: Seq<CellModel>,
    emitted: Seq<RefModel>,
    keys: Seq<Seq<u8>>,
    locations: Seq<Seq<u8>>,
    max_depth: nat,
)
    ensures
        walk_run(published, store, queue, emitted, keys, locations, max_depth) matches Ok(
            (kept, counted),
        ) ==> walk_run_writes(published, store, queue, keys, locations, max_depth) == counted,
    decreases queue_weight(queue, max_depth),
{
    if queue.len() != 0 {
        let step = walk_step(published, store, queue[0], keys, locations, max_depth);
        if step.error is None {
            lemma_walk_step_weight(published, store, queue[0], keys, locations, max_depth);
            lemma_queue_weight_add(queue.drop_first(), step.pushed, max_depth);
            lemma_walk_run_writes(
                published,
                step.store,
                queue.drop_first() + step.pushed,
                emitted + step.emitted,
                keys,
                locations,
                max_depth,
            );
        }
    }
}

/// Each subtree that a walk yields stands for itself alone.
pub proof fn lemma_walk_run_counts(
    published: Store,
    store: Store,
    queue: Seq<CellModel>,
    emitted: Seq<RefModel>,
    keys: Seq<Seq<u8>>,
    locations: Seq<Seq<u8>>,
    max_depth: nat,
    kept: Seq<RefModel>,
    counted: Store,
)
    requires
        forall|j: int| 0 <= j < emitted.len() ==> (#[trigger] emitted[j]).count == 1,
        walk_run(published, store, queue, emitted, keys, locations, max_depth) == Ok::<
            (Seq<RefModel>, Store),
            Exception,
        >((kept, counted)),
    ensures
        forall|j: int| 0 <= j < kept.len() ==> (#[trigger] kept[j]).count == 1,
    decreases queue_weight(queue, max_depth),
{
    if queue.len() != 0 {
        let step = walk_step(published, store, queue[0], keys, locations, max_depth);
        if step.error is None {
            lemma_walk_step_weight(published, store, queue[0], keys, locations, max_depth);
            lemma_queue_weight_add(queue.drop_first(), step.pushed, max_depth);
            lemma_walk_step_counts(published, store, queue[0], keys, locations, max_depth);
            lemma_walk_run_counts(
                published,
                step.store,
                queue.drop_first() + step.pushed,
                emitted + step.emitted,
                keys,
                locations,
                max_depth,
                kept,
                counted,
            );
        }
    }
}

/// Each subtree that a step of a walk yields stands for itself alone.
pub proof fn lemma_walk_step_counts(
    published: Store,
    store: Store,
    cell: CellModel,
    keys: Seq<Seq<u8>>,
    locations: Seq<Seq<u8>>,
    max_depth: nat,
)
    ensures
        forall|j: int|
            0 <= j < walk_step(published, store, cell, keys, locations, max_depth).emitted.len() ==> (
            #[trigger] walk_step(published, store, cell, keys, locations, max_depth).emitted[j]).count == 1,
{
}

/// What the walk from `root` yields for the new keys `keys`, whose new
/// leaves are at `locations`: the descriptors of the nodes taken over and
/// the pending contents with their references counted, or the error on
/// which the walk stops. A root that is not published is an error.
pub open spec fn walk(
    published: Store,
    store: Store,
    root: Seq<u8>,
    keys: Seq<Seq<u8>>,
    locations: Seq<Seq<u8>>,
    max_depth: nat,
) -> Result<(Seq<RefModel>, Store), Exception> {
    if !published.contains_key(root) {
        Err(Exception::CorruptTree)
    } else {
        walk_run(
            published,
            store,
            seq![CellModel { location: root, keys, node: published[root], depth: 0 }],
            Seq::empty(),
            keys,
            locations,
            max_depth,
        )
    }
}

/// The pending contents with which the walk from `root` ends, be it at
/// its end or on an error. A root that is not published is an error
/// before anything is written.
pub open spec fn walk_writes(
    published: Store,
    store: Store,
    root: Seq<u8>,
    keys: Seq<Seq<u8>>,
    locations: Seq<Seq<u8>>,
    max_depth: nat,
) -> Store {
    if !published.contains_key(root) {
        store
    } else {
        walk_run_writes(
            published,
            store,
            seq![CellModel { location: root, keys, node: published[root], depth: 0 }],
            keys,
            locations,
            max_depth,
        )
    }
}

/// Each subtree that a walk yields stands for itself alone.
pub proof fn lemma_walk_counts(
    published: Store,
    store: Store,
    root: Seq<u8>,
    keys: Seq<Seq<u8>>,
    locations: Seq<Seq<u8>>,
    max_depth: nat,
    kept: Seq<RefModel>,
    counted: Store,
)
    requires
        walk(published, store, root, keys, locations, max_depth) == Ok::<(Seq<RefModel>, Store), Exception>(
            (kept, counted),
        ),
    ensures
        forall|j: int| 0 <= j < kept.len() ==> (#[trigger] kept[j]).count == 1,
{
    lemma_walk_run_counts(
        published,
        store,
        seq![CellModel { location: root, keys, node: published[root], depth: 0 }],
        Seq::empty(),
        keys,
        locations,
        max_depth,
        kept,
        counted,
    );
}

} // verus!
