//! What the removal of a tree leaves in the store.
//!
//! The removal keeps a queue of addresses and takes them from the front.
//! Each node that it finds gives up one reference; a node that nothing
//! refers to any more is dropped, and its children come into the queue.
//! The removal reads the published contents of the store; each drop
//! publishes what is pending.

use vstd::prelude::*;

use crate::tree::tree_node::{NodeKind, NodeModel, Store};

verus! {

/// The number of references of `node` after one is given up.
pub open spec fn released(node: NodeModel) -> u64 {
    if node.references > 0 {
        (node.references - 1) as u64
    } else {
        0
    }
}

/// The addresses of the nodes that a node of `kind` refers to.
pub open spec fn children(kind: NodeKind) -> Seq<Seq<u8>> {
    match kind {
        NodeKind::Branch { count, zero, one, split_index, key } => seq![zero, one],
        NodeKind::Leaf { key, data } => seq![data],
        NodeKind::Data { value } => Seq::empty(),
    }
}

/// What one step of a removal does: it leaves the published and the
/// pending contents of the store as `published` and `pending`, and puts
/// addresses at the back of the queue.
pub struct CollectStep {
    pub published: Store,
    pub pending: Store,
    pub pushed: Seq<Seq<u8>>,
}

/// The step that a removal takes at `location`. The node is read from
/// the published contents.
///
/// - A node that is not published was dropped before: nothing is done.
/// - A node that has references left after giving up one is written with
///   the smaller count to the pending contents.
/// - Any other node is dropped from the pending contents, which are
///   published with that, and its children come into the queue.
pub open spec fn collect_step(published: Store, pending: Store, location: Seq<u8>) -> CollectStep {
    if !published.contains_key(location) {
        CollectStep { published, pending, pushed: Seq::empty() }
    } else if released(published[location]) == 0 {
        CollectStep {
            published: pending.remove(location),
            pending: pending.remove(location),
            pushed: children(published[location].kind),
        }
    } else {
        CollectStep {
            published,
            pending: pending.insert(
                location,
                NodeModel {
                    references: released(published[location]),
                    kind: published[location].kind,
                },
            ),
            pushed: Seq::empty(),
        }
    }
}

/// The addresses at which the store holds a node, published or pending.
pub open spec fn addresses(published: Store, pending: Store) -> Set<Seq<u8>> {
    published.dom().union(pending.dom())
}

/// A step drops a node, or it leaves the addresses of the store as they
/// are and puts nothing in the queue.
pub proof fn lemma_collect_step(published: Store, pending: Store, location: Seq<u8>)
    requires
        published.dom().finite(),
        pending.dom().finite(),
    ensures
        ({
            let step = collect_step(published, pending, location);
            &&& step.published.dom().finite()
            &&& step.pending.dom().finite()
            &&& addresses(step.published, step.pending).len() < addresses(published, pending).len()
                || (addresses(step.published, step.pending) == addresses(published, pending)
                && step.pushed.len() == 0)
            &&& addresses(step.published, step.pending).subset_of(addresses(published, pending))
        }),
{
    let step = collect_step(published, pending, location);
    let before = addresses(published, pending);
    let after = addresses(step.published, step.pending);
    if !published.contains_key(location) {
    } else if released(published[location]) == 0 {
        assert(after =~= pending.dom().remove(location));
        assert(after.subset_of(before.remove(location)));
        vstd::set_lib::lemma_len_subset(after, before.remove(location));
    } else {
        assert(after =~= before);
    }
}

/// The contents that a removal leaves in the store when it has `queue`
/// before it and the published and the pending contents are `published`
/// and `pending`. At the end the pending contents are published.
pub open spec fn collect_run(published: Store, pending: Store, queue: Seq<Seq<u8>>) -> Store
    decreases addresses(published, pending).len(), queue.len(),
    when published.dom().finite() && pending.dom().finite()
    via collect_run_decreases
{
    if queue.len() == 0 {
        pending
    } else {
        let step = collect_step(published, pending, queue[0]);
        collect_run(step.published, step.pending, queue.drop_first() + step.pushed)
    }
}

#[via_fn]
proof fn collect_run_decreases(published: Store, pending: Store, queue: Seq<Seq<u8>>) {
    if queue.len() != 0 {
        lemma_collect_step(published, pending, queue[0]);
        let step = collect_step(published, pending, queue[0]);
        if step.pushed.len() == 0 {
            assert(queue.drop_first() + step.pushed =~= queue.drop_first());
        }
    }
}

} // verus!
