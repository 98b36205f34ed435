//! Nodes that are in the store already are counted, not written again.

use vstd::prelude::*;

use crate::model::insert::{insert_yields, new_refs, plant_yields};
use crate::model::leaves::{leaves_run, with_leaf};
use crate::model::trie::{built, key_sorted_perm, merge_order, planted, split_bits};
use crate::model::walk::{
    bumped, lemma_walk_step_weight, walk, walk_child, walk_run, walk_step,
};
use crate::theorems::round_trip::{data_at, encoded_at, leaf_at};
use crate::theorems::survival::{data_kind, is_new_node, leaf_kind, node_of_pair};
use crate::traits::{Encode, Exception, Hasher};
use crate::tree::tree_node::{NodeKind, Store};
use crate::utils::key_order::pair_keys;
use crate::utils::tree_cell::{lemma_queue_weight_add, queue_weight, CellModel};
use crate::utils::tree_ref::RefModel;

verus! {

/// The leaf of each pair and its data node are published.
pub open spec fn stored<H: Hasher, V: Encode>(store: Store, pairs: Seq<(Seq<u8>, V::V)>) -> bool {
    forall|i: int|
        0 <= i < pairs.len() ==> {
            &&& V::encoding((#[trigger] pairs[i]).1) is Some
            &&& store.contains_key(leaf_at::<H, V>(pairs, i))
            &&& store[leaf_at::<H, V>(pairs, i)].kind == leaf_kind::<H, V>(pairs, i)
            &&& store.contains_key(data_at::<H, V>(pairs, i))
            &&& store[data_at::<H, V>(pairs, i)].kind == data_kind::<V>(pairs, i)
        }
}

/// `after` holds at each address what `before` holds there, or the
/// published node with one more reference, and it holds a node wherever
/// `before` holds one.
pub open spec fn counted_from(published: Store, before: Store, after: Store) -> bool {
    &&& forall|a: Seq<u8>| #[trigger]
        after.contains_key(a) ==> (before.contains_key(a) && after[a] == before[a]) || (
        published.contains_key(a) && after[a] == bumped(published[a]))
    &&& forall|a: Seq<u8>| #[trigger] before.contains_key(a) ==> after.contains_key(a)
}

/// The leaves of pairs that are published already are written with one
/// more reference than is published, and so are their data nodes; the
/// rest of the pending contents stays as it is.
pub proof fn lemma_leaves_are_counted<H: Hasher, V: Encode>(
    published: Store,
    pending: Store,
    pairs: Seq<(Seq<u8>, V::V)>,
)
    requires
        stored::<H, V>(published, pairs),
    ensures
        leaves_run::<H, V>(published, pending, pairs) is Ok,
        leaves_run::<H, V>(published, pending, pairs)->Ok_0.0.len() == pairs.len(),
        forall|a: Seq<u8>| #[trigger]
            is_new_node::<H, V>(pairs, a) ==> leaves_run::<H, V>(
                published,
                pending,
                pairs,
            )->Ok_0.1.contains_key(a) && leaves_run::<H, V>(published, pending, pairs)->Ok_0.1[a]
                == bumped(published[a]),
        counted_from(published, pending, leaves_run::<H, V>(published, pending, pairs)->Ok_0.1),
    decreases pairs.len(),
{
    if pairs.len() > 0 {
        let front = pairs.drop_last();
        let last = pairs.len() - 1;
        assert forall|i: int| 0 <= i < front.len() implies {
            &&& V::encoding((#[trigger] front[i]).1) is Some
            &&& published.contains_key(leaf_at::<H, V>(front, i))
            &&& published[leaf_at::<H, V>(front, i)].kind == leaf_kind::<H, V>(front, i)
            &&& published.contains_key(data_at::<H, V>(front, i))
            &&& published[data_at::<H, V>(front, i)].kind == data_kind::<V>(front, i)
        } by {
            assert(front[i] == pairs[i]);
            assert(V::encoding(pairs[i].1) is Some);
        }
        lemma_leaves_are_counted::<H, V>(published, pending, front);
        let before = leaves_run::<H, V>(published, pending, front)->Ok_0.1;
        let after = leaves_run::<H, V>(published, pending, pairs)->Ok_0.1;
        assert(pairs.last() == pairs[last]);
        assert(V::encoding(pairs[last].1) is Some);
        assert(after == with_leaf::<H>(
            published,
            before,
            pairs[last].0,
            encoded_at::<V>(pairs, last),
        ));
        let leaf = leaf_at::<H, V>(pairs, last);
        let data = data_at::<H, V>(pairs, last);
        assert(published.contains_key(leaf) && published.contains_key(data));
        assert forall|a: Seq<u8>| #[trigger] is_new_node::<H, V>(pairs, a) implies after.contains_key(
            a,
        ) && after[a] == bumped(published[a]) by {
            if a != leaf && a != data {
                let i = choose|i: int|
                    0 <= i < pairs.len() && #[trigger] node_of_pair::<H, V>(pairs, i, a);
                assert(front[i] == pairs[i]);
                assert(node_of_pair::<H, V>(front, i, a));
                assert(is_new_node::<H, V>(front, a));
            }
        }
    } else {
        assert forall|a: Seq<u8>| !(#[trigger] is_new_node::<H, V>(pairs, a)) by {}
    }
}

/// Each cell of the queue holds the node that is published at the
/// address of the cell.
pub open spec fn cells_match(published: Store, queue: Seq<CellModel>) -> bool {
    forall|i: int|
        0 <= i < queue.len() ==> published.contains_key((#[trigger] queue[i]).location)
            && published[queue[i].location] == queue[i].node
}

/// A step of the walk through an earlier tree writes published nodes
/// with one more reference, and nothing else.
pub proof fn lemma_walk_step_counts(
    published: Store,
    pending: Store,
    cell: CellModel,
    keys: Seq<Seq<u8>>,
    locations: Seq<Seq<u8>>,
    max_depth: nat,
)
    requires
        published.contains_key(cell.location),
        published[cell.location] == cell.node,
    ensures
        counted_from(
            published,
            pending,
            walk_step(published, pending, cell, keys, locations, max_depth).store,
        ),
        cells_match(published, walk_step(published, pending, cell, keys, locations, max_depth).pushed),
{
    let step = walk_step(published, pending, cell, keys, locations, max_depth);
    match cell.node.kind {
        NodeKind::Branch { count, zero, one, split_index, key } => {
            let below = crate::utils::tree_utils::descendants(cell.keys, key, split_index as int);
            if cell.keys.len() > 0 && below.len() == 0 {
            } else if cell.depth <= max_depth {
                let zeros = crate::utils::tree_utils::zero_side(below, split_index as int);
                let ones = crate::utils::tree_utils::one_side(below, split_index as int);
                let first = walk_child(published, pending, one, ones, cell.depth + 1);
                let second = walk_child(published, first.store, zero, zeros, cell.depth + 1);
                assert(counted_from(published, pending, first.store));
                assert(counted_from(published, first.store, second.store));
                if first.error is None {
                    assert(step.pushed =~= first.pushed + second.pushed);
                }
            }
        },
        _ => {},
    }
}

/// The walk through an earlier tree writes published nodes with one
/// more reference, and nothing else.
pub proof fn lemma_walk_run_counts_up(
    published: Store,
    pending: Store,
    queue: Seq<CellModel>,
    emitted: Seq<RefModel>,
    keys: Seq<Seq<u8>>,
    locations: Seq<Seq<u8>>,
    max_depth: nat,
    kept: Seq<RefModel>,
    counted: Store,
)
    requires
        cells_match(published, queue),
        walk_run(published, pending, queue, emitted, keys, locations, max_depth) == Ok::<
            (Seq<RefModel>, Store),
            Exception,
        >((kept, counted)),
    ensures
        counted_from(published, pending, counted),
    decreases queue_weight(queue, max_depth),
{
    if queue.len() != 0 {
        let step = walk_step(published, pending, queue[0], keys, locations, max_depth);
        lemma_walk_step_weight(published, pending, queue[0], keys, locations, max_depth);
        lemma_queue_weight_add(queue.drop_first(), step.pushed, max_depth);
        lemma_walk_step_counts(published, pending, queue[0], keys, locations, max_depth);
        let next = queue.drop_first() + step.pushed;
        assert forall|i: int| 0 <= i < next.len() implies published.contains_key(
            (#[trigger] next[i]).location,
        ) && published[next[i].location] == next[i].node by {
            if i < queue.len() - 1 {
                assert(next[i] == queue[i + 1]);
            } else {
                assert(next[i] == step.pushed[i - (queue.len() - 1)]);
            }
        }
        lemma_walk_run_counts_up(
            published,
            step.store,
            next,
            emitted + step.emitted,
            keys,
            locations,
            max_depth,
            kept,
            counted,
        );
    }
}

/// The walk passes over a leaf whose key is new: it writes nothing and
/// yields nothing.
pub proof fn lemma_walk_passes_over_new_leaf(
    published: Store,
    pending: Store,
    cell: CellModel,
    keys: Seq<Seq<u8>>,
    locations: Seq<Seq<u8>>,
    max_depth: nat,
)
    requires
        cell.depth <= max_depth,
        cell.node.kind is Leaf,
        keys.contains(cell.node.kind->Leaf_key),
        locations.len() == keys.len(),
    ensures
        walk_step(published, pending, cell, keys, locations, max_depth).error is None,
        walk_step(published, pending, cell, keys, locations, max_depth).store == pending,
        walk_step(published, pending, cell, keys, locations, max_depth).emitted.len() == 0,
        walk_step(published, pending, cell, keys, locations, max_depth).pushed.len() == 0,
{
    let key = cell.node.kind->Leaf_key;
    let place = choose|place: int| 0 <= place < keys.len() && keys[place] == key;
    lemma_last_at_least(keys, key, place);
}

/// A key that is in a list has a last place in the list.
pub proof fn lemma_last_at_least(keys: Seq<Seq<u8>>, key: Seq<u8>, place: int)
    requires
        0 <= place < keys.len(),
        keys[place] == key,
    ensures
        place <= crate::utils::key_order::last_index_of(keys, key) < keys.len(),
    decreases keys.len(),
{
    if keys.last() != key {
        lemma_last_at_least(keys.drop_last(), key, place);
    }
}

/// The building of a tree writes branches only.
pub proof fn lemma_built_adds_branches<H: Hasher>(
    store: Store,
    refs: Seq<RefModel>,
    splits: Seq<u8>,
    order: Seq<int>,
)
    ensures
        forall|a: Seq<u8>| #[trigger]
            built::<H>(store, refs, splits, order).contains_key(a) && !(built::<H>(
                store,
                refs,
                splits,
                order,
            )[a].kind is Branch) ==> store.contains_key(a) && store[a] == built::<H>(
                store,
                refs,
                splits,
                order,
            )[a],
    decreases order.len(),
{
    if order.len() > 0 {
        lemma_built_adds_branches::<H>(store, refs, splits, order.drop_last());
    }
}

/// The insertion of pairs whose leaves are published already, into a
/// store in which nothing is pending, adds no leaf and no data node:
/// every leaf and every data node of the store afterwards was published
/// before, with the same record, and has the reference count it had or
/// one more. The leaf and the data node of each pair have one more
/// reference than before. No node is dropped.
pub proof fn lemma_same_pairs_add_no_leaf<H: Hasher, V: Encode>(
    published: Store,
    previous_root: Option<Seq<u8>>,
    pairs: Seq<(Seq<u8>, V::V)>,
    max_depth: nat,
    root: Seq<u8>,
    after: Store,
)
    requires
        stored::<H, V>(published, pairs),
        insert_yields::<H, V>(
            published,
            published,
            previous_root,
            pairs,
            max_depth,
            Ok::<(Seq<u8>, Store), Exception>((root, after)),
        ),
    ensures
        forall|a: Seq<u8>| #[trigger]
            after.contains_key(a) && !(after[a].kind is Branch) ==> published.contains_key(a) && (
            after[a] == published[a] || after[a] == bumped(published[a])),
        forall|a: Seq<u8>| #[trigger]
            is_new_node::<H, V>(pairs, a) ==> after.contains_key(a) && (after[a].kind is Branch
                || after[a] == bumped(published[a])),
        forall|a: Seq<u8>| #[trigger] published.contains_key(a) ==> after.contains_key(a),
{
    let outcome = Ok::<(Seq<u8>, Store), Exception>((root, after));
    lemma_leaves_are_counted::<H, V>(published, published, pairs);
    let (locations, with_leaves) = leaves_run::<H, V>(published, published, pairs)->Ok_0;
    let fresh = new_refs(pair_keys(pairs), locations);
    let (given, base) = match previous_root {
        None => (fresh, with_leaves),
        Some(start) => {
            let (kept, counted) = walk(
                published,
                with_leaves,
                start,
                pair_keys(pairs),
                locations,
                max_depth,
            )->Ok_0;
            lemma_walk_run_counts_up(
                published,
                with_leaves,
                seq![
                    CellModel {
                        location: start,
                        keys: pair_keys(pairs),
                        node: published[start],
                        depth: 0,
                    },
                ],
                Seq::empty(),
                pair_keys(pairs),
                locations,
                max_depth,
                kept,
                counted,
            );
            (fresh + kept, counted)
        },
    };
    assert(plant_yields::<H>(base, given, outcome));
    let sorted_refs = choose|sorted_refs: Seq<RefModel>| #[trigger]
        key_sorted_perm(sorted_refs, given) && planted::<H>(base, sorted_refs) == outcome;
    if sorted_refs.len() != 1 {
        lemma_built_adds_branches::<H>(
            base,
            sorted_refs,
            split_bits(sorted_refs),
            merge_order(split_bits(sorted_refs)),
        );
    }
    assert(counted_from(published, with_leaves, base));
    assert forall|a: Seq<u8>| #[trigger]
        after.contains_key(a) && !(after[a].kind is Branch) implies published.contains_key(a) && (
    after[a] == published[a] || after[a] == bumped(published[a])) by {
        assert(base.contains_key(a) && base[a] == after[a]);
    }
    assert forall|a: Seq<u8>| #[trigger] is_new_node::<H, V>(pairs, a) implies after.contains_key(
        a,
    ) && (after[a].kind is Branch || after[a] == bumped(published[a])) by {
        assert(with_leaves.contains_key(a) && with_leaves[a] == bumped(published[a]));
        assert(base.contains_key(a));
        lemma_kept_by_walk_and_build::<H>(published, with_leaves, base, sorted_refs, after, a);
    }
    assert forall|a: Seq<u8>| #[trigger] published.contains_key(a) implies after.contains_key(
        a,
    ) by {
        assert(with_leaves.contains_key(a));
        assert(base.contains_key(a));
        lemma_kept_by_walk_and_build::<H>(published, with_leaves, base, sorted_refs, after, a);
    }
}

/// A node that the walk and the building of the tree find pending stays
/// in the store; where no branch takes its place, it stays as it is or
/// is the published node with one more reference.
proof fn lemma_kept_by_walk_and_build<H: Hasher>(
    published: Store,
    with_leaves: Store,
    base: Store,
    sorted_refs: Seq<RefModel>,
    after: Store,
    a: Seq<u8>,
)
    requires
        with_leaves.contains_key(a),
        counted_from(published, with_leaves, base),
        base.contains_key(a),
        planted::<H>(base, sorted_refs) == Ok::<(Seq<u8>, Store), Exception>(
            (planted::<H>(base, sorted_refs)->Ok_0.0, after),
        ),
    ensures
        after.contains_key(a),
        !(after[a].kind is Branch) ==> after[a] == with_leaves[a] || after[a] == bumped(
            published[a],
        ),
{
    if sorted_refs.len() != 1 {
        lemma_built_keeps::<H>(
            base,
            sorted_refs,
            split_bits(sorted_refs),
            merge_order(split_bits(sorted_refs)),
            a,
        );
    }
}

/// The building of a tree drops no node; where no branch takes the place
/// of a node, the node stays as it is.
proof fn lemma_built_keeps<H: Hasher>(
    store: Store,
    refs: Seq<RefModel>,
    splits: Seq<u8>,
    order: Seq<int>,
    a: Seq<u8>,
)
    requires
        store.contains_key(a),
    ensures
        built::<H>(store, refs, splits, order).contains_key(a),
        !(built::<H>(store, refs, splits, order)[a].kind is Branch) ==> built::<H>(
            store,
            refs,
            splits,
            order,
        )[a] == store[a],
    decreases order.len(),
{
    if order.len() > 0 {
        lemma_built_keeps::<H>(store, refs, splits, order.drop_last(), a);
    }
}

} // verus!
