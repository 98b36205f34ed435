//! When an insertion succeeds.

use vstd::prelude::*;

use crate::constants::KEY_LEN;
use crate::model::insert::{insert_yields, new_refs, plant_yields};
use crate::model::leaves::leaves_run;
use crate::model::trie::{has_twins, key_sorted_perm, planted, ref_keys, twins_at};
use crate::model::walk::{lemma_walk_step_weight, walk, walk_run, walk_step};
use crate::theorems::duplicates::lemma_rearranged_twins;
use crate::theorems::keeping::{
    batch_is_new, disjoint, kept_fits, lemma_last_index_found, lemma_walk_step_keeps, same_records,
    walk_cell_fits, walk_queue_fits,
};
use crate::theorems::reading::{agrees, all_keys, find, option_of, side_region, sound, Region};
use crate::theorems::round_trip::{leaves_apart, lemma_sorted_perm_is_given};
use crate::theorems::survival::{ground, is_new_node, lemma_ground, lemma_leaves_frame, lemma_sound_key};
use crate::traits::{Decode, Encode, Exception, Hasher};
use crate::tree::tree_node::{NodeKind, Store};
use crate::utils::key_order::{key_lt, lemma_key_lt_irreflexive, pair_keys, strictly_sorted};
use crate::utils::key_order::last_index_of;
use crate::utils::tree_cell::{lemma_queue_weight_add, queue_weight, CellModel};
use crate::utils::tree_ref::RefModel;
use crate::utils::tree_utils::same_prefix;

verus! {

/// The insertion of pairs under no previous root succeeds where the keys
/// of the pairs are sorted without repeats and the values can be encoded.
pub proof fn lemma_first_insertion_succeeds<H: Hasher, V: Encode>(
    published: Store,
    store: Store,
    pairs: Seq<(Seq<u8>, V::V)>,
    max_depth: nat,
    outcome: Result<(Seq<u8>, Store), Exception>,
)
    requires
        pairs.len() > 0,
        strictly_sorted(pair_keys(pairs)),
        forall|i: int| 0 <= i < pairs.len() ==> V::encoding((#[trigger] pairs[i]).1) is Some,
        insert_yields::<H, V>(published, store, None, pairs, max_depth, outcome),
    ensures
        outcome is Ok,
{
    let keys = pair_keys(pairs);
    lemma_leaves_frame::<H, V>(published, store, pairs);
    crate::model::leaves::lemma_leaves_run_len::<H, V>(published, store, pairs);
    let (locations, with_leaves) = leaves_run::<H, V>(published, store, pairs)->Ok_0;
    let fresh = new_refs(keys, locations);
    assert(ref_keys(fresh) =~= keys);
    let sorted_refs = choose|sorted_refs: Seq<RefModel>| #[trigger]
        key_sorted_perm(sorted_refs, fresh) && planted::<H>(with_leaves, sorted_refs) == outcome;
    lemma_sorted_perm_is_given(fresh, sorted_refs);
    if has_twins(fresh) {
        let i = choose|i: int| twins_at(fresh, i);
        assert(key_lt(keys[i], keys[i + 1]));
        lemma_key_lt_irreflexive(keys[i]);
    }
}

/// A step of the walk at a cell that fits its region and is not too
/// deep for the height of its region does not fail.
pub proof fn lemma_walk_step_succeeds<V: Decode>(
    store: Store,
    now: Store,
    cell: CellModel,
    r: Region,
    old: Map<Seq<u8>, V::V>,
    new_keys: Seq<Seq<u8>>,
    locations: Seq<Seq<u8>>,
    max_depth: nat,
)
    requires
        walk_cell_fits::<V>(store, cell, r, old, new_keys),
        batch_is_new(old, new_keys),
        cell.depth + r.height <= max_depth,
    ensures
        walk_step(store, now, cell, new_keys, locations, max_depth).error is None,
{
    assert(sound::<V>(store, cell.location, r));
    match cell.node.kind {
        NodeKind::Data { value } => {},
        NodeKind::Leaf { key, data } => {
            assert(find::<V>(store, cell.location, key, r.height) == option_of(old, key));
            lemma_last_index_found(new_keys, key);
            let place = last_index_of(new_keys, key);
            if place >= 0 {
                assert(!old.contains_key(new_keys[place]));
            }
        },
        NodeKind::Branch { count, zero, one, split_index, key } => {
            let zero_region = side_region(key, split_index, false, r.height);
            let one_region = side_region(key, split_index, true, r.height);
            assert(sound::<V>(store, zero, zero_region));
            assert(sound::<V>(store, one, one_region));
            assert(store.contains_key(one) && store.contains_key(zero));
        },
    }
}

/// The walk through a well-formed tree that is not higher than the
/// maximum depth, for a batch that is new to the tree, does not fail.
pub proof fn lemma_walk_run_succeeds<V: Decode>(
    store: Store,
    now: Store,
    queue: Seq<CellModel>,
    regions: Seq<Region>,
    emitted: Seq<RefModel>,
    old: Map<Seq<u8>, V::V>,
    new_keys: Seq<Seq<u8>>,
    locations: Seq<Seq<u8>>,
    max_depth: nat,
)
    requires
        walk_queue_fits::<V>(store, queue, regions, old, new_keys),
        forall|c: int|
            0 <= c < queue.len() ==> (#[trigger] queue[c]).depth + regions[c].height <= max_depth,
        batch_is_new(old, new_keys),
    ensures
        walk_run(store, now, queue, emitted, new_keys, locations, max_depth) is Ok,
    decreases queue_weight(queue, max_depth),
{
    if queue.len() != 0 {
        let cell = queue[0];
        let r = regions[0];
        lemma_walk_step_succeeds::<V>(store, now, cell, r, old, new_keys, locations, max_depth);
        let step = walk_step(store, now, cell, new_keys, locations, max_depth);
        let pushed = lemma_walk_step_keeps::<V>(
            store,
            now,
            cell,
            r,
            old,
            new_keys,
            locations,
            max_depth,
        );
        lemma_walk_step_weight(store, now, cell, new_keys, locations, max_depth);
        lemma_queue_weight_add(queue.drop_first(), step.pushed, max_depth);
        let next = queue.drop_first() + step.pushed;
        let next_regions = regions.drop_first() + pushed.pushed;
        assert forall|c: int| 0 <= c < next.len() implies walk_cell_fits::<V>(
            store,
            #[trigger] next[c],
            next_regions[c],
            old,
            new_keys,
        ) && next[c].depth + next_regions[c].height <= max_depth by {
            if c < queue.len() - 1 {
                assert(next[c] == queue[c + 1]);
                assert(next_regions[c] == regions[c + 1]);
            } else {
                let at = c - (queue.len() - 1);
                assert(next[c] == step.pushed[at]);
                assert(next_regions[c] == pushed.pushed[at]);
            }
        }
        lemma_walk_run_succeeds::<V>(
            store,
            step.store,
            next,
            next_regions,
            emitted + step.emitted,
            old,
            new_keys,
            locations,
            max_depth,
        );
    }
}

/// The new leaves and the subtrees taken over carry keys of their own.
pub proof fn lemma_given_keys_differ<H: Hasher, V: Encode + Decode>(
    store: Store,
    pairs: Seq<(Seq<u8>, V::V)>,
    locations: Seq<Seq<u8>>,
    kept: Seq<RefModel>,
    regions: Seq<Region>,
    old: Map<Seq<u8>, V::V>,
    a: int,
    b: int,
)
    requires
        ground::<H, V>(store, pairs, locations, kept, regions, old),
        0 <= a < b < pairs.len() + kept.len(),
    ensures
        (new_refs(pair_keys(pairs), locations) + kept)[a].key != (new_refs(
            pair_keys(pairs),
            locations,
        ) + kept)[b].key,
{
    let keys = pair_keys(pairs);
    let fresh = new_refs(keys, locations);
    let given = fresh + kept;
    let n = fresh.len() as int;
    if b < n {
        assert(given[a] == fresh[a] && given[b] == fresh[b]);
        assert(key_lt(keys[a], keys[b]));
        lemma_key_lt_irreflexive(keys[a]);
    } else if a < n {
        assert(given[a] == fresh[a] && given[b] == kept[b - n]);
        assert(kept_fits::<V>(store, kept[b - n], regions[b - n], old, keys));
        assert(!same_prefix(
            keys[a],
            kept[b - n].key,
            crate::theorems::frames::node_key(store, kept[b - n].location).1,
        ));
    } else {
        assert(given[a] == kept[a - n] && given[b] == kept[b - n]);
        assert(kept_fits::<V>(store, kept[a - n], regions[a - n], old, keys));
        assert(kept_fits::<V>(store, kept[b - n], regions[b - n], old, keys));
        lemma_sound_key::<V>(store, kept[a - n].location, regions[a - n]);
        lemma_sound_key::<V>(store, kept[b - n].location, regions[b - n]);
        assert(disjoint(regions[a - n], regions[b - n]));
    }
}

/// The insertion of pairs on a well-formed tree succeeds.
///
/// This holds of an earlier tree that is published, well-formed, not
/// higher than the maximum depth, and holds `old`; of pairs that are new
/// to it, with keys of full length, sorted without repeats, whose values
/// can be encoded; and of new leaves and data nodes with addresses of
/// their own.
pub proof fn lemma_next_insertion_succeeds<H: Hasher, V: Encode + Decode>(
    published: Store,
    pending: Store,
    root: Seq<u8>,
    old_height: nat,
    old: Map<Seq<u8>, V::V>,
    pairs: Seq<(Seq<u8>, V::V)>,
    max_depth: nat,
    outcome: Result<(Seq<u8>, Store), Exception>,
)
    requires
        sound::<V>(published, root, all_keys(old_height)),
        agrees::<V>(published, root, all_keys(old_height), old),
        old_height <= max_depth,
        pairs.len() > 0,
        strictly_sorted(pair_keys(pairs)),
        forall|i: int| 0 <= i < pairs.len() ==> V::encoding((#[trigger] pairs[i]).1) is Some,
        batch_is_new(old, pair_keys(pairs)),
        leaves_apart::<H, V>(pairs),
        insert_yields::<H, V>(published, pending, Some(root), pairs, max_depth, outcome),
    ensures
        outcome is Ok,
{
    let keys = pair_keys(pairs);
    let start = all_keys(old_height);
    lemma_leaves_frame::<H, V>(published, pending, pairs);
    let (locations, with_leaves) = leaves_run::<H, V>(published, pending, pairs)->Ok_0;
    assert(crate::utils::key_order::sorted(keys)) by {
        assert forall|i: int, j: int| 0 <= i < j < keys.len() implies crate::utils::key_order::key_le(
            #[trigger] keys[i],
            #[trigger] keys[j],
        ) by {
            assert(key_lt(keys[i], keys[j]));
        }
    }
    let first_cell = CellModel { location: root, keys, node: published[root], depth: 0 };
    assert(walk_cell_fits::<V>(published, first_cell, start, old, keys)) by {
        assert forall|i: int| 0 <= i < keys.len() implies (#[trigger] keys[i]).len() == KEY_LEN
            && keys.contains(keys[i]) && crate::theorems::reading::under(keys[i], start) by {}
    }
    lemma_walk_run_succeeds::<V>(
        published,
        with_leaves,
        seq![first_cell],
        seq![start],
        Seq::empty(),
        old,
        keys,
        locations,
        max_depth,
    );
    let walked = walk(published, with_leaves, root, keys, locations, max_depth);
    assert(walked is Ok);
    let (kept, counted) = walked->Ok_0;
    let regions = lemma_ground::<H, V>(
        published,
        pending,
        root,
        start,
        old,
        pairs,
        max_depth,
        kept,
        counted,
    );
    let fresh = new_refs(keys, locations);
    let given = fresh + kept;
    assert(plant_yields::<H>(counted, given, outcome));
    let sorted_refs = choose|sorted_refs: Seq<RefModel>| #[trigger]
        key_sorted_perm(sorted_refs, given) && planted::<H>(counted, sorted_refs) == outcome;
    if has_twins(sorted_refs) {
        let i = choose|i: int| twins_at(sorted_refs, i);
        let (a, b) = lemma_rearranged_twins(sorted_refs, given, |r: RefModel| r.key, i, i + 1);
        lemma_given_keys_differ::<H, V>(published, pairs, locations, kept, regions, old, a, b);
    }
}

} // verus!
