//! The tree that is built over new leaves and subtrees taken over from
//! an earlier tree is well-formed.

use vstd::prelude::*;

use crate::constants::KEY_LEN;
use crate::model::merge::lemma_merged_key;
use crate::model::trie::{
    before, branch_at, last_pair, lemma_last_pair, lemma_run_high_is, lemma_run_low_is, merged,
    ref_keys,
};
use crate::theorems::bits::{lemma_prefix_shorter, lemma_prefix_transitive};
use crate::theorems::branching::{lemma_run_sides, lemma_top_parts_first, parting};
use crate::theorems::frames::{lemma_sound_height, lemma_sound_moves, node_key, tall, with_height};
use crate::theorems::planting::{branches_present, closed, joined_inside};
use crate::theorems::reading::{
    agrees, find, lemma_side_in_region, option_of, side_region, sound, under, Region,
};
use crate::traits::{Decode, Hasher};
use crate::tree::tree_node::Store;
use crate::utils::tree_ref::RefModel;
use crate::utils::tree_utils::{bit_of, same_prefix};

verus! {

/// The whole key space, for trees of any height.
pub open spec fn whole(key: Seq<u8>) -> Region {
    Region { key, split: -1, side: false, height: 256 }
}

/// The number of bits of its key with which all keys below the subtree
/// agree.
pub open spec fn width_of(store: Store, graft: RefModel) -> int {
    node_key(store, graft.location).1
}

/// The subtree `graft` can be joined into a tree that holds `target`:
/// it is well-formed, it carries the key of its node, and it holds what
/// `target` holds under the keys that agree with its key as far as the
/// keys below its node do.
pub open spec fn graft_fits<V: Decode>(store: Store, graft: RefModel, target: Map<Seq<u8>, V::V>) -> bool {
    &&& graft.key == node_key(store, graft.location).0
    &&& 0 <= width_of(store, graft) <= 256
    &&& sound::<V>(store, graft.location, whole(graft.key))
    &&& forall|q: Seq<u8>|
        q.len() == KEY_LEN && same_prefix(q, graft.key, width_of(store, graft)) ==> #[trigger] find::<
            V,
        >(store, graft.location, q, 256) == option_of(target, q)
}

/// The key `q` lies below one of the subtrees `a` to `e`.
pub open spec fn below_some(store: Store, refs: Seq<RefModel>, q: Seq<u8>, a: int, e: int) -> bool {
    exists|x: int| a <= x <= e && same_prefix(q, (#[trigger] refs[x]).key, width_of(store, refs[x]))
}

/// Each pair parts before the keys below its two subtrees do.
pub open spec fn pairs_part_first(store: Store, refs: Seq<RefModel>, splits: Seq<u8>) -> bool {
    forall|p: int|
        0 <= p < splits.len() ==> (#[trigger] splits[p]) < width_of(store, refs[p]) && splits[p]
            < width_of(store, refs[p + 1])
}

/// The tree over the subtrees `a` to `e` is well-formed for a region
/// that holds the keys of these subtrees, and it holds what `target`
/// holds in that region.
pub proof fn lemma_grafts_are_sound<H: Hasher, V: Decode>(
    store: Store,
    keys: Seq<Seq<u8>>,
    refs: Seq<RefModel>,
    splits: Seq<u8>,
    target: Map<Seq<u8>, V::V>,
    a: int,
    e: int,
    r: Region,
)
    requires
        parting(keys, splits),
        refs.len() == splits.len() + 1,
        ref_keys(refs) == keys,
        forall|x: int| 0 <= x < refs.len() ==> graft_fits::<V>(store, #[trigger] refs[x], target),
        pairs_part_first(store, refs, splits),
        branches_present::<H>(store, refs, splits),
        0 <= a <= e < refs.len(),
        closed(splits, a, e),
        forall|x: int| a <= x <= e ==> under(#[trigger] keys[x], r),
        forall|x: int| a <= x <= e ==> r.split < width_of(store, #[trigger] refs[x]),
        forall|q: int| a <= q < e ==> r.split < #[trigger] splits[q],
        tall(r.split, r.height),
        forall|q: Seq<u8>|
            target.contains_key(q) && q.len() == KEY_LEN && #[trigger] under(q, r) ==> below_some(
                store,
                refs,
                q,
                a,
                e,
            ),
    ensures
        sound::<V>(store, merged::<H>(refs, splits, a, e).location, r),
        agrees::<V>(store, merged::<H>(refs, splits, a, e).location, r, target),
    decreases e - a,
{
    let location = merged::<H>(refs, splits, a, e).location;
    if a >= e {
        let graft = refs[a];
        assert(graft_fits::<V>(store, graft, target));
        assert(graft.key == keys[a]);
        let width = width_of(store, graft);
        let to = Region { key: r.key, split: r.split, side: r.side, height: 256 };
        lemma_sound_moves::<V>(store, location, whole(graft.key), to);
        lemma_sound_height::<V>(store, location, to, r.height);
        assert(with_height(to, r.height) == r);
        assert forall|q: Seq<u8>| q.len() == KEY_LEN && under(q, r) implies #[trigger] find::<V>(
            store,
            location,
            q,
            r.height,
        ) == option_of(target, q) by {
            assert(find::<V>(store, location, q, r.height) == find::<V>(store, location, q, 256));
            if same_prefix(q, graft.key, width) {
                assert(find::<V>(store, location, q, 256) == option_of(target, q));
            } else {
                if target.contains_key(q) {
                    assert(below_some(store, refs, q, a, e));
                }
            }
        }
    } else {
        let p = last_pair(splits, a, e);
        lemma_last_pair(splits, a, e);
        let split = splits[p];
        let left = merged::<H>(refs, splits, a, p);
        let right = merged::<H>(refs, splits, p + 1, e);
        assert forall|q: int| a <= q < p implies before(splits, q, p) by {}
        assert(joined_inside(splits, p, a, e));
        lemma_run_low_is(splits, p, a);
        assert forall|q: int| p + 1 <= q < e implies before(splits, q, p) by {}
        lemma_run_high_is(splits, p, e);
        lemma_merged_key::<H>(refs, splits, a, p);
        assert(refs[a].key == keys[a]);
        assert(location == branch_at::<H>(refs, splits, p).0);
        assert(store[location] == branch_at::<H>(refs, splits, p).1);
        lemma_top_parts_first(keys, splits, a, e, p);
        let zero_region = side_region(keys[a], split, false, r.height);
        let one_region = side_region(keys[a], split, true, r.height);
        assert(under(keys[a], r));
        assert forall|x: int| a <= x <= e implies split < width_of(store, #[trigger] refs[x]) by {
            if x < e {
                assert(splits[x] < width_of(store, refs[x]));
                if x != p {
                    assert(splits[x] > splits[p]);
                }
            } else {
                assert(splits[x - 1] < width_of(store, refs[x - 1 + 1]));
                if x - 1 != p {
                    assert(splits[x - 1] > splits[p]);
                }
            }
        }
        assert forall|x: int| a <= x <= p implies under(#[trigger] keys[x], zero_region) by {
            lemma_run_sides(keys, splits, a, e, p, x);
        }
        assert forall|x: int| p + 1 <= x <= e implies under(#[trigger] keys[x], one_region) by {
            lemma_run_sides(keys, splits, a, e, p, x);
        }
        assert forall|q: int| a <= q < p implies split < #[trigger] splits[q] by {}
        assert forall|q: int| p + 1 <= q < e implies split < #[trigger] splits[q] by {}
        assert forall|q: int| a <= q < p implies #[trigger] joined_inside(splits, q, a, p) by {
            assert(joined_inside(splits, q, a, e));
            assert(before(splits, q, p));
        }
        assert forall|q: int| p + 1 <= q < e implies #[trigger] joined_inside(
            splits,
            q,
            p + 1,
            e,
        ) by {
            assert(joined_inside(splits, q, a, e));
            assert(before(splits, q, p));
        }
        assert forall|q: Seq<u8>|
            target.contains_key(q) && q.len() == KEY_LEN && #[trigger] under(
                q,
                zero_region,
            ) implies below_some(store, refs, q, a, p) by {
            lemma_side_in_region(q, keys[a], split, false, r);
            assert(below_some(store, refs, q, a, e));
            let x = choose|x: int|
                a <= x <= e && same_prefix(q, (#[trigger] refs[x]).key, width_of(store, refs[x]));
            assert(refs[x].key == keys[x]);
            lemma_run_sides(keys, splits, a, e, p, x);
            assert(bit_of(q, split as int) == bit_of(keys[x], split as int));
        }
        assert forall|q: Seq<u8>|
            target.contains_key(q) && q.len() == KEY_LEN && #[trigger] under(
                q,
                one_region,
            ) implies below_some(store, refs, q, p + 1, e) by {
            lemma_side_in_region(q, keys[a], split, true, r);
            assert(below_some(store, refs, q, a, e));
            let x = choose|x: int|
                a <= x <= e && same_prefix(q, (#[trigger] refs[x]).key, width_of(store, refs[x]));
            assert(refs[x].key == keys[x]);
            lemma_run_sides(keys, splits, a, e, p, x);
            assert(bit_of(q, split as int) == bit_of(keys[x], split as int));
        }
        lemma_grafts_are_sound::<H, V>(store, keys, refs, splits, target, a, p, zero_region);
        lemma_grafts_are_sound::<H, V>(store, keys, refs, splits, target, p + 1, e, one_region);
        assert(sound::<V>(store, location, r));
        assert forall|q: Seq<u8>| q.len() == KEY_LEN && under(q, r) implies #[trigger] find::<V>(
            store,
            location,
            q,
            r.height,
        ) == option_of(target, q) by {
            if !same_prefix(q, keys[a], split as int) {
                if target.contains_key(q) {
                    assert(below_some(store, refs, q, a, e));
                    let x = choose|x: int|
                        a <= x <= e && same_prefix(
                            q,
                            (#[trigger] refs[x]).key,
                            width_of(store, refs[x]),
                        );
                    assert(refs[x].key == keys[x]);
                    lemma_run_sides(keys, splits, a, e, p, x);
                    lemma_prefix_shorter(q, keys[x], width_of(store, refs[x]), split as int);
                    lemma_prefix_transitive(q, keys[x], keys[a], split as int);
                }
            } else if bit_of(q, split as int) {
                assert(under(q, one_region));
                assert(find::<V>(store, right.location, q, one_region.height) == option_of(
                    target,
                    q,
                ));
            } else {
                assert(under(q, zero_region));
                assert(find::<V>(store, left.location, q, zero_region.height) == option_of(
                    target,
                    q,
                ));
            }
        }
    }
}

} // verus!
