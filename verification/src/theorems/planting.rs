//! The tree that is built over new leaves is well-formed.

use vstd::prelude::*;

use crate::constants::KEY_LEN;

use crate::model::merge::lemma_merged_key;
use crate::model::trie::{
    before, branch_at, built, last_pair, lemma_last_pair, lemma_pairs_at, lemma_run_high_is,
    lemma_run_low_is, merged, order_down_to, pairs_at, ref_keys,
};

use crate::theorems::branching::{lemma_run_sides, lemma_top_parts_first, parting};
use crate::theorems::reading::{
    agrees, find, lemma_side_in_region, option_of, side_region, sound, under, Region,
};
use crate::traits::{Decode, Hasher};
use crate::tree::tree_node::{NodeKind, Store};
use crate::utils::tree_ref::RefModel;

verus! {

/// The number of branches on the longest way from the root of the tree
/// over the subtrees `a` to `e` down to one of these subtrees.
pub open spec fn run_height(splits: Seq<u8>, a: int, e: int) -> nat
    decreases e - a,
    via run_height_decreases
{
    if a >= e {
        0
    } else {
        let p = last_pair(splits, a, e);
        let left = run_height(splits, a, p);
        let right = run_height(splits, p + 1, e);
        if left >= right {
            left + 1
        } else {
            right + 1
        }
    }
}

#[via_fn]
proof fn run_height_decreases(splits: Seq<u8>, a: int, e: int) {
    if a < e {
        lemma_last_pair(splits, a, e);
    }
}

/// The pairs of the run from `a` to `e` are joined before the pair just
/// before the run and before the pair just after it.
pub open spec fn closed(splits: Seq<u8>, a: int, e: int) -> bool {
    forall|q: int| a <= q < e ==> #[trigger] joined_inside(splits, q, a, e)
}

/// Pair `q` is joined before the pair just before `a` and before the
/// pair just after `e`.
pub open spec fn joined_inside(splits: Seq<u8>, q: int, a: int, e: int) -> bool {
    &&& a == 0 || before(splits, q, a - 1)
    &&& e == splits.len() || before(splits, q, e)
}

/// The store holds the leaves that `refs` stand for: the leaf of
/// `refs[x]` carries the key `keys[x]`, and its data node decodes to
/// what `target` holds under that key.
pub open spec fn leaves_present<V: Decode>(
    store: Store,
    keys: Seq<Seq<u8>>,
    refs: Seq<RefModel>,
    target: Map<Seq<u8>, V::V>,
) -> bool {
    forall|x: int|
        0 <= x < refs.len() ==> {
            &&& store.contains_key((#[trigger] refs[x]).location)
            &&& store[refs[x].location].kind matches NodeKind::Leaf { key, data }
            &&& key == keys[x]
            &&& store.contains_key(data)
            &&& store[data].kind matches NodeKind::Data { value }
            &&& target.contains_key(keys[x])
            &&& V::decoding(value) == Some(target[keys[x]])
        }
}

/// The store holds the branch of each pair at the address of the branch.
pub open spec fn branches_present<H: Hasher>(store: Store, refs: Seq<RefModel>, splits: Seq<u8>) -> bool {
    forall|p: int|
        0 <= p < splits.len() ==> store.contains_key(#[trigger] branch_at::<H>(refs, splits, p).0)
            && store[branch_at::<H>(refs, splits, p).0] == branch_at::<H>(refs, splits, p).1
}

/// `target` holds values under the keys of `keys` and under no others.
pub open spec fn holds_keys<T>(target: Map<Seq<u8>, T>, keys: Seq<Seq<u8>>) -> bool {
    forall|q: Seq<u8>| #[trigger] target.contains_key(q) <==> keys.contains(q)
}

/// The tree over the leaves `a` to `e` is well-formed for a region that
/// holds just the keys of these leaves, and it holds what `target` holds
/// in that region.
pub proof fn lemma_run_is_sound<H: Hasher, V: Decode>(
    store: Store,
    keys: Seq<Seq<u8>>,
    refs: Seq<RefModel>,
    splits: Seq<u8>,
    target: Map<Seq<u8>, V::V>,
    a: int,
    e: int,
    r: Region,
)
    requires
        parting(keys, splits),
        refs.len() == splits.len() + 1,
        ref_keys(refs) == keys,
        leaves_present::<V>(store, keys, refs, target),
        branches_present::<H>(store, refs, splits),
        holds_keys(target, keys),
        0 <= a <= e < refs.len(),
        closed(splits, a, e),
        forall|x: int| 0 <= x < keys.len() ==> (a <= x <= e <==> under(#[trigger] keys[x], r)),
        forall|q: int| a <= q < e ==> r.split < #[trigger] splits[q],
        r.height >= run_height(splits, a, e),
    ensures
        sound::<V>(store, merged::<H>(refs, splits, a, e).location, r),
        agrees::<V>(store, merged::<H>(refs, splits, a, e).location, r, target),
    decreases e - a,
{
    let location = merged::<H>(refs, splits, a, e).location;
    if a >= e {
        assert(refs[a].key == keys[a]);
        assert forall|q: Seq<u8>| q.len() == KEY_LEN && under(q, r) implies #[trigger] find::<V>(
            store,
            location,
            q,
            r.height,
        ) == option_of(target, q) by {
            if q != keys[a] && target.contains_key(q) {
                assert(keys.contains(q));
                let y = choose|y: int| 0 <= y < keys.len() && keys[y] == q;
                assert(under(keys[y], r));
            }
        }
    } else {
        let p = last_pair(splits, a, e);
        lemma_last_pair(splits, a, e);
        let split = splits[p];
        let left = merged::<H>(refs, splits, a, p);
        let right = merged::<H>(refs, splits, p + 1, e);
        assert forall|q: int| a <= q < p implies before(splits, q, p) by {}
        assert(joined_inside(splits, p, a, e));
        lemma_run_low_is(splits, p, a);
        assert forall|q: int| p + 1 <= q < e implies before(splits, q, p) by {}
        lemma_run_high_is(splits, p, e);
        lemma_merged_key::<H>(refs, splits, a, p);
        assert(refs[a].key == keys[a]);
        assert(location == branch_at::<H>(refs, splits, p).0);
        assert(store[location] == branch_at::<H>(refs, splits, p).1);
        lemma_top_parts_first(keys, splits, a, e, p);
        let zero_region = side_region(keys[a], split, false, r.height);
        let one_region = side_region(keys[a], split, true, r.height);
        assert(under(keys[a], r));
        assert forall|x: int| 0 <= x < keys.len() implies (a <= x <= p <==> under(
            #[trigger] keys[x],
            zero_region,
        )) by {
            if a <= x <= e {
                lemma_run_sides(keys, splits, a, e, p, x);
            } else if under(keys[x], zero_region) {
                lemma_side_in_region(keys[x], keys[a], split, false, r);
            }
        }
        assert forall|x: int| 0 <= x < keys.len() implies (p + 1 <= x <= e <==> under(
            #[trigger] keys[x],
            one_region,
        )) by {
            if a <= x <= e {
                lemma_run_sides(keys, splits, a, e, p, x);
            } else if under(keys[x], one_region) {
                lemma_side_in_region(keys[x], keys[a], split, true, r);
            }
        }
        assert forall|q: int| a <= q < p implies split < #[trigger] splits[q] by {}
        assert forall|q: int| p + 1 <= q < e implies split < #[trigger] splits[q] by {}
        assert forall|q: int| a <= q < p implies #[trigger] joined_inside(splits, q, a, p) by {
            assert(joined_inside(splits, q, a, e));
            assert(before(splits, q, p));
        }
        assert forall|q: int| p + 1 <= q < e implies #[trigger] joined_inside(
            splits,
            q,
            p + 1,
            e,
        ) by {
            assert(joined_inside(splits, q, a, e));
            assert(before(splits, q, p));
        }
        lemma_run_is_sound::<H, V>(store, keys, refs, splits, target, a, p, zero_region);
        lemma_run_is_sound::<H, V>(store, keys, refs, splits, target, p + 1, e, one_region);
        assert(sound::<V>(store, location, r));
        assert forall|q: Seq<u8>| q.len() == KEY_LEN && under(q, r) implies #[trigger] find::<V>(
            store,
            location,
            q,
            r.height,
        ) == option_of(target, q) by {
            if !crate::utils::tree_utils::same_prefix(q, keys[a], split as int) {
                if target.contains_key(q) {
                    assert(keys.contains(q));
                    let y = choose|y: int| 0 <= y < keys.len() && keys[y] == q;
                    assert(under(keys[y], r));
                    lemma_run_sides(keys, splits, a, e, p, y);
                }
            } else if crate::utils::tree_utils::bit_of(q, split as int) {
                assert(under(q, one_region));
                assert(find::<V>(store, right.location, q, one_region.height) == option_of(
                    target,
                    q,
                ));
            } else {
                assert(under(q, zero_region));
                assert(find::<V>(store, left.location, q, zero_region.height) == option_of(
                    target,
                    q,
                ));
            }
        }
    }
}

/// `a` is the address of the branch of a pair.
pub open spec fn is_branch_address<H: Hasher>(refs: Seq<RefModel>, splits: Seq<u8>, a: Seq<u8>) -> bool {
    exists|p: int| 0 <= p < splits.len() && (#[trigger] branch_at::<H>(refs, splits, p)).0 == a
}

/// The building of a tree leaves the store as it is but at the addresses
/// of branches, and where no two pairs have branches at one address, it
/// leaves the branch of each pair of `order` at its address.
pub proof fn lemma_branches_written<H: Hasher>(
    store: Store,
    refs: Seq<RefModel>,
    splits: Seq<u8>,
    order: Seq<int>,
)
    requires
        forall|p: int, q: int|
            0 <= p < splits.len() && 0 <= q < splits.len() && p != q ==> (#[trigger] branch_at::<H>(
                refs,
                splits,
                p,
            )).0 != (#[trigger] branch_at::<H>(refs, splits, q)).0,
        forall|j: int| 0 <= j < order.len() ==> 0 <= #[trigger] order[j] < splits.len(),
    ensures
        forall|j: int|
            0 <= j < order.len() ==> built::<H>(store, refs, splits, order).contains_key(
                branch_at::<H>(refs, splits, #[trigger] order[j]).0,
            ) && built::<H>(store, refs, splits, order)[branch_at::<H>(refs, splits, order[j]).0]
                == branch_at::<H>(refs, splits, order[j]).1,
        forall|a: Seq<u8>|
            !is_branch_address::<H>(refs, splits, a) ==> (#[trigger] built::<H>(
                store,
                refs,
                splits,
                order,
            ).contains_key(a) <==> store.contains_key(a)) && (store.contains_key(a) ==> built::<H>(
                store,
                refs,
                splits,
                order,
            )[a] == store[a]),
    decreases order.len(),
{
    if order.len() > 0 {
        let front = order.drop_last();
        assert forall|j: int| 0 <= j < front.len() implies 0 <= #[trigger] front[j]
            < splits.len() by {
            assert(front[j] == order[j]);
        }
        lemma_branches_written::<H>(store, refs, splits, front);
        let before_last = built::<H>(store, refs, splits, front);
        let after = built::<H>(store, refs, splits, order);
        let last = order[order.len() - 1];
        assert(order.last() == last);
        assert forall|j: int| 0 <= j < order.len() implies after.contains_key(
            branch_at::<H>(refs, splits, #[trigger] order[j]).0,
        ) && after[branch_at::<H>(refs, splits, order[j]).0] == branch_at::<H>(
            refs,
            splits,
            order[j],
        ).1 by {
            if j < front.len() {
                assert(front[j] == order[j]);
            }
        }
        assert forall|a: Seq<u8>| !is_branch_address::<H>(refs, splits, a) implies (
        #[trigger] after.contains_key(a) <==> store.contains_key(a)) && (store.contains_key(a)
            ==> after[a] == store[a]) by {
            assert(branch_at::<H>(refs, splits, last).0 != a);
            assert(before_last.contains_key(a) <==> store.contains_key(a));
        }
    }
}

/// Each pair is among the pairs that part at its split bit or deeper.
pub proof fn lemma_order_holds(splits: Seq<u8>, bit: int, q: int)
    requires
        0 <= bit <= 256,
        0 <= q < splits.len(),
        splits[q] >= bit,
    ensures
        order_down_to(splits, bit).contains(q),
    decreases 256 - bit,
{
    if bit <= 255 {
        let deeper = order_down_to(splits, bit + 1);
        let here = pairs_at(splits, bit, splits.len() as int);
        if splits[q] > bit {
            lemma_order_holds(splits, bit + 1, q);
            let j = choose|j: int| 0 <= j < deeper.len() && deeper[j] == q;
            assert((deeper + here)[j] == q);
        } else {
            lemma_pairs_at(splits, bit, splits.len() as int);
            assert(here.contains(q));
            let j = choose|j: int| 0 <= j < here.len() && here[j] == q;
            assert((deeper + here)[deeper.len() + j] == q);
        }
    }
}

/// The pairs in the order in which they are joined are pairs of the
/// list.
pub proof fn lemma_order_in_range(splits: Seq<u8>, bit: int)
    requires
        0 <= bit <= 256,
    ensures
        forall|j: int|
            0 <= j < order_down_to(splits, bit).len() ==> 0 <= #[trigger] order_down_to(
                splits,
                bit,
            )[j] < splits.len(),
    decreases 256 - bit,
{
    if bit <= 255 {
        lemma_order_in_range(splits, bit + 1);
        lemma_pairs_at(splits, bit, splits.len() as int);
        let deeper = order_down_to(splits, bit + 1);
        let here = pairs_at(splits, bit, splits.len() as int);
        let all = order_down_to(splits, bit);
        assert forall|j: int| 0 <= j < all.len() implies 0 <= #[trigger] all[j] < splits.len() by {
            if j < deeper.len() {
                assert(all[j] == deeper[j]);
            } else {
                assert(all[j] == here[j - deeper.len()]);
            }
        }
    }
}

} // verus!
