//! What is inserted is found.

use vstd::prelude::*;

use crate::constants::KEY_LEN;
use crate::model::insert::{insert_yields, new_refs, plant_yields};
use crate::model::leaves::{
    data_address, fresh_references, leaf_address, leaves_run, with_leaf,
};
use crate::model::lookup::lookup;
use crate::model::trie::{
    before, last_pair, lemma_last_pair, lemma_run_high_is, lemma_run_low_is,
    branch_at, key_sorted_perm, merge_order, merged, planted, ref_keys, split_bits,
};
use crate::theorems::branching::{key_splits, lemma_parting};
use crate::theorems::duplicates::lemma_rearranged_twins;
use crate::theorems::planting::{
    branches_present, holds_keys, is_branch_address, lemma_branches_written, lemma_order_holds,
    lemma_order_in_range, lemma_run_is_sound, run_height,
};
use crate::theorems::reading::{agrees, all_keys, answers, lemma_lookup_in_sound_tree, sound, under};
use crate::traits::{Codec, Decode, Encode, Exception, Hasher};
use crate::tree::tree_node::{NodeKind, Store};
use crate::utils::key_order::{
    key_le, key_lt, lemma_key_lt_irreflexive, pair_keys, sorted, strictly_sorted,
};

use crate::utils::tree_ref::RefModel;

verus! {

/// The encoded value of pair `i`.
pub open spec fn encoded_at<V: Encode>(pairs: Seq<(Seq<u8>, V::V)>, i: int) -> Seq<u8> {
    V::encoding(pairs[i].1)->Some_0
}

/// The address of the data node of pair `i`.
pub open spec fn data_at<H: Hasher, V: Encode>(pairs: Seq<(Seq<u8>, V::V)>, i: int) -> Seq<u8> {
    data_address::<H>(pairs[i].0, encoded_at::<V>(pairs, i))
}

/// The address of the leaf of pair `i`.
pub open spec fn leaf_at<H: Hasher, V: Encode>(pairs: Seq<(Seq<u8>, V::V)>, i: int) -> Seq<u8> {
    leaf_address::<H>(pairs[i].0, data_at::<H, V>(pairs, i))
}

/// The leaves of the pairs as subtrees.
pub open spec fn leaf_refs<H: Hasher, V: Encode>(pairs: Seq<(Seq<u8>, V::V)>) -> Seq<RefModel> {
    Seq::new(
        pairs.len(),
        |i: int|
            RefModel {
                key: pairs[i].0,
                location: leaf_at::<H, V>(pairs, i),
                node_count: 1,
                count: 1,
            },
    )
}

/// The address of the branch that joins pair `p` of the leaves of the
/// pairs.
pub open spec fn branch_of<H: Hasher, V: Encode>(pairs: Seq<(Seq<u8>, V::V)>, p: int) -> Seq<u8> {
    branch_at::<H>(leaf_refs::<H, V>(pairs), key_splits(pair_keys(pairs)), p).0
}

/// The leaves and data nodes of the pairs have addresses of their own.
pub open spec fn leaves_apart<H: Hasher, V: Encode>(pairs: Seq<(Seq<u8>, V::V)>) -> bool {
    &&& forall|i: int, j: int|
        0 <= i < pairs.len() && 0 <= j < pairs.len() && i != j ==> #[trigger] leaf_at::<H, V>(
            pairs,
            i,
        ) != #[trigger] leaf_at::<H, V>(pairs, j)
    &&& forall|i: int, j: int|
        0 <= i < pairs.len() && 0 <= j < pairs.len() && i != j ==> #[trigger] data_at::<H, V>(
            pairs,
            i,
        ) != #[trigger] data_at::<H, V>(pairs, j)
    &&& forall|i: int, j: int|
        0 <= i < pairs.len() && 0 <= j < pairs.len() ==> #[trigger] leaf_at::<H, V>(pairs, i)
            != #[trigger] data_at::<H, V>(pairs, j)
}

/// The nodes of the tree over the leaves of the pairs have addresses of
/// their own: the hash function maps no two of them to one address.
pub open spec fn unmistakable<H: Hasher, V: Encode>(pairs: Seq<(Seq<u8>, V::V)>) -> bool {
    &&& leaves_apart::<H, V>(pairs)
    &&& forall|p: int, q: int|
        0 <= p < pairs.len() - 1 && 0 <= q < pairs.len() - 1 && p != q ==> #[trigger] branch_of::<
            H,
            V,
        >(pairs, p) != #[trigger] branch_of::<H, V>(pairs, q)
    &&& forall|p: int, i: int|
        0 <= p < pairs.len() - 1 && 0 <= i < pairs.len() ==> #[trigger] branch_of::<H, V>(pairs, p)
            != #[trigger] leaf_at::<H, V>(pairs, i)
    &&& forall|p: int, i: int|
        0 <= p < pairs.len() - 1 && 0 <= i < pairs.len() ==> #[trigger] branch_of::<H, V>(pairs, p)
            != #[trigger] data_at::<H, V>(pairs, i)
}

/// The values of the pairs by their keys.
pub open spec fn values_by_key<T>(pairs: Seq<(Seq<u8>, T)>) -> Map<Seq<u8>, T> {
    Map::new(
        |q: Seq<u8>| pair_keys(pairs).contains(q),
        |q: Seq<u8>| pairs[pair_keys(pairs).index_of(q)].1,
    )
}

/// Where the keys of the pairs are sorted without repeats,
/// `values_by_key` holds the value of each pair under its key.
pub proof fn lemma_values_by_key<T>(pairs: Seq<(Seq<u8>, T)>)
    requires
        strictly_sorted(pair_keys(pairs)),
    ensures
        holds_keys(values_by_key(pairs), pair_keys(pairs)),
        forall|i: int|
            0 <= i < pairs.len() ==> values_by_key(pairs).contains_key((#[trigger] pairs[i]).0)
                && values_by_key(pairs)[pairs[i].0] == pairs[i].1,
{
    let keys = pair_keys(pairs);
    assert forall|i: int| 0 <= i < pairs.len() implies values_by_key(pairs).contains_key(
        (#[trigger] pairs[i]).0,
    ) && values_by_key(pairs)[pairs[i].0] == pairs[i].1 by {
        assert(keys[i] == pairs[i].0);
        let j = keys.index_of(pairs[i].0);
        if j < i {
            assert(key_lt(keys[j], keys[i]));
            lemma_key_lt_irreflexive(keys[i]);
        } else if i < j {
            assert(key_lt(keys[i], keys[j]));
            lemma_key_lt_irreflexive(keys[i]);
        }
    }
}

/// Where the values can be encoded and the leaves and data nodes have
/// addresses of their own, the leaves of the pairs and their data nodes
/// are in the store after they are written.
pub proof fn lemma_leaves_written<H: Hasher, V: Encode>(
    published: Store,
    store: Store,
    pairs: Seq<(Seq<u8>, V::V)>,
)
    requires
        forall|i: int| 0 <= i < pairs.len() ==> V::encoding((#[trigger] pairs[i]).1) is Some,
        leaves_apart::<H, V>(pairs),
    ensures
        leaves_run::<H, V>(published, store, pairs) is Ok,
        leaves_run::<H, V>(published, store, pairs)->Ok_0.0.len() == pairs.len(),
        forall|i: int|
            0 <= i < pairs.len() ==> {
                let after = leaves_run::<H, V>(published, store, pairs)->Ok_0.1;
                &&& leaves_run::<H, V>(published, store, pairs)->Ok_0.0[i] == #[trigger] leaf_at::<H, V>(
                    pairs,
                    i,
                )
                &&& after.contains_key(leaf_at::<H, V>(pairs, i))
                &&& after[leaf_at::<H, V>(pairs, i)].kind == NodeKind::Leaf {
                    key: pairs[i].0,
                    data: data_at::<H, V>(pairs, i),
                }
                &&& after.contains_key(data_at::<H, V>(pairs, i))
                &&& after[data_at::<H, V>(pairs, i)].kind == NodeKind::Data {
                    value: encoded_at::<V>(pairs, i),
                }
            },
    decreases pairs.len(),
{
    if pairs.len() > 0 {
        let front = pairs.drop_last();
        let last = pairs.len() - 1;
        assert forall|i: int| 0 <= i < front.len() implies V::encoding(
            (#[trigger] front[i]).1,
        ) is Some by {
            assert(front[i] == pairs[i]);
        }
        assert forall|i: int| 0 <= i < front.len() implies #[trigger] leaf_at::<H, V>(front, i)
            == leaf_at::<H, V>(pairs, i) && data_at::<H, V>(front, i) == data_at::<H, V>(
            pairs,
            i,
        ) by {
            assert(front[i] == pairs[i]);
        }
        assert(leaves_apart::<H, V>(front)) by {
            assert forall|i: int, j: int|
                0 <= i < front.len() && 0 <= j < front.len() && i != j implies #[trigger] leaf_at::<
                H,
                V,
            >(front, i) != #[trigger] leaf_at::<H, V>(front, j) by {
                assert(leaf_at::<H, V>(pairs, i) != leaf_at::<H, V>(pairs, j));
            }
            assert forall|i: int, j: int|
                0 <= i < front.len() && 0 <= j < front.len() && i != j implies #[trigger] data_at::<
                H,
                V,
            >(front, i) != #[trigger] data_at::<H, V>(front, j) by {
                assert(front[i] == pairs[i] && front[j] == pairs[j]);
                assert(data_at::<H, V>(pairs, i) != data_at::<H, V>(pairs, j));
            }
            assert forall|i: int, j: int|
                0 <= i < front.len() && 0 <= j < front.len() implies #[trigger] leaf_at::<H, V>(
                front,
                i,
            ) != #[trigger] data_at::<H, V>(front, j) by {
                assert(front[j] == pairs[j]);
                assert(leaf_at::<H, V>(pairs, i) != data_at::<H, V>(pairs, j));
            }
        }
        lemma_leaves_written::<H, V>(published, store, front);
        let (locations, before) = leaves_run::<H, V>(published, store, front)->Ok_0;
        let after = leaves_run::<H, V>(published, store, pairs)->Ok_0.1;
        assert(pairs.last() == pairs[last]);
        assert(after == with_leaf::<H>(published, before, pairs[last].0, encoded_at::<V>(pairs, last)));
        assert forall|i: int| 0 <= i < pairs.len() implies {
            &&& leaves_run::<H, V>(published, store, pairs)->Ok_0.0[i] == #[trigger] leaf_at::<H, V>(pairs, i)
            &&& after.contains_key(leaf_at::<H, V>(pairs, i))
            &&& after[leaf_at::<H, V>(pairs, i)].kind == NodeKind::Leaf {
                key: pairs[i].0,
                data: data_at::<H, V>(pairs, i),
            }
            &&& after.contains_key(data_at::<H, V>(pairs, i))
            &&& after[data_at::<H, V>(pairs, i)].kind == NodeKind::Data {
                value: encoded_at::<V>(pairs, i),
            }
        } by {
            if i < last {
                assert(front[i] == pairs[i]);
                assert(leaf_at::<H, V>(front, i) == leaf_at::<H, V>(pairs, i));
                assert(leaf_at::<H, V>(pairs, i) != leaf_at::<H, V>(pairs, last));
                assert(leaf_at::<H, V>(pairs, i) != data_at::<H, V>(pairs, last));
                assert(data_at::<H, V>(pairs, i) != data_at::<H, V>(pairs, last));
                assert(leaf_at::<H, V>(pairs, last) != data_at::<H, V>(pairs, i));
            } else {
                assert(leaf_at::<H, V>(pairs, last) != data_at::<H, V>(pairs, last));
            }
        }
    }
}

/// The keys of a sorted list in which no key repeats the key just before
/// it are sorted without repeats.
pub proof fn lemma_sorted_apart(keys: Seq<Seq<u8>>)
    requires
        sorted(keys),
        forall|i: int, j: int| 0 <= i < j < keys.len() ==> keys[i] != keys[j],
    ensures
        strictly_sorted(keys),
{
    assert forall|i: int, j: int| 0 <= i < j < keys.len() implies key_lt(
        #[trigger] keys[i],
        #[trigger] keys[j],
    ) by {
        assert(key_le(keys[i], keys[j]));
    }
}

/// Two lists of subtrees that hold the same subtrees, each sorted by
/// key without repeats, are the same list.
pub proof fn lemma_strict_perm_equal(x: Seq<RefModel>, y: Seq<RefModel>)
    requires
        strictly_sorted(ref_keys(x)),
        strictly_sorted(ref_keys(y)),
        x.to_multiset() == y.to_multiset(),
    ensures
        x == y,
    decreases x.len(),
{
    x.to_multiset_ensures();
    y.to_multiset_ensures();
    if x.len() == 0 {
        assert(x =~= y);
    } else {
        let xl = x.last();
        let yl = y.last();
        let n = x.len() - 1;
        assert(x.contains(xl));
        assert(y.to_multiset().count(xl) > 0);
        assert(y.contains(xl));
        let j = choose|j: int| 0 <= j < y.len() && y[j] == xl;
        assert(y.contains(yl));
        assert(x.to_multiset().count(yl) > 0);
        assert(x.contains(yl));
        let k = choose|k: int| 0 <= k < x.len() && x[k] == yl;
        assert(ref_keys(x)[k] == yl.key && ref_keys(x)[n] == xl.key);
        assert(ref_keys(y)[j] == xl.key && ref_keys(y)[n] == yl.key);
        if j < n {
            assert(key_lt(ref_keys(y)[j], ref_keys(y)[n]));
            if k < n {
                assert(key_lt(ref_keys(x)[k], ref_keys(x)[n]));
                crate::utils::key_order::lemma_key_lt_asymmetric(xl.key, yl.key);
            } else {
                lemma_key_lt_irreflexive(xl.key);
            }
        }
        assert(xl == yl);
        assert(x.remove(n) =~= x.drop_last());
        assert(y.remove(n) =~= y.drop_last());
        assert(x.drop_last().to_multiset() == y.drop_last().to_multiset());
        assert forall|i: int, j: int| 0 <= i < j < n implies key_lt(
            #[trigger] ref_keys(x.drop_last())[i],
            #[trigger] ref_keys(x.drop_last())[j],
        ) by {
            assert(key_lt(ref_keys(x)[i], ref_keys(x)[j]));
        }
        assert forall|i: int, j: int| 0 <= i < j < n implies key_lt(
            #[trigger] ref_keys(y.drop_last())[i],
            #[trigger] ref_keys(y.drop_last())[j],
        ) by {
            assert(key_lt(ref_keys(y)[i], ref_keys(y)[j]));
        }
        lemma_strict_perm_equal(x.drop_last(), y.drop_last());
        assert(x =~= x.drop_last().push(xl));
        assert(y =~= y.drop_last().push(yl));
    }
}

/// The list of subtrees that holds the subtrees of a list sorted by key
/// without repeats, in the order of their keys, is that list.
pub proof fn lemma_sorted_perm_is_given(given: Seq<RefModel>, sorted_refs: Seq<RefModel>)
    requires
        strictly_sorted(ref_keys(given)),
        key_sorted_perm(sorted_refs, given),
    ensures
        sorted_refs == given,
{
    let keys = ref_keys(sorted_refs);
    assert forall|i: int, j: int| 0 <= i < j < keys.len() implies keys[i] != keys[j] by {
        if keys[i] == keys[j] {
            let (a, b) = lemma_rearranged_twins(sorted_refs, given, |r: RefModel| r.key, i, j);
            assert(key_lt(ref_keys(given)[a], ref_keys(given)[b]));
            lemma_key_lt_irreflexive(given[a].key);
        }
    }
    lemma_sorted_apart(keys);
    lemma_strict_perm_equal(given, sorted_refs);
}

/// The tree that an insertion under no previous root builds is
/// well-formed and holds the values of the pairs under their keys. Its
/// root has one reference; where the root is the leaf of a single pair,
/// it has one more reference than is published.
///
/// This holds of pairs with keys of full length, sorted without repeats,
/// whose values the codec can encode and decodes as they were; of a hash
/// function that gives each node of the new tree an address of its own;
/// and of a height that the new tree does not exceed.
pub proof fn lemma_first_tree_is_sound<H: Hasher, V: Codec>(
    published: Store,
    store: Store,
    pairs: Seq<(Seq<u8>, V::V)>,
    max_depth: nat,
    root: Seq<u8>,
    after: Store,
    height: nat,
)
    requires
        pairs.len() > 0,
        strictly_sorted(pair_keys(pairs)),
        forall|i: int| 0 <= i < pairs.len() ==> (#[trigger] pairs[i]).0.len() == KEY_LEN,
        forall|i: int| 0 <= i < pairs.len() ==> V::encoding((#[trigger] pairs[i]).1) is Some,
        unmistakable::<H, V>(pairs),
        height >= run_height(key_splits(pair_keys(pairs)), 0, pairs.len() - 1),
        insert_yields::<H, V>(
            published,
            store,
            None,
            pairs,
            max_depth,
            Ok::<(Seq<u8>, Store), Exception>((root, after)),
        ),
    ensures
        sound::<V>(after, root, all_keys(height)),
        agrees::<V>(after, root, all_keys(height), values_by_key(pairs)),
        after[root].references == (if pairs.len() == 1 {
            fresh_references(published, root)
        } else {
            1
        }),
{
    let outcome = Ok::<(Seq<u8>, Store), Exception>((root, after));
    let keys = pair_keys(pairs);
    let n = pairs.len() as int;
    let target = values_by_key(pairs);
    lemma_values_by_key(pairs);
    lemma_leaves_written::<H, V>(published, store, pairs);
    let (locations, with_leaves) = leaves_run::<H, V>(published, store, pairs)->Ok_0;
    let fresh = new_refs(keys, locations);
    assert(fresh =~= leaf_refs::<H, V>(pairs));
    assert(ref_keys(fresh) =~= keys);
    assert(plant_yields::<H>(with_leaves, fresh, outcome));
    let sorted_refs = choose|sorted_refs: Seq<RefModel>| #[trigger]
        key_sorted_perm(sorted_refs, fresh) && planted::<H>(with_leaves, sorted_refs) == outcome;
    lemma_sorted_perm_is_given(fresh, sorted_refs);
    let splits = split_bits(fresh);
    assert(splits =~= key_splits(keys));
    lemma_parting(keys);
    // the nodes of the new tree are in the store
    if n > 1 {
        let order = merge_order(splits);
        lemma_order_in_range(splits, 0);
        assert forall|p: int, q: int|
            0 <= p < splits.len() && 0 <= q < splits.len() && p != q implies (
        #[trigger] branch_at::<H>(fresh, splits, p)).0 != (#[trigger] branch_at::<H>(
            fresh,
            splits,
            q,
        )).0 by {
            assert(branch_of::<H, V>(pairs, p) != branch_of::<H, V>(pairs, q));
        }
        lemma_branches_written::<H>(with_leaves, fresh, splits, order);
        assert forall|p: int| 0 <= p < splits.len() implies after.contains_key(
            #[trigger] branch_at::<H>(fresh, splits, p).0,
        ) && after[branch_at::<H>(fresh, splits, p).0] == branch_at::<H>(fresh, splits, p).1 by {
            lemma_order_holds(splits, 0, p);
            let j = choose|j: int| 0 <= j < order.len() && order[j] == p;
            assert(order[j] == p);
        }
        assert forall|i: int| 0 <= i < n implies !is_branch_address::<H>(
            fresh,
            splits,
            #[trigger] leaf_at::<H, V>(pairs, i),
        ) && !is_branch_address::<H>(fresh, splits, data_at::<H, V>(pairs, i)) by {
            if is_branch_address::<H>(fresh, splits, leaf_at::<H, V>(pairs, i)) {
                let p = choose|p: int|
                    0 <= p < splits.len() && (#[trigger] branch_at::<H>(fresh, splits, p)).0
                        == leaf_at::<H, V>(pairs, i);
                assert(branch_of::<H, V>(pairs, p) != leaf_at::<H, V>(pairs, i));
            }
            if is_branch_address::<H>(fresh, splits, data_at::<H, V>(pairs, i)) {
                let p = choose|p: int|
                    0 <= p < splits.len() && (#[trigger] branch_at::<H>(fresh, splits, p)).0
                        == data_at::<H, V>(pairs, i);
                assert(branch_of::<H, V>(pairs, p) != data_at::<H, V>(pairs, i));
            }
        }
    }
    assert forall|x: int| 0 <= x < fresh.len() implies {
        &&& after.contains_key((#[trigger] fresh[x]).location)
        &&& after[fresh[x].location].kind matches NodeKind::Leaf { key, data }
        &&& key == keys[x]
        &&& after.contains_key(data)
        &&& after[data].kind matches NodeKind::Data { value }
        &&& target.contains_key(keys[x])
        &&& V::decoding(value) == Some(target[keys[x]])
    } by {
        assert(fresh[x].location == leaf_at::<H, V>(pairs, x));
        assert(with_leaves.contains_key(leaf_at::<H, V>(pairs, x)));
        assert(with_leaves.contains_key(data_at::<H, V>(pairs, x)));
        assert(keys[x] == pairs[x].0);
        V::round_trip(pairs[x].1);
    }
    assert(branches_present::<H>(after, fresh, splits));
    let region = all_keys(height);
    lemma_run_is_sound::<H, V>(after, keys, fresh, splits, target, 0, n - 1, region);
    assert(merged::<H>(fresh, splits, 0, n - 1).location == root);
    if n > 1 {
        let top = last_pair(splits, 0, n - 1);
        lemma_last_pair(splits, 0, n - 1);
        assert forall|q: int| 0 <= q < top implies before(splits, q, top) by {}
        lemma_run_low_is(splits, top, 0);
        assert forall|q: int| top + 1 <= q < n - 1 implies before(splits, q, top) by {}
        lemma_run_high_is(splits, top, n - 1);
        assert(root == branch_at::<H>(fresh, splits, top).0);
        assert(after[root] == branch_at::<H>(fresh, splits, top).1);
    } else {
        assert(pairs.drop_last() =~= Seq::<(Seq<u8>, V::V)>::empty());
        assert(pairs.last() == pairs[0]);
        assert(root == leaf_at::<H, V>(pairs, 0));
    }
}

/// Round trip. After the insertion of pairs under no previous root, a
/// lookup of the keys of the pairs under the new root finds the value of
/// each pair under its key, and nothing else.
///
/// This holds of pairs with keys of full length, sorted without repeats,
/// whose values the codec can encode and decodes as they were; of a hash
/// function that gives each node of the new tree an address of its own;
/// and of a maximum depth that the new tree does not exceed.
pub proof fn lemma_inserted_pairs_are_found<H: Hasher, V: Codec>(
    published: Store,
    store: Store,
    pairs: Seq<(Seq<u8>, V::V)>,
    max_depth: nat,
    root: Seq<u8>,
    after: Store,
)
    requires
        pairs.len() > 0,
        strictly_sorted(pair_keys(pairs)),
        forall|i: int| 0 <= i < pairs.len() ==> (#[trigger] pairs[i]).0.len() == KEY_LEN,
        forall|i: int| 0 <= i < pairs.len() ==> V::encoding((#[trigger] pairs[i]).1) is Some,
        unmistakable::<H, V>(pairs),
        max_depth >= run_height(key_splits(pair_keys(pairs)), 0, pairs.len() - 1),
        insert_yields::<H, V>(
            published,
            store,
            None,
            pairs,
            max_depth,
            Ok::<(Seq<u8>, Store), Exception>((root, after)),
        ),
    ensures
        lookup::<V>(after, root, pair_keys(pairs), max_depth) == Ok::<
            Map<Seq<u8>, V::V>,
            Exception,
        >(values_by_key(pairs)),
        forall|i: int|
            0 <= i < pairs.len() ==> values_by_key(pairs).contains_key((#[trigger] pairs[i]).0)
                && values_by_key(pairs)[pairs[i].0] == pairs[i].1,
{
    let keys = pair_keys(pairs);
    lemma_first_tree_is_sound::<H, V>(published, store, pairs, max_depth, root, after, max_depth);
    lemma_values_by_key(pairs);
    assert(sorted(keys)) by {
        assert forall|i: int, j: int| 0 <= i < j < keys.len() implies key_le(
            #[trigger] keys[i],
            #[trigger] keys[j],
        ) by {
            assert(key_lt(keys[i], keys[j]));
        }
    }
    assert forall|i: int| 0 <= i < keys.len() implies (#[trigger] keys[i]).len() == KEY_LEN by {
        assert(keys[i] == pairs[i].0);
    }
    lemma_lookup_in_sound_tree::<V>(after, root, max_depth, values_by_key(pairs), keys, max_depth);
    assert(answers(values_by_key(pairs), keys) =~= values_by_key(pairs));
}

} // verus!
