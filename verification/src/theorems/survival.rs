//! What an earlier tree held is found in the tree that is built on it.

use vstd::prelude::*;

use crate::constants::KEY_LEN;
use crate::model::insert::{insert_yields, new_refs, plant_yields};
use crate::model::leaves::{leaves_run, with_leaf};
use crate::model::lookup::lookup;
use crate::model::trie::{
    branch_at, built, has_twins, key_sorted_perm, merge_order, merged, planted, ref_keys,
    split_bits, twins_at,
};
use crate::model::walk::walk;
use crate::theorems::bits::{lemma_prefix_shorter, lemma_prefix_symmetric};
use crate::theorems::branching::{key_splits, lemma_parting};
use crate::theorems::duplicates::lemma_sorted_twins;
use crate::theorems::frames::{
    lemma_sound_frame, lemma_sound_height, lemma_sound_lower, lemma_sound_moves, node_key,
    records_kept, within_height,
};
use crate::theorems::grafting::{below_some, graft_fits, lemma_grafts_are_sound, whole, width_of};
use crate::theorems::keeping::{
    all_apart, all_kept_fit, batch_is_new, below, disjoint, kept_fits, lemma_below_in_region,
    lemma_walk_run_keeps, walk_cell_fits, writes_kept,
};
use crate::theorems::planting::{
    branches_present, is_branch_address, lemma_branches_written, lemma_order_holds,
    lemma_order_in_range,
};
use crate::theorems::reading::{
    agrees, all_keys, answers, find, lemma_lookup_in_sound_tree, option_of, sound, under, Region,
};
use crate::theorems::round_trip::{
    data_at, encoded_at, leaf_at, leaves_apart, lemma_leaves_written, lemma_sorted_apart,
    lemma_values_by_key, values_by_key,
};
use crate::traits::{Codec, Decode, Encode, Exception, Hasher};
use crate::tree::tree_node::{NodeKind, Store};
use crate::utils::key_order::{
    key_le, key_lt, lemma_key_lt_irreflexive, pair_keys, sorted, strictly_sorted,
};
use crate::utils::tree_cell::CellModel;
use crate::utils::tree_ref::RefModel;
use crate::utils::tree_utils::{lemma_same_bits_equal, same_prefix};

verus! {

/// `a` is the address of the leaf or of the data node of pair `i`.
pub open spec fn node_of_pair<H: Hasher, V: Encode>(
    pairs: Seq<(Seq<u8>, V::V)>,
    i: int,
    a: Seq<u8>,
) -> bool {
    leaf_at::<H, V>(pairs, i) == a || data_at::<H, V>(pairs, i) == a
}

/// `a` is the address of the leaf or of the data node of a pair.
pub open spec fn is_new_node<H: Hasher, V: Encode>(pairs: Seq<(Seq<u8>, V::V)>, a: Seq<u8>) -> bool {
    exists|i: int| 0 <= i < pairs.len() && #[trigger] node_of_pair::<H, V>(pairs, i, a)
}

/// The writing of the leaves of a batch leaves the pending contents as
/// they are but at the addresses of the leaves and their data nodes.
pub proof fn lemma_leaves_frame<H: Hasher, V: Encode>(
    published: Store,
    store: Store,
    pairs: Seq<(Seq<u8>, V::V)>,
)
    requires
        forall|i: int| 0 <= i < pairs.len() ==> V::encoding((#[trigger] pairs[i]).1) is Some,
    ensures
        leaves_run::<H, V>(published, store, pairs) is Ok,
        forall|a: Seq<u8>|
            !is_new_node::<H, V>(pairs, a) ==> (#[trigger] leaves_run::<H, V>(
                published,
                store,
                pairs,
            )->Ok_0.1.contains_key(a) <==> store.contains_key(a)) && (store.contains_key(a)
                ==> leaves_run::<H, V>(published, store, pairs)->Ok_0.1[a] == store[a]),
    decreases pairs.len(),
{
    if pairs.len() > 0 {
        let front = pairs.drop_last();
        let last = pairs.len() - 1;
        assert forall|i: int| 0 <= i < front.len() implies V::encoding(
            (#[trigger] front[i]).1,
        ) is Some by {
            assert(front[i] == pairs[i]);
        }
        lemma_leaves_frame::<H, V>(published, store, front);
        let before = leaves_run::<H, V>(published, store, front)->Ok_0.1;
        let after = leaves_run::<H, V>(published, store, pairs)->Ok_0.1;
        assert(pairs.last() == pairs[last]);
        assert(after == with_leaf::<H>(
            published,
            before,
            pairs[last].0,
            encoded_at::<V>(pairs, last),
        ));
        assert forall|a: Seq<u8>| !is_new_node::<H, V>(pairs, a) implies (
        #[trigger] after.contains_key(a) <==> store.contains_key(a)) && (store.contains_key(a)
            ==> after[a] == store[a]) by {
            assert(!node_of_pair::<H, V>(pairs, last, a));
            if is_new_node::<H, V>(front, a) {
                let i = choose|i: int|
                    0 <= i < front.len() && #[trigger] node_of_pair::<H, V>(front, i, a);
                assert(front[i] == pairs[i]);
                assert(node_of_pair::<H, V>(pairs, i, a));
            }
            assert(before.contains_key(a) <==> store.contains_key(a));
        }
    }
}

/// What a tree holds after the pairs are inserted on a tree that held
/// `old`: the values of the pairs under their keys, and what `old` holds
/// under all other keys.
pub open spec fn joined_values<T>(old: Map<Seq<u8>, T>, pairs: Seq<(Seq<u8>, T)>) -> Map<Seq<u8>, T> {
    Map::new(
        |q: Seq<u8>| old.contains_key(q) || pair_keys(pairs).contains(q),
        |q: Seq<u8>|
            if pair_keys(pairs).contains(q) {
                values_by_key(pairs)[q]
            } else {
                old[q]
            },
    )
}

/// The store holds no node at `a`, or a node with the record `kind`.
pub open spec fn welcomes(store: Store, a: Seq<u8>, kind: NodeKind) -> bool {
    store.contains_key(a) ==> store[a].kind == kind
}

/// The record of the leaf of pair `i`.
pub open spec fn leaf_kind<H: Hasher, V: Encode>(pairs: Seq<(Seq<u8>, V::V)>, i: int) -> NodeKind {
    NodeKind::Leaf { key: pairs[i].0, data: data_at::<H, V>(pairs, i) }
}

/// The record of the data node of pair `i`.
pub open spec fn data_kind<V: Encode>(pairs: Seq<(Seq<u8>, V::V)>, i: int) -> NodeKind {
    NodeKind::Data { value: encoded_at::<V>(pairs, i) }
}

/// The store holds the leaves of the pairs and their data nodes.
pub open spec fn leaves_in<H: Hasher, V: Encode>(store: Store, pairs: Seq<(Seq<u8>, V::V)>) -> bool {
    forall|i: int|
        0 <= i < pairs.len() ==> {
            &&& store.contains_key(#[trigger] leaf_at::<H, V>(pairs, i))
            &&& store[leaf_at::<H, V>(pairs, i)].kind == leaf_kind::<H, V>(pairs, i)
            &&& store.contains_key(data_at::<H, V>(pairs, i))
            &&& store[data_at::<H, V>(pairs, i)].kind == data_kind::<V>(pairs, i)
        }
}

/// The nodes that the insertion writes have addresses of their own, at
/// which nothing else is published: the hash function maps no two of
/// them to one address, and where a node is published at the address of
/// one of them, it has the same record. `sorted_refs` are the subtrees
/// over which the new tree is built.
pub open spec fn grafts_apart<H: Hasher, V: Encode>(
    published: Store,
    pairs: Seq<(Seq<u8>, V::V)>,
    sorted_refs: Seq<RefModel>,
) -> bool {
    &&& leaves_apart::<H, V>(pairs)
    &&& forall|i: int|
        0 <= i < pairs.len() ==> welcomes(
            published,
            #[trigger] leaf_at::<H, V>(pairs, i),
            leaf_kind::<H, V>(pairs, i),
        ) && welcomes(published, data_at::<H, V>(pairs, i), data_kind::<V>(pairs, i))
    &&& forall|p: int, q: int|
        0 <= p < sorted_refs.len() - 1 && 0 <= q < sorted_refs.len() - 1 && p != q ==> (
        #[trigger] branch_at::<H>(sorted_refs, split_bits(sorted_refs), p)).0 != (
        #[trigger] branch_at::<H>(sorted_refs, split_bits(sorted_refs), q)).0
    &&& forall|p: int|
        0 <= p < sorted_refs.len() - 1 ==> welcomes(
            published,
            (#[trigger] branch_at::<H>(sorted_refs, split_bits(sorted_refs), p)).0,
            branch_at::<H>(sorted_refs, split_bits(sorted_refs), p).1.kind,
        ) && !is_new_node::<H, V>(pairs, branch_at::<H>(sorted_refs, split_bits(sorted_refs), p).0)
}

/// The nodes that the insertion of the pairs on the tree at `root`
/// writes have addresses of their own, at which nothing else is
/// published.
pub open spec fn new_nodes_apart<H: Hasher, V: Encode>(
    published: Store,
    pending: Store,
    root: Seq<u8>,
    pairs: Seq<(Seq<u8>, V::V)>,
    max_depth: nat,
) -> bool {
    leaves_run::<H, V>(published, pending, pairs) matches Ok((locations, with_leaves)) ==> (walk(
        published,
        with_leaves,
        root,
        pair_keys(pairs),
        locations,
        max_depth,
    ) matches Ok((kept, counted)) ==> forall|sorted_refs: Seq<RefModel>| #[trigger]
        key_sorted_perm(sorted_refs, new_refs(pair_keys(pairs), locations) + kept)
            ==> grafts_apart::<H, V>(published, pairs, sorted_refs))
}

/// The key of a well-formed subtree has full length and lies in the
/// region of the subtree.
pub proof fn lemma_sound_key<V: Decode>(store: Store, location: Seq<u8>, r: Region)
    requires
        sound::<V>(store, location, r),
    ensures
        node_key(store, location).0.len() == KEY_LEN,
        under(node_key(store, location).0, r),
        0 <= node_key(store, location).1 <= 256,
        !(store[location].kind is Data),
{
}

/// A new leaf can be joined into a tree that holds `target`.
pub proof fn lemma_leaf_graft_fits<V: Decode>(
    store: Store,
    graft: RefModel,
    target: Map<Seq<u8>, V::V>,
)
    requires
        graft.key.len() == KEY_LEN,
        store.contains_key(graft.location),
        store[graft.location].kind matches NodeKind::Leaf { key, data } && key == graft.key
            && store.contains_key(data) && (store[data].kind matches NodeKind::Data { value }
            && V::decoding(value) == option_of(target, graft.key) && target.contains_key(
            graft.key,
        )),
    ensures
        graft_fits::<V>(store, graft, target),
        width_of(store, graft) == 256,
{
    assert forall|q: Seq<u8>|
        q.len() == KEY_LEN && same_prefix(q, graft.key, width_of(store, graft)) implies #[trigger] find::<
        V,
    >(store, graft.location, q, 256) == option_of(target, q) by {
        lemma_same_bits_equal(q, graft.key);
    }
}

/// A subtree taken over from a well-formed tree can be joined into a
/// tree that holds `target`, where `target` holds what the earlier tree
/// held under the keys that are not new.
pub proof fn lemma_kept_graft_fits<V: Decode>(
    store: Store,
    after: Store,
    kept: RefModel,
    region: Region,
    old: Map<Seq<u8>, V::V>,
    new_keys: Seq<Seq<u8>>,
    target: Map<Seq<u8>, V::V>,
)
    requires
        kept_fits::<V>(store, kept, region, old, new_keys),
        records_kept(store, after),
        forall|q: Seq<u8>|
            !new_keys.contains(q) ==> #[trigger] option_of(target, q) == option_of(old, q),
    ensures
        graft_fits::<V>(after, kept, target),
        width_of(after, kept) == node_key(store, kept.location).1,
        under(kept.key, region),
        kept.key.len() == KEY_LEN,
{
    let location = kept.location;
    lemma_sound_key::<V>(store, location, region);
    lemma_sound_frame::<V>(store, after, location, region);
    assert(after[location].kind == store[location].kind);
    let width = node_key(store, location).1;
    let to = Region { key: kept.key, split: -1, side: false, height: region.height };
    lemma_sound_moves::<V>(after, location, region, to);
    lemma_sound_height::<V>(after, location, to, 256);
    assert(crate::theorems::frames::with_height(to, 256) == whole(kept.key));
    assert forall|q: Seq<u8>| q.len() == KEY_LEN && same_prefix(q, kept.key, width) implies #[trigger] find::<
        V,
    >(after, location, q, 256) == option_of(target, q) by {
        lemma_below_in_region(q, kept.key, width, region);
        assert(find::<V>(store, location, q, region.height) == option_of(old, q));
        assert(find::<V>(after, location, q, region.height) == find::<V>(
            store,
            location,
            q,
            region.height,
        ));
        assert(find::<V>(after, location, q, 256) == find::<V>(after, location, q, to.height));
        if new_keys.contains(q) {
            let i = choose|i: int| 0 <= i < new_keys.len() && new_keys[i] == q;
            assert(!same_prefix(new_keys[i], kept.key, width));
        }
    }
}

/// Two lists that hold the same things, each as often, have the same
/// length and the same elements.
pub proof fn lemma_same_elements<T>(a: Seq<T>, b: Seq<T>)
    requires
        a.to_multiset() == b.to_multiset(),
    ensures
        a.len() == b.len(),
        forall|x: T| a.contains(x) <==> b.contains(x),
{
    a.to_multiset_ensures();
    b.to_multiset_ensures();
    assert forall|x: T| a.contains(x) <==> b.contains(x) by {
        assert(a.contains(x) <==> a.to_multiset().count(x) > 0);
        assert(b.contains(x) <==> b.to_multiset().count(x) > 0);
    }
}

/// The leaves of the batch are at `locations`, and the subtrees `kept`
/// are taken over from a well-formed tree that held `old`, for regions
/// that share no key; each key of `old` lies below one of them.
pub open spec fn ground<H: Hasher, V: Encode + Decode>(
    store: Store,
    pairs: Seq<(Seq<u8>, V::V)>,
    locations: Seq<Seq<u8>>,
    kept: Seq<RefModel>,
    regions: Seq<Region>,
    old: Map<Seq<u8>, V::V>,
) -> bool {
    &&& locations.len() == pairs.len()
    &&& forall|i: int|
        0 <= i < pairs.len() ==> locations[i] == #[trigger] leaf_at::<H, V>(pairs, i)
    &&& all_kept_fit::<V>(store, kept, regions, old, pair_keys(pairs))
    &&& all_apart(regions)
    &&& forall|q: Seq<u8>| #[trigger]
        old.contains_key(q) ==> exists|x: int|
            0 <= x < kept.len() && below(store, q, #[trigger] kept[x])
    &&& batch_is_new(old, pair_keys(pairs))
    &&& strictly_sorted(pair_keys(pairs))
    &&& forall|i: int| 0 <= i < pairs.len() ==> V::encoding((#[trigger] pairs[i]).1) is Some
}

/// The ground for the building of the new tree is laid when the leaves
/// of the batch are written and the earlier tree is walked.
pub proof fn lemma_ground<H: Hasher, V: Encode + Decode>(
    published: Store,
    pending: Store,
    root: Seq<u8>,
    start: Region,
    old: Map<Seq<u8>, V::V>,
    pairs: Seq<(Seq<u8>, V::V)>,
    max_depth: nat,
    kept: Seq<RefModel>,
    counted: Store,
) -> (regions: Seq<Region>)
    requires
        start.split == -1,
        sound::<V>(published, root, start),
        agrees::<V>(published, root, start, old),
        strictly_sorted(pair_keys(pairs)),
        forall|i: int| 0 <= i < pairs.len() ==> V::encoding((#[trigger] pairs[i]).1) is Some,
        batch_is_new(old, pair_keys(pairs)),
        leaves_apart::<H, V>(pairs),
        leaves_run::<H, V>(published, pending, pairs) is Ok,
        walk(
            published,
            leaves_run::<H, V>(published, pending, pairs)->Ok_0.1,
            root,
            pair_keys(pairs),
            leaves_run::<H, V>(published, pending, pairs)->Ok_0.0,
            max_depth,
        ) == Ok::<(Seq<RefModel>, Store), Exception>((kept, counted)),
    ensures
        ground::<H, V>(
            published,
            pairs,
            leaves_run::<H, V>(published, pending, pairs)->Ok_0.0,
            kept,
            regions,
            old,
        ),
        leaves_in::<H, V>(leaves_run::<H, V>(published, pending, pairs)->Ok_0.1, pairs),
        writes_kept(published, leaves_run::<H, V>(published, pending, pairs)->Ok_0.1, counted),
{
    let keys = pair_keys(pairs);
    lemma_leaves_written::<H, V>(published, pending, pairs);
    let (locations, with_leaves) = leaves_run::<H, V>(published, pending, pairs)->Ok_0;
    assert(sorted(keys)) by {
        assert forall|i: int, j: int| 0 <= i < j < keys.len() implies key_le(
            #[trigger] keys[i],
            #[trigger] keys[j],
        ) by {
            assert(key_lt(keys[i], keys[j]));
        }
    }
    let first_cell = CellModel { location: root, keys, node: published[root], depth: 0 };
    assert(walk_cell_fits::<V>(published, first_cell, start, old, keys)) by {
        assert forall|i: int| 0 <= i < keys.len() implies (#[trigger] keys[i]).len() == KEY_LEN
            && keys.contains(keys[i]) && under(keys[i], start) by {}
    }
    let no_refs = Seq::<RefModel>::empty();
    let no_regions = Seq::<Region>::empty();
    assert forall|q: Seq<u8>| #[trigger] old.contains_key(q) implies crate::theorems::keeping::covered(
        published,
        q,
        seq![start],
        no_refs,
    ) by {
        assert(under(q, seq![start][0]));
    }
    lemma_walk_run_keeps::<V>(
        published,
        with_leaves,
        seq![first_cell],
        seq![start],
        no_refs,
        no_regions,
        old,
        keys,
        locations,
        max_depth,
        kept,
        counted,
    )
}

/// Each new leaf and each subtree taken over can be joined into a tree
/// that holds what the earlier tree held and the values of the pairs.
pub proof fn lemma_each_graft_fits<H: Hasher, V: Codec>(
    store: Store,
    after: Store,
    pairs: Seq<(Seq<u8>, V::V)>,
    locations: Seq<Seq<u8>>,
    kept: Seq<RefModel>,
    regions: Seq<Region>,
    old: Map<Seq<u8>, V::V>,
    graft: RefModel,
)
    requires
        ground::<H, V>(store, pairs, locations, kept, regions, old),
        records_kept(store, after),
        leaves_in::<H, V>(after, pairs),
        (new_refs(pair_keys(pairs), locations) + kept).contains(graft),
    ensures
        graft_fits::<V>(after, graft, joined_values(old, pairs)),
        graft.key.len() == KEY_LEN,
{
    let keys = pair_keys(pairs);
    let target = joined_values(old, pairs);
    let fresh = new_refs(keys, locations);
    let given = fresh + kept;
    lemma_values_by_key(pairs);
    let k = choose|k: int| 0 <= k < given.len() && given[k] == graft;
    if k < fresh.len() {
        assert(graft == fresh[k]);
        assert(graft.location == leaf_at::<H, V>(pairs, k));
        assert(after.contains_key(leaf_at::<H, V>(pairs, k)));
        assert(after.contains_key(data_at::<H, V>(pairs, k)));
        assert(keys[k] == pairs[k].0);
        V::round_trip(pairs[k].1);
        assert(keys.contains(keys[k]));
        lemma_leaf_graft_fits::<V>(after, graft, target);
    } else {
        let j = k - fresh.len();
        assert(graft == kept[j]);
        assert forall|q: Seq<u8>| !keys.contains(q) implies #[trigger] option_of(target, q)
            == option_of(old, q) by {}
        lemma_kept_graft_fits::<V>(store, after, kept[j], regions[j], old, keys, target);
    }
}

/// The key of a new leaf or of a subtree taken over does not lie below
/// another of them.
pub proof fn lemma_grafts_keep_apart<H: Hasher, V: Codec>(
    store: Store,
    after: Store,
    pairs: Seq<(Seq<u8>, V::V)>,
    locations: Seq<Seq<u8>>,
    kept: Seq<RefModel>,
    regions: Seq<Region>,
    old: Map<Seq<u8>, V::V>,
    g: RefModel,
    h: RefModel,
)
    requires
        ground::<H, V>(store, pairs, locations, kept, regions, old),
        records_kept(store, after),
        leaves_in::<H, V>(after, pairs),
        (new_refs(pair_keys(pairs), locations) + kept).contains(g),
        (new_refs(pair_keys(pairs), locations) + kept).contains(h),
        g.key != h.key,
    ensures
        !same_prefix(h.key, g.key, width_of(after, g)),
{
    let keys = pair_keys(pairs);
    let target = joined_values(old, pairs);
    let fresh = new_refs(keys, locations);
    let given = fresh + kept;
    let kg = choose|k: int| 0 <= k < given.len() && given[k] == g;
    let kh = choose|k: int| 0 <= k < given.len() && given[k] == h;
    lemma_each_graft_fits::<H, V>(store, after, pairs, locations, kept, regions, old, g);
    lemma_each_graft_fits::<H, V>(store, after, pairs, locations, kept, regions, old, h);
    assert forall|q: Seq<u8>| !keys.contains(q) implies #[trigger] option_of(target, q)
        == option_of(old, q) by {}
    if same_prefix(h.key, g.key, width_of(after, g)) {
        if kg < fresh.len() {
            assert(g == fresh[kg]);
            assert(g.location == leaf_at::<H, V>(pairs, kg));
            assert(after.contains_key(leaf_at::<H, V>(pairs, kg)));
            assert(width_of(after, g) == 256);
            lemma_same_bits_equal(h.key, g.key);
        } else {
            let jg = kg - fresh.len();
            assert(g == kept[jg]);
            lemma_kept_graft_fits::<V>(store, after, kept[jg], regions[jg], old, keys, target);
            if kh < fresh.len() {
                assert(h == fresh[kh]);
                assert(h.key == keys[kh]);
                assert(kept_fits::<V>(store, kept[jg], regions[jg], old, keys));
            } else {
                let jh = kh - fresh.len();
                assert(h == kept[jh]);
                lemma_kept_graft_fits::<V>(store, after, kept[jh], regions[jh], old, keys, target);
                lemma_below_in_region(h.key, g.key, width_of(after, g), regions[jg]);
                if jg != jh {
                    assert(disjoint(regions[jg], regions[jh]));
                }
            }
        }
    }
}

/// Each key under which the new tree holds a value lies below a new
/// leaf or below a subtree taken over.
pub proof fn lemma_keys_lie_below<H: Hasher, V: Codec>(
    store: Store,
    after: Store,
    pairs: Seq<(Seq<u8>, V::V)>,
    locations: Seq<Seq<u8>>,
    kept: Seq<RefModel>,
    regions: Seq<Region>,
    old: Map<Seq<u8>, V::V>,
    sorted_refs: Seq<RefModel>,
    q: Seq<u8>,
)
    requires
        ground::<H, V>(store, pairs, locations, kept, regions, old),
        records_kept(store, after),
        leaves_in::<H, V>(after, pairs),
        sorted_refs.to_multiset() == (new_refs(pair_keys(pairs), locations) + kept).to_multiset(),
        joined_values(old, pairs).contains_key(q),
    ensures
        below_some(after, sorted_refs, q, 0, sorted_refs.len() - 1),
{
    let keys = pair_keys(pairs);
    let target = joined_values(old, pairs);
    let fresh = new_refs(keys, locations);
    let given = fresh + kept;
    lemma_same_elements(sorted_refs, given);
    if keys.contains(q) {
        let i = choose|i: int| 0 <= i < keys.len() && keys[i] == q;
        assert(given[i] == fresh[i]);
        assert(given.contains(fresh[i]));
        assert(sorted_refs.contains(fresh[i]));
        let x = choose|x: int| 0 <= x < sorted_refs.len() && sorted_refs[x] == fresh[i];
        assert(sorted_refs[x].key == q);
    } else {
        assert(old.contains_key(q));
        let j = choose|j: int| 0 <= j < kept.len() && below(store, q, #[trigger] kept[j]);
        assert(given[fresh.len() + j] == kept[j]);
        assert(given.contains(kept[j]));
        assert(sorted_refs.contains(kept[j]));
        let x = choose|x: int| 0 <= x < sorted_refs.len() && sorted_refs[x] == kept[j];
        assert forall|k: Seq<u8>| !keys.contains(k) implies #[trigger] option_of(target, k)
            == option_of(old, k) by {}
        lemma_kept_graft_fits::<V>(store, after, kept[j], regions[j], old, keys, target);
        assert(same_prefix(q, sorted_refs[x].key, width_of(after, sorted_refs[x])));
    }
}

/// The tree that is built over the new leaves and the subtrees taken
/// over is well-formed and holds what the earlier tree held and the
/// values of the pairs.
pub proof fn lemma_grafted_tree_is_sound<H: Hasher, V: Codec>(
    store: Store,
    after: Store,
    pairs: Seq<(Seq<u8>, V::V)>,
    locations: Seq<Seq<u8>>,
    kept: Seq<RefModel>,
    regions: Seq<Region>,
    old: Map<Seq<u8>, V::V>,
    sorted_refs: Seq<RefModel>,
    height: nat,
)
    requires
        ground::<H, V>(store, pairs, locations, kept, regions, old),
        records_kept(store, after),
        leaves_in::<H, V>(after, pairs),
        key_sorted_perm(sorted_refs, new_refs(pair_keys(pairs), locations) + kept),
        sorted_refs.len() == 1 || !has_twins(sorted_refs),
        branches_present::<H>(after, sorted_refs, split_bits(sorted_refs)),
        pairs.len() > 0,
        height >= 256,
    ensures
        sound::<V>(
            after,
            merged::<H>(sorted_refs, split_bits(sorted_refs), 0, sorted_refs.len() - 1).location,
            all_keys(height),
        ),
        agrees::<V>(
            after,
            merged::<H>(sorted_refs, split_bits(sorted_refs), 0, sorted_refs.len() - 1).location,
            all_keys(height),
            joined_values(old, pairs),
        ),
{
    let keys = pair_keys(pairs);
    let target = joined_values(old, pairs);
    let given = new_refs(keys, locations) + kept;
    lemma_same_elements(sorted_refs, given);
    let n = sorted_refs.len() as int;
    let splits = split_bits(sorted_refs);
    let rkeys = ref_keys(sorted_refs);
    assert forall|x: int| 0 <= x < n implies graft_fits::<V>(
        after,
        #[trigger] sorted_refs[x],
        target,
    ) && sorted_refs[x].key.len() == KEY_LEN by {
        assert(sorted_refs.contains(sorted_refs[x]));
        lemma_each_graft_fits::<H, V>(
            store,
            after,
            pairs,
            locations,
            kept,
            regions,
            old,
            sorted_refs[x],
        );
    }
    assert(sorted(rkeys));
    assert forall|i: int, j: int| 0 <= i < j < rkeys.len() implies rkeys[i] != rkeys[j] by {
        if rkeys[i] == rkeys[j] {
            lemma_sorted_twins(rkeys, i, j);
            assert(twins_at(sorted_refs, i));
        }
    }
    lemma_sorted_apart(rkeys);
    assert forall|i: int| 0 <= i < rkeys.len() implies (#[trigger] rkeys[i]).len() == KEY_LEN by {
        assert(sorted_refs[i].key.len() == KEY_LEN);
    }
    lemma_parting(rkeys);
    assert(splits =~= key_splits(rkeys));
    assert forall|p: int| 0 <= p < splits.len() implies (#[trigger] splits[p]) < width_of(
        after,
        sorted_refs[p],
    ) && splits[p] < width_of(after, sorted_refs[p + 1]) by {
        let g = sorted_refs[p];
        let h = sorted_refs[p + 1];
        assert(rkeys[p] == g.key && rkeys[p + 1] == h.key);
        assert(key_lt(rkeys[p], rkeys[p + 1]));
        lemma_key_lt_irreflexive(g.key);
        assert(sorted_refs.contains(g) && sorted_refs.contains(h));
        lemma_grafts_keep_apart::<H, V>(store, after, pairs, locations, kept, regions, old, g, h);
        lemma_grafts_keep_apart::<H, V>(store, after, pairs, locations, kept, regions, old, h, g);
        assert(same_prefix(rkeys[p], rkeys[p + 1], splits[p] as int));
        if splits[p] >= width_of(after, g) {
            lemma_prefix_shorter(rkeys[p], rkeys[p + 1], splits[p] as int, width_of(after, g));
            lemma_prefix_symmetric(rkeys[p], rkeys[p + 1], width_of(after, g));
        }
        if splits[p] >= width_of(after, h) {
            lemma_prefix_shorter(rkeys[p], rkeys[p + 1], splits[p] as int, width_of(after, h));
        }
    }
    let region = all_keys(height);
    assert forall|q: Seq<u8>|
        target.contains_key(q) && q.len() == KEY_LEN && #[trigger] under(
            q,
            region,
        ) implies below_some(after, sorted_refs, q, 0, n - 1) by {
        lemma_keys_lie_below::<H, V>(
            store,
            after,
            pairs,
            locations,
            kept,
            regions,
            old,
            sorted_refs,
            q,
        );
    }
    assert forall|x: int| 0 <= x <= n - 1 implies region.split < width_of(
        after,
        #[trigger] sorted_refs[x],
    ) by {
        assert(graft_fits::<V>(after, sorted_refs[x], target));
    }
    assert(crate::theorems::planting::closed(splits, 0, n - 1)) by {
        assert forall|q: int| 0 <= q < n - 1 implies #[trigger] crate::theorems::planting::joined_inside(
            splits,
            q,
            0,
            n - 1,
        ) by {}
    }
    lemma_grafts_are_sound::<H, V>(after, rkeys, sorted_refs, splits, target, 0, n - 1, region);
}

/// The building of the new tree keeps the records that are published,
/// leaves the new leaves and their data nodes in the store, and leaves
/// the branch of each pair at its address.
pub proof fn lemma_new_nodes<H: Hasher, V: Encode>(
    published: Store,
    with_leaves: Store,
    counted: Store,
    pairs: Seq<(Seq<u8>, V::V)>,
    sorted_refs: Seq<RefModel>,
    new_root: Seq<u8>,
    after: Store,
)
    requires
        records_kept(published, with_leaves),
        leaves_in::<H, V>(with_leaves, pairs),
        writes_kept(published, with_leaves, counted),
        grafts_apart::<H, V>(published, pairs, sorted_refs),
        sorted_refs.len() > 0,
        planted::<H>(counted, sorted_refs) == Ok::<(Seq<u8>, Store), Exception>((new_root, after)),
    ensures
        records_kept(published, after),
        leaves_in::<H, V>(after, pairs),
        branches_present::<H>(after, sorted_refs, split_bits(sorted_refs)),
        sorted_refs.len() == 1 || !has_twins(sorted_refs),
        new_root == merged::<H>(
            sorted_refs,
            split_bits(sorted_refs),
            0,
            sorted_refs.len() - 1,
        ).location,
{
    let n = sorted_refs.len() as int;
    let splits = split_bits(sorted_refs);
    assert(records_kept(published, counted));
    assert(leaves_in::<H, V>(counted, pairs)) by {
        assert forall|i: int| 0 <= i < pairs.len() implies {
            &&& counted.contains_key(#[trigger] leaf_at::<H, V>(pairs, i))
            &&& counted[leaf_at::<H, V>(pairs, i)].kind == leaf_kind::<H, V>(pairs, i)
            &&& counted.contains_key(data_at::<H, V>(pairs, i))
            &&& counted[data_at::<H, V>(pairs, i)].kind == data_kind::<V>(pairs, i)
        } by {
            assert(with_leaves.contains_key(leaf_at::<H, V>(pairs, i)));
            assert(with_leaves.contains_key(data_at::<H, V>(pairs, i)));
            assert(welcomes(published, leaf_at::<H, V>(pairs, i), leaf_kind::<H, V>(pairs, i)));
        }
    }
    if n > 1 {
        let order = merge_order(splits);
        lemma_order_in_range(splits, 0);
        lemma_branches_written::<H>(counted, sorted_refs, splits, order);
        assert forall|p: int| 0 <= p < splits.len() implies after.contains_key(
            #[trigger] branch_at::<H>(sorted_refs, splits, p).0,
        ) && after[branch_at::<H>(sorted_refs, splits, p).0] == branch_at::<H>(
            sorted_refs,
            splits,
            p,
        ).1 by {
            lemma_order_holds(splits, 0, p);
            let j = choose|j: int| 0 <= j < order.len() && order[j] == p;
            assert(order[j] == p);
        }
        assert forall|a: Seq<u8>| #[trigger] published.contains_key(a) implies after.contains_key(
            a,
        ) && after[a].kind == published[a].kind by {
            assert(counted.contains_key(a));
            if is_branch_address::<H>(sorted_refs, splits, a) {
                let p = choose|p: int|
                    0 <= p < splits.len() && (#[trigger] branch_at::<H>(sorted_refs, splits, p)).0
                        == a;
                assert(welcomes(
                    published,
                    branch_at::<H>(sorted_refs, splits, p).0,
                    branch_at::<H>(sorted_refs, splits, p).1.kind,
                ));
            }
        }
        assert forall|i: int| 0 <= i < pairs.len() implies {
            &&& after.contains_key(#[trigger] leaf_at::<H, V>(pairs, i))
            &&& after[leaf_at::<H, V>(pairs, i)].kind == leaf_kind::<H, V>(pairs, i)
            &&& after.contains_key(data_at::<H, V>(pairs, i))
            &&& after[data_at::<H, V>(pairs, i)].kind == data_kind::<V>(pairs, i)
        } by {
            let leaf = leaf_at::<H, V>(pairs, i);
            let data = data_at::<H, V>(pairs, i);
            assert(counted.contains_key(leaf) && counted.contains_key(data));
            assert(node_of_pair::<H, V>(pairs, i, leaf));
            assert(node_of_pair::<H, V>(pairs, i, data));
            if is_branch_address::<H>(sorted_refs, splits, leaf) {
                let p = choose|p: int|
                    0 <= p < splits.len() && (#[trigger] branch_at::<H>(sorted_refs, splits, p)).0
                        == leaf;
                assert(!is_new_node::<H, V>(pairs, branch_at::<H>(sorted_refs, splits, p).0));
            }
            if is_branch_address::<H>(sorted_refs, splits, data) {
                let p = choose|p: int|
                    0 <= p < splits.len() && (#[trigger] branch_at::<H>(sorted_refs, splits, p)).0
                        == data;
                assert(!is_new_node::<H, V>(pairs, branch_at::<H>(sorted_refs, splits, p).0));
            }
        }
    }
}

/// The tree that an insertion on a well-formed tree builds is
/// well-formed. It holds the values of the pairs under their keys, and
/// under all other keys what the earlier tree held.
///
/// This holds of an earlier tree that is published, well-formed and
/// holds `old`; of pending contents that keep the published records; of
/// pairs that are new to the tree, with keys of full length, sorted
/// without repeats, whose values the codec can encode and decodes as
/// they were; of a hash function that gives each node that is written an
/// address of its own, at which nothing else is published; and of a
/// height that the new tree does not exceed.
pub proof fn lemma_next_tree_is_sound<H: Hasher, V: Codec>(
    published: Store,
    pending: Store,
    root: Seq<u8>,
    old_height: nat,
    old: Map<Seq<u8>, V::V>,
    pairs: Seq<(Seq<u8>, V::V)>,
    max_depth: nat,
    new_root: Seq<u8>,
    after: Store,
    height: nat,
)
    requires
        sound::<V>(published, root, all_keys(old_height)),
        agrees::<V>(published, root, all_keys(old_height), old),
        records_kept(published, pending),
        pairs.len() > 0,
        strictly_sorted(pair_keys(pairs)),
        forall|i: int| 0 <= i < pairs.len() ==> V::encoding((#[trigger] pairs[i]).1) is Some,
        batch_is_new(old, pair_keys(pairs)),
        insert_yields::<H, V>(
            published,
            pending,
            Some(root),
            pairs,
            max_depth,
            Ok::<(Seq<u8>, Store), Exception>((new_root, after)),
        ),
        new_nodes_apart::<H, V>(published, pending, root, pairs, max_depth),
        height >= 256 || within_height(after, new_root, height),
    ensures
        sound::<V>(after, new_root, all_keys(height)),
        agrees::<V>(after, new_root, all_keys(height), joined_values(old, pairs)),
{
    let outcome = Ok::<(Seq<u8>, Store), Exception>((new_root, after));
    let keys = pair_keys(pairs);
    let target = joined_values(old, pairs);
    lemma_leaves_frame::<H, V>(published, pending, pairs);
    let (locations, with_leaves) = leaves_run::<H, V>(published, pending, pairs)->Ok_0;
    let fresh = new_refs(keys, locations);
    let walked = walk(published, with_leaves, root, keys, locations, max_depth);
    assert(walked is Ok);
    let (kept, counted) = walked->Ok_0;
    let given = fresh + kept;
    assert(plant_yields::<H>(counted, given, outcome));
    let sorted_refs = choose|sorted_refs: Seq<RefModel>| #[trigger]
        key_sorted_perm(sorted_refs, given) && planted::<H>(counted, sorted_refs) == outcome;
    assert(grafts_apart::<H, V>(published, pairs, sorted_refs));
    let regions = lemma_ground::<H, V>(
        published,
        pending,
        root,
        all_keys(old_height),
        old,
        pairs,
        max_depth,
        kept,
        counted,
    );
    assert forall|a: Seq<u8>| #[trigger] published.contains_key(a) implies with_leaves.contains_key(
        a,
    ) && with_leaves[a].kind == published[a].kind by {
        assert(pending.contains_key(a));
        if is_new_node::<H, V>(pairs, a) {
            let i = choose|i: int|
                0 <= i < pairs.len() && #[trigger] node_of_pair::<H, V>(pairs, i, a);
            assert(welcomes(published, leaf_at::<H, V>(pairs, i), leaf_kind::<H, V>(pairs, i)));
            assert(with_leaves.contains_key(leaf_at::<H, V>(pairs, i)));
        }
    }
    lemma_same_elements(sorted_refs, given);
    lemma_new_nodes::<H, V>(published, with_leaves, counted, pairs, sorted_refs, new_root, after);
    let tall_height: nat = if height >= 256 {
        height
    } else {
        256
    };
    lemma_grafted_tree_is_sound::<H, V>(
        published,
        after,
        pairs,
        locations,
        kept,
        regions,
        old,
        sorted_refs,
        tall_height,
    );
    if height < 256 {
        lemma_sound_lower::<V>(after, new_root, all_keys(tall_height), height);
        assert forall|q: Seq<u8>| q.len() == KEY_LEN && under(q, all_keys(height)) implies #[trigger] find::<
            V,
        >(after, new_root, q, height) == option_of(target, q) by {
            assert(under(q, all_keys(tall_height)));
            assert(find::<V>(after, new_root, q, tall_height) == option_of(target, q));
        }
    }
}

/// Old-value survival. After the insertion of pairs on the tree at
/// `root`, a lookup under the new root finds under each key that is
/// looked for what the earlier tree held under it, and for the keys of
/// the pairs the values of the pairs.
///
/// This holds of an earlier tree that is published, well-formed and
/// holds `old`; of pending contents that keep the published records; of
/// pairs that are new to the tree, with keys of full length, sorted
/// without repeats, whose values the codec can encode and decodes as
/// they were; of a hash function that gives each node that is written an
/// address of its own, at which nothing else is published; of a maximum
/// depth that the new tree does not exceed; and of sorted keys of full
/// length to look for.
pub proof fn lemma_old_values_survive<H: Hasher, V: Codec>(
    published: Store,
    pending: Store,
    root: Seq<u8>,
    old_height: nat,
    old: Map<Seq<u8>, V::V>,
    pairs: Seq<(Seq<u8>, V::V)>,
    max_depth: nat,
    new_root: Seq<u8>,
    after: Store,
    queried: Seq<Seq<u8>>,
)
    requires
        sound::<V>(published, root, all_keys(old_height)),
        agrees::<V>(published, root, all_keys(old_height), old),
        records_kept(published, pending),
        pairs.len() > 0,
        strictly_sorted(pair_keys(pairs)),
        forall|i: int| 0 <= i < pairs.len() ==> V::encoding((#[trigger] pairs[i]).1) is Some,
        batch_is_new(old, pair_keys(pairs)),
        insert_yields::<H, V>(
            published,
            pending,
            Some(root),
            pairs,
            max_depth,
            Ok::<(Seq<u8>, Store), Exception>((new_root, after)),
        ),
        new_nodes_apart::<H, V>(published, pending, root, pairs, max_depth),
        within_height(after, new_root, max_depth),
        sorted(queried),
        forall|i: int| 0 <= i < queried.len() ==> (#[trigger] queried[i]).len() == KEY_LEN,
    ensures
        lookup::<V>(after, new_root, queried, max_depth) == Ok::<Map<Seq<u8>, V::V>, Exception>(
            answers(joined_values(old, pairs), queried),
        ),
        forall|i: int|
            0 <= i < queried.len() && old.contains_key(#[trigger] queried[i]) ==> answers(
                joined_values(old, pairs),
                queried,
            ).contains_key(queried[i]) && answers(joined_values(old, pairs), queried)[queried[i]]
                == old[queried[i]],
{
    let keys = pair_keys(pairs);
    lemma_next_tree_is_sound::<H, V>(
        published,
        pending,
        root,
        old_height,
        old,
        pairs,
        max_depth,
        new_root,
        after,
        max_depth,
    );
    lemma_lookup_in_sound_tree::<V>(
        after,
        new_root,
        max_depth,
        joined_values(old, pairs),
        queried,
        max_depth,
    );
    assert forall|i: int| 0 <= i < queried.len() && old.contains_key(#[trigger] queried[i]) implies !keys.contains(
        queried[i],
    ) by {
        if keys.contains(queried[i]) {
            let k = choose|k: int| 0 <= k < keys.len() && keys[k] == queried[i];
            assert(!old.contains_key(keys[k]));
        }
    }
}

} // verus!
