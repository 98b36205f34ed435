//! A batch with two equal keys is rejected.

use vstd::prelude::*;

use crate::model::insert::{batch_sorted, insert_yields, new_refs, plant_yields};
use crate::model::leaves::leaves_run;
use crate::model::trie::{key_sorted_perm, planted, ref_keys, twins_at};
use crate::model::walk::walk;
use crate::traits::{Encode, Exception, Hasher};
use crate::tree::tree_node::Store;
use crate::utils::key_order::{key_le, key_lt, lemma_key_lt_asymmetric, pair_keys, sorted};
use crate::utils::tree_ref::RefModel;

verus! {

/// Two keys of which each comes before the other or equals it are equal.
pub proof fn lemma_key_le_antisymmetric(a: Seq<u8>, b: Seq<u8>)
    requires
        key_le(a, b),
        key_le(b, a),
    ensures
        a == b,
{
    if a != b {
        lemma_key_lt_asymmetric(a, b);
    }
}

/// In a sorted list, a key that occurs again later occurs again at the
/// next place.
pub proof fn lemma_sorted_twins(keys: Seq<Seq<u8>>, i: int, j: int)
    requires
        sorted(keys),
        0 <= i < j < keys.len(),
        keys[i] == keys[j],
    ensures
        keys[i] == keys[i + 1],
{
    if j > i + 1 {
        assert(key_le(keys[i], keys[i + 1]));
        assert(key_le(keys[i + 1], keys[j]));
        lemma_key_le_antisymmetric(keys[i], keys[i + 1]);
    }
}

/// Where one list holds what another holds, each as often, and two
/// places of the one agree under `key`, two places of the other do.
pub proof fn lemma_rearranged_twins<T>(
    given: Seq<T>,
    other: Seq<T>,
    key: spec_fn(T) -> Seq<u8>,
    i: int,
    j: int,
) -> (places: (int, int))
    requires
        given.to_multiset() == other.to_multiset(),
        0 <= i < j < given.len(),
        key(given[i]) == key(given[j]),
    ensures
        0 <= places.0 < places.1 < other.len(),
        key(other[places.0]) == key(other[places.1]),
{
    given.to_multiset_ensures();
    other.to_multiset_ensures();
    if given[i] == given[j] {
        if other.no_duplicates() {
            other.lemma_multiset_has_no_duplicates();
            given.lemma_multiset_has_no_duplicates_conv();
            assert(false);
        }
        let (a, b) = choose|a: int, b: int|
            0 <= a < other.len() && 0 <= b < other.len() && a != b && other[a] == other[b];
        if a < b {
            (a, b)
        } else {
            (b, a)
        }
    } else {
        assert(given.contains(given[i]));
        assert(given.contains(given[j]));
        assert(other.to_multiset().count(given[i]) > 0);
        assert(other.to_multiset().count(given[j]) > 0);
        assert(other.contains(given[i]));
        assert(other.contains(given[j]));
        let a = choose|a: int| 0 <= a < other.len() && other[a] == given[i];
        let b = choose|b: int| 0 <= b < other.len() && other[b] == given[j];
        if a < b {
            (a, b)
        } else {
            (b, a)
        }
    }
}

/// No tree is built over subtrees of which two carry the same key.
pub proof fn lemma_twins_are_not_planted<H: Hasher>(
    store: Store,
    given: Seq<RefModel>,
    outcome: Result<(Seq<u8>, Store), Exception>,
    i: int,
    j: int,
)
    requires
        plant_yields::<H>(store, given, outcome),
        0 <= i < j < given.len(),
        given[i].key == given[j].key,
    ensures
        outcome == Err::<(Seq<u8>, Store), Exception>(Exception::DuplicateKey),
{
    let sorted_refs = choose|sorted_refs: Seq<RefModel>| #[trigger]
        key_sorted_perm(sorted_refs, given) && planted::<H>(store, sorted_refs) == outcome;
    let (a, b) = lemma_rearranged_twins(given, sorted_refs, |r: RefModel| r.key, i, j);
    let keys = ref_keys(sorted_refs);
    assert(keys[a] == keys[b]);
    lemma_sorted_twins(keys, a, b);
    assert(twins_at(sorted_refs, a));
}

/// The insertion of a batch in which a key occurs twice fails. Where
/// the values can be encoded and the walk through the earlier tree does
/// not fail, it fails with `DuplicateKey`.
pub proof fn lemma_duplicate_keys_are_rejected<H: Hasher, V: Encode>(
    published: Store,
    store: Store,
    previous_root: Option<Seq<u8>>,
    batch: Seq<(Seq<u8>, V::V)>,
    pairs: Seq<(Seq<u8>, V::V)>,
    max_depth: nat,
    outcome: Result<(Seq<u8>, Store), Exception>,
    i: int,
    j: int,
)
    requires
        batch_sorted(pairs, batch),
        insert_yields::<H, V>(published, store, previous_root, pairs, max_depth, outcome),
        0 <= i < j < batch.len(),
        batch[i].0 == batch[j].0,
    ensures
        outcome is Err,
        leaves_run::<H, V>(published, store, pairs) matches Ok((locations, with_leaves)) ==> (
        previous_root matches Some(root) ==> walk(
            published,
            with_leaves,
            root,
            pair_keys(pairs),
            locations,
            max_depth,
        ) is Ok) ==> outcome == Err::<(Seq<u8>, Store), Exception>(Exception::DuplicateKey),
{
    let (a, b) = lemma_rearranged_twins(batch, pairs, |p: (Seq<u8>, V::V)| p.0, i, j);
    match leaves_run::<H, V>(published, store, pairs) {
        Err(e) => {},
        Ok((locations, with_leaves)) => {
            crate::model::leaves::lemma_leaves_run_len::<H, V>(published, store, pairs);
            let fresh = new_refs(pair_keys(pairs), locations);
            assert(fresh[a].key == fresh[b].key);
            match previous_root {
                None => {
                    lemma_twins_are_not_planted::<H>(with_leaves, fresh, outcome, a, b);
                },
                Some(root) => {
                    match walk(published, with_leaves, root, pair_keys(pairs), locations, max_depth) {
                        Err(e) => {},
                        Ok((kept, counted)) => {
                            assert((fresh + kept)[a] == fresh[a]);
                            assert((fresh + kept)[b] == fresh[b]);
                            lemma_twins_are_not_planted::<H>(
                                counted,
                                fresh + kept,
                                outcome,
                                a,
                                b,
                            );
                        },
                    }
                },
            }
        },
    }
}

/// A sorted batch in which no key occurs twice is sorted without
/// repeats, and its keys have the length of the keys of the batch.
pub proof fn lemma_batch_without_repeats<T>(batch: Seq<(Seq<u8>, T)>, pairs: Seq<(Seq<u8>, T)>)
    requires
        batch_sorted(pairs, batch),
        forall|i: int, j: int| 0 <= i < j < batch.len() ==> batch[i].0 != batch[j].0,
    ensures
        pairs.len() == batch.len(),
        crate::utils::key_order::strictly_sorted(pair_keys(pairs)),
        forall|i: int| 0 <= i < pairs.len() ==> batch.contains(#[trigger] pairs[i]),
{
    let keys = pair_keys(pairs);
    pairs.to_multiset_ensures();
    batch.to_multiset_ensures();
    assert forall|i: int, j: int| 0 <= i < j < keys.len() implies key_lt(
        #[trigger] keys[i],
        #[trigger] keys[j],
    ) by {
        assert(key_le(keys[i], keys[j]));
        if keys[i] == keys[j] {
            let (a, b) = lemma_rearranged_twins(pairs, batch, |p: (Seq<u8>, T)| p.0, i, j);
        }
    }
    assert forall|i: int| 0 <= i < pairs.len() implies batch.contains(#[trigger] pairs[i]) by {
        assert(pairs.contains(pairs[i]));
        assert(batch.to_multiset().count(pairs[i]) > 0);
    }
}

} // verus!
