//! The order of keys, and what the engine does with a sorted list of keys.
//!
//! Keys are ordered as byte strings: at the first byte in which two keys
//! differ, the key with the smaller byte comes first.

use rayon::slice::ParallelSliceMut;
use vstd::prelude::*;

use crate::constants::KEY_LEN;
use crate::utils::tree_ref::{ref_models, TreeRef};
use crate::utils::tree_utils::key_views;

verus! {

/// `a` and `b` agree before byte `j` and differ there.
pub open spec fn differ_first_at(a: Seq<u8>, b: Seq<u8>, j: int) -> bool {
    &&& 0 <= j < a.len()
    &&& j < b.len()
    &&& forall|i: int| 0 <= i < j ==> a[i] == b[i]
    &&& a[j] != b[j]
}

/// `a` comes before `b`.
pub open spec fn key_lt(a: Seq<u8>, b: Seq<u8>) -> bool {
    exists|j: int| #[trigger] differ_first_at(a, b, j) && a[j] < b[j]
}

/// `a` comes before `b` or equals it.
pub open spec fn key_le(a: Seq<u8>, b: Seq<u8>) -> bool {
    a == b || key_lt(a, b)
}

/// No key of `keys` comes before an earlier one.
pub open spec fn sorted(keys: Seq<Seq<u8>>) -> bool {
    forall|i: int, j: int| 0 <= i < j < keys.len() ==> key_le(#[trigger] keys[i], #[trigger] keys[j])
}

/// Each key of `keys` comes before all later ones.
pub open spec fn strictly_sorted(keys: Seq<Seq<u8>>) -> bool {
    forall|i: int, j: int| 0 <= i < j < keys.len() ==> key_lt(#[trigger] keys[i], #[trigger] keys[j])
}

/// `keys` without the keys that repeat the key just before them.
pub open spec fn dedup_adjacent(keys: Seq<Seq<u8>>) -> Seq<Seq<u8>>
    decreases keys.len(),
{
    if keys.len() <= 1 {
        keys
    } else if keys[keys.len() - 1] == keys[keys.len() - 2] {
        dedup_adjacent(keys.drop_last())
    } else {
        dedup_adjacent(keys.drop_last()).push(keys.last())
    }
}

/// No key comes before itself.
pub proof fn lemma_key_lt_irreflexive(a: Seq<u8>)
    ensures
        !key_lt(a, a),
{
}

/// Of two keys, at most one comes before the other.
pub proof fn lemma_key_lt_asymmetric(a: Seq<u8>, b: Seq<u8>)
    requires
        key_lt(a, b),
    ensures
        !key_lt(b, a),
{
    let j = choose|j: int| #[trigger] differ_first_at(a, b, j) && a[j] < b[j];
    if key_lt(b, a) {
        let k = choose|k: int| #[trigger] differ_first_at(b, a, k) && b[k] < a[k];
        assert(differ_first_at(a, b, k));
    }
}

/// The order of keys is transitive.
pub proof fn lemma_key_lt_transitive(a: Seq<u8>, b: Seq<u8>, c: Seq<u8>)
    requires
        key_lt(a, b),
        key_lt(b, c),
    ensures
        key_lt(a, c),
{
    let j = choose|j: int| #[trigger] differ_first_at(a, b, j) && a[j] < b[j];
    let k = choose|k: int| #[trigger] differ_first_at(b, c, k) && b[k] < c[k];
    let m = if j <= k {
        j
    } else {
        k
    };
    assert(differ_first_at(a, c, m));
}

/// The order of keys is transitive, also where keys may be equal.
pub proof fn lemma_key_le_lt(a: Seq<u8>, b: Seq<u8>, c: Seq<u8>)
    requires
        key_le(a, b),
        key_lt(b, c),
    ensures
        key_lt(a, c),
{
    if a != b {
        lemma_key_lt_transitive(a, b, c);
    }
}

/// The order of keys is transitive, also where keys may be equal.
pub proof fn lemma_key_lt_le(a: Seq<u8>, b: Seq<u8>, c: Seq<u8>)
    requires
        key_lt(a, b),
        key_le(b, c),
    ensures
        key_lt(a, c),
{
    if b != c {
        lemma_key_lt_transitive(a, b, c);
    }
}

/// How one key stands to another.
#[derive(Clone, Copy, Debug, PartialEq, Eq, Structural)]
pub enum KeyOrder {
    /// The first key comes before the second.
    Before,
    /// The keys are equal.
    Same,
    /// The first key comes after the second.
    After,
}

/// How `left` stands to `right`.
pub fn key_order(left: &[u8; KEY_LEN], right: &[u8; KEY_LEN]) -> (r: KeyOrder)
    ensures
        match r {
            KeyOrder::Before => key_lt(left@, right@),
            KeyOrder::Same => left@ == right@,
            KeyOrder::After => key_lt(right@, left@),
        },
{
    let mut j: usize = 0;
    while j < KEY_LEN
        invariant
            j <= KEY_LEN,
            forall|k: int| 0 <= k < j ==> left@[k] == right@[k],
        decreases KEY_LEN - j,
    {
        if left[j] < right[j] {
            proof {
                assert(differ_first_at(left@, right@, j as int));
            }
            return KeyOrder::Before;
        }
        if left[j] > right[j] {
            proof {
                assert(differ_first_at(right@, left@, j as int));
            }
            return KeyOrder::After;
        }
        j = j + 1;
    }
    proof {
        assert(left@ =~= right@);
    }
    KeyOrder::Same
}

/// Sorts a list of keys with `par_sort` of rayon's `ParallelSliceMut`,
/// a stable merge sort by the order of the elements. The elements are
/// references to byte arrays, which std compares byte by byte. Trusted:
/// the list afterwards holds the keys it held before, each as often as
/// before, and is sorted.
#[verifier::external_body]
pub(crate) fn sort_keys(keys: &mut [&[u8; KEY_LEN]])
    ensures
        key_views(final(keys)@).to_multiset() == key_views(old(keys)@).to_multiset(),
        final(keys)@.len() == old(keys)@.len(),
        sorted(key_views(final(keys)@)),
{
    keys.par_sort();
}

/// Sorts a list of subtrees by their keys with `sort_by_key` of std, a
/// stable sort. Trusted: the list afterwards holds the subtrees it held
/// before, each as often as before, in the order of their keys.
#[verifier::external_body]
pub(crate) fn sort_tree_refs(refs: &mut Vec<TreeRef>)
    ensures
        ref_models(final(refs)@).to_multiset() == ref_models(old(refs)@).to_multiset(),
        final(refs)@.len() == old(refs)@.len(),
        sorted(Seq::new(final(refs)@.len(), |i: int| final(refs)@[i].key@)),
{
    refs.sort_by_key(|r| r.key);
}

/// The keys and values of a batch as plain values.
pub open spec fn pair_models<V: View>(pairs: Seq<(&[u8; KEY_LEN], &V)>) -> Seq<(Seq<u8>, V::V)> {
    Seq::new(pairs.len(), |i: int| (pairs[i].0@, pairs[i].1@))
}

/// The keys of a batch.
pub open spec fn pair_keys<T>(pairs: Seq<(Seq<u8>, T)>) -> Seq<Seq<u8>> {
    Seq::new(pairs.len(), |i: int| pairs[i].0)
}

/// Sorts the pairs of a batch by their keys with `sort_by_key` of std, a
/// stable sort. The keys are references to byte arrays, which std
/// compares byte by byte. Trusted: the list afterwards holds the pairs
/// it held before, each as often as before, in the order of their keys.
#[verifier::external_body]
pub(crate) fn sort_pairs<V: View>(pairs: &mut Vec<(&[u8; KEY_LEN], &V)>)
    ensures
        pair_models(final(pairs)@).to_multiset() == pair_models(old(pairs)@).to_multiset(),
        final(pairs)@.len() == old(pairs)@.len(),
        sorted(pair_keys(pair_models(final(pairs)@))),
{
    pairs.sort_by_key(|p| p.0);
}

/// Something that carries a key.
pub trait Keyed {
    /// The key that this carries.
    spec fn key_view(&self) -> Seq<u8>;

    /// The key that this carries.
    fn key(&self) -> (r: &[u8; KEY_LEN])
        ensures
            r@ == self.key_view(),
    ;
}

impl<'a> Keyed for &'a [u8; KEY_LEN] {
    open spec fn key_view(&self) -> Seq<u8> {
        (*self)@
    }

    fn key(&self) -> (r: &[u8; KEY_LEN]) {
        *self
    }
}

impl<'a, V> Keyed for (&'a [u8; KEY_LEN], Option<V>) {
    open spec fn key_view(&self) -> Seq<u8> {
        self.0@
    }

    fn key(&self) -> (r: &[u8; KEY_LEN]) {
        self.0
    }
}

/// The keys that the items of a list carry.
pub open spec fn keys_of<T: Keyed>(items: Seq<T>) -> Seq<Seq<u8>> {
    Seq::new(items.len(), |i: int| items[i].key_view())
}

/// The place of `key` in a list of items that is sorted by key: a binary
/// search.
pub(crate) fn find_keyed<T: Keyed>(items: &[T], key: &[u8; KEY_LEN]) -> (r: Option<usize>)
    requires
        sorted(keys_of(items@)),
    ensures
        match r {
            Some(i) => i < items@.len() && items@[i as int].key_view() == key@,
            None => !keys_of(items@).contains(key@),
        },
{
    let ghost views = keys_of(items@);
    let mut low: usize = 0;
    let mut high: usize = items.len();
    while low < high
        invariant
            low <= high <= items@.len(),
            views == keys_of(items@),
            sorted(views),
            forall|i: int| 0 <= i < low ==> key_lt(#[trigger] views[i], key@),
            forall|i: int| high <= i < views.len() ==> key_lt(key@, #[trigger] views[i]),
        decreases high - low,
    {
        let mid: usize = low + (high - low) / 2;
        assert(views[mid as int] == items@[mid as int].key_view());
        match key_order(items[mid].key(), key) {
            KeyOrder::Same => {
                return Some(mid);
            },
            KeyOrder::Before => {
                proof {
                    assert forall|i: int| 0 <= i < mid + 1 implies key_lt(
                        #[trigger] views[i],
                        key@,
                    ) by {
                        if i < mid {
                            lemma_key_le_lt(views[i], views[mid as int], key@);
                        }
                    }
                }
                low = mid + 1;
            },
            KeyOrder::After => {
                proof {
                    assert forall|i: int| mid <= i < views.len() implies key_lt(
                        key@,
                        #[trigger] views[i],
                    ) by {
                        if i > mid {
                            lemma_key_lt_le(key@, views[mid as int], views[i]);
                        }
                    }
                }
                high = mid;
            },
        }
    }
    proof {
        assert forall|i: int| 0 <= i < views.len() implies views[i] != key@ by {
            lemma_key_lt_irreflexive(key@);
        }
    }
    None
}

/// The place of `key` in a sorted list of keys.
pub(crate) fn find_key(keys: &[&[u8; KEY_LEN]], key: &[u8; KEY_LEN]) -> (r: Option<usize>)
    requires
        sorted(key_views(keys@)),
    ensures
        match r {
            Some(i) => i < keys@.len() && keys@[i as int]@ == key@,
            None => !key_views(keys@).contains(key@),
        },
{
    proof {
        assert(keys_of(keys@) =~= key_views(keys@));
    }
    find_keyed(keys, key)
}

/// The last place of `key` in `keys`, or -1 where it is not among them.
pub open spec fn last_index_of(keys: Seq<Seq<u8>>, key: Seq<u8>) -> int
    decreases keys.len(),
{
    if keys.len() == 0 {
        -1
    } else if keys.last() == key {
        keys.len() - 1
    } else {
        last_index_of(keys.drop_last(), key)
    }
}

/// `last_index_of` gives the place of `key` after which it does not occur.
pub proof fn lemma_last_index_of(keys: Seq<Seq<u8>>, key: Seq<u8>, place: int)
    requires
        -1 <= place < keys.len(),
        place >= 0 ==> keys[place] == key,
        forall|j: int| place < j < keys.len() ==> keys[j] != key,
    ensures
        last_index_of(keys, key) == place,
    decreases keys.len(),
{
    if keys.len() != 0 && keys.last() != key {
        let front = keys.drop_last();
        assert forall|j: int| place < j < front.len() implies front[j] != key by {
            assert(front[j] == keys[j]);
        }
        lemma_last_index_of(front, key, place);
    }
}

/// The last place of `key` in a sorted list of keys.
pub(crate) fn find_last_key(keys: &[&[u8; KEY_LEN]], key: &[u8; KEY_LEN]) -> (r: Option<usize>)
    requires
        sorted(key_views(keys@)),
    ensures
        match r {
            Some(i) => i < keys@.len() && i == last_index_of(key_views(keys@), key@),
            None => last_index_of(key_views(keys@), key@) == -1,
        },
{
    let ghost views = key_views(keys@);
    match find_key(keys, key) {
        None => {
            proof {
                assert forall|j: int| -1 < j < views.len() implies views[j] != key@ by {
                    assert(views.contains(views[j]));
                }
                lemma_last_index_of(views, key@, -1);
            }
            None
        },
        Some(first) => {
            let mut i: usize = first;
            while i + 1 < keys.len() && crate::utils::tree_utils::key_eq(keys[i + 1], key)
                invariant
                    i < keys.len(),
                    views == key_views(keys@),
                    views[i as int] == key@,
                decreases keys@.len() - i,
            {
                assert(views[i + 1] == keys@[i + 1]@);
                i = i + 1;
            }
            proof {
                assert forall|j: int| i < j < views.len() implies views[j] != key@ by {
                    assert(views[i + 1] == keys@[i + 1]@);
                    assert(key_le(views[i as int], views[i + 1]));
                    assert(key_lt(key@, views[i + 1]));
                    if j > i + 1 {
                        assert(key_le(views[i + 1], views[j]));
                    }
                    lemma_key_lt_le(key@, views[i + 1], views[j]);
                    lemma_key_lt_irreflexive(key@);
                }
                lemma_last_index_of(views, key@, i as int);
            }
            Some(i)
        },
    }
}

/// The keys of the entries of a lookup result.
pub open spec fn entry_keys<V>(entries: Seq<(&[u8; KEY_LEN], Option<V>)>) -> Seq<Seq<u8>> {
    Seq::new(entries.len(), |i: int| entries[i].0@)
}

/// Dropping repeated keys from a sorted list leaves each key once, in
/// order.
pub proof fn lemma_dedup_adjacent(keys: Seq<Seq<u8>>)
    requires
        sorted(keys),
    ensures
        strictly_sorted(dedup_adjacent(keys)),
        forall|k: Seq<u8>| dedup_adjacent(keys).contains(k) <==> keys.contains(k),
        keys.len() > 0 ==> dedup_adjacent(keys).len() > 0 && dedup_adjacent(keys).last()
            == keys.last(),
    decreases keys.len(),
{
    let out = dedup_adjacent(keys);
    if keys.len() <= 1 {
    } else {
        let front = keys.drop_last();
        assert forall|i: int, j: int| 0 <= i < j < front.len() implies key_le(
            #[trigger] front[i],
            #[trigger] front[j],
        ) by {
            assert(front[i] == keys[i] && front[j] == keys[j]);
        }
        lemma_dedup_adjacent(front);
        let inner = dedup_adjacent(front);
        assert(front.last() == keys[keys.len() - 2]);
        assert forall|k: Seq<u8>| out.contains(k) <==> keys.contains(k) by {
            if out.contains(k) {
                let i = choose|i: int| 0 <= i < out.len() && out[i] == k;
                if i < inner.len() {
                    assert(inner[i] == k);
                    assert(inner.contains(k));
                    assert(front.contains(k));
                    let j = choose|j: int| 0 <= j < front.len() && front[j] == k;
                    assert(keys[j] == k);
                } else {
                    assert(keys[keys.len() - 1] == k);
                }
            }
            if keys.contains(k) {
                let j = choose|j: int| 0 <= j < keys.len() && keys[j] == k;
                if j < keys.len() - 1 {
                    assert(front[j] == k);
                    assert(front.contains(k));
                    assert(inner.contains(k));
                    let i = choose|i: int| 0 <= i < inner.len() && inner[i] == k;
                    assert(out[i] == k);
                } else if keys[keys.len() - 1] == keys[keys.len() - 2] {
                    assert(front[keys.len() - 2] == k);
                    assert(front.contains(k));
                    assert(inner.contains(k));
                    let i = choose|i: int| 0 <= i < inner.len() && inner[i] == k;
                    assert(out[i] == k);
                } else {
                    assert(out[out.len() - 1] == k);
                }
            }
        }
        if keys[keys.len() - 1] != keys[keys.len() - 2] {
            assert forall|i: int, j: int| 0 <= i < j < out.len() implies key_lt(
                #[trigger] out[i],
                #[trigger] out[j],
            ) by {
                if j < inner.len() {
                    assert(out[i] == inner[i] && out[j] == inner[j]);
                } else {
                    assert(out[i] == inner[i]);
                    assert(key_le(inner[i], inner.last())) by {
                        if i < inner.len() - 1 {
                            assert(key_lt(inner[i], inner[inner.len() - 1]));
                        }
                    }
                    assert(key_le(keys[keys.len() - 2], keys[keys.len() - 1]));
                    lemma_key_le_lt(inner[i], keys[keys.len() - 2], keys[keys.len() - 1]);
                }
            }
        }
    }
}

/// The entries of a lookup result before anything is found: one entry
/// for each key of `keys` that does not repeat the key just before it,
/// in the order of `keys`.
pub fn generate_leaf_map<'a, V>(keys: &[&'a [u8; KEY_LEN]]) -> (r: Vec<
    (&'a [u8; KEY_LEN], Option<V>),
>)
    ensures
        entry_keys(r@) == dedup_adjacent(key_views(keys@)),
        forall|i: int| 0 <= i < r@.len() ==> (#[trigger] r@[i]).1 is None,
{
    let ghost views = key_views(keys@);
    let mut leaf_map: Vec<(&'a [u8; KEY_LEN], Option<V>)> = Vec::new();
    let mut i: usize = 0;
    proof {
        assert(entry_keys(leaf_map@) =~= dedup_adjacent(views.subrange(0, 0)));
    }
    while i < keys.len()
        invariant
            i <= keys@.len(),
            views == key_views(keys@),
            entry_keys(leaf_map@) == dedup_adjacent(views.subrange(0, i as int)),
            forall|j: int| 0 <= j < leaf_map@.len() ==> (#[trigger] leaf_map@[j]).1 is None,
        decreases keys@.len() - i,
    {
        let ghost before = leaf_map@;
        let ghost upto = views.subrange(0, i + 1);
        proof {
            assert(upto.drop_last() =~= views.subrange(0, i as int));
            assert(upto.last() == keys@[i as int]@);
            if i > 0 {
                assert(upto[i - 1] == keys@[i - 1]@);
            }
        }
        if i == 0 || !crate::utils::tree_utils::key_eq(keys[i], keys[i - 1]) {
            leaf_map.push((keys[i], None));
            proof {
                if i == 0 {
                    assert(views.subrange(0, 0) =~= Seq::<Seq<u8>>::empty());
                    assert(entry_keys(leaf_map@) =~= upto);
                } else {
                    assert(entry_keys(leaf_map@) =~= entry_keys(before).push(upto.last()));
                }
            }
        }
        i = i + 1;
    }
    proof {
        assert(views.subrange(0, i as int) =~= views);
    }
    leaf_map
}

/// The place of `key` among the entries of a lookup result.
pub(crate) fn find_entry<V>(entries: &Vec<(&[u8; KEY_LEN], Option<V>)>, key: &[u8; KEY_LEN]) -> (r:
    Option<usize>)
    requires
        strictly_sorted(entry_keys(entries@)),
    ensures
        match r {
            Some(i) => i < entries@.len() && entries@[i as int].0@ == key@,
            None => !entry_keys(entries@).contains(key@),
        },
{
    proof {
        let keys = entry_keys(entries@);
        assert(keys_of(entries@) =~= keys);
        assert forall|i: int, j: int| 0 <= i < j < keys.len() implies key_le(
            #[trigger] keys[i],
            #[trigger] keys[j],
        ) by {
            assert(key_lt(keys[i], keys[j]));
        }
    }
    find_keyed(entries.as_slice(), key)
}

} // verus!
