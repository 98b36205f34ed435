//! The bits at which the neighbours of a sorted list of keys part.

use vstd::prelude::*;

use crate::constants::KEY_LEN;
use crate::model::trie::{before, first_difference, lemma_first_difference};
use crate::theorems::bits::{lemma_order_in_bits, lemma_prefix_transitive};
use crate::utils::key_order::{key_lt, strictly_sorted};
use crate::utils::tree_utils::{bit_of, same_prefix};

verus! {

/// `splits` holds the bits at which the neighbours of the sorted list
/// `keys` part: before its split bit each pair agrees, and at the split
/// bit the first key of the pair has a clear bit and the second a set
/// bit.
pub open spec fn parting(keys: Seq<Seq<u8>>, splits: Seq<u8>) -> bool {
    &&& keys.len() == splits.len() + 1
    &&& forall|i: int| 0 <= i < keys.len() ==> (#[trigger] keys[i]).len() == KEY_LEN
    &&& forall|i: int|
        0 <= i < splits.len() ==> same_prefix(keys[i], keys[i + 1], #[trigger] splits[i] as int)
            && !bit_of(keys[i], splits[i] as int) && bit_of(keys[i + 1], splits[i] as int)
}

/// The bits at which the neighbours of a list of keys part.
pub open spec fn key_splits(keys: Seq<Seq<u8>>) -> Seq<u8> {
    Seq::new((keys.len() - 1) as nat, |i: int| first_difference(keys[i], keys[i + 1]) as u8)
}

/// The neighbours of a list of keys that is sorted without repeats part
/// as `key_splits` says.
pub proof fn lemma_parting(keys: Seq<Seq<u8>>)
    requires
        keys.len() > 0,
        strictly_sorted(keys),
        forall|i: int| 0 <= i < keys.len() ==> (#[trigger] keys[i]).len() == KEY_LEN,
    ensures
        parting(keys, key_splits(keys)),
{
    let splits = key_splits(keys);
    assert forall|i: int| 0 <= i < splits.len() implies same_prefix(
        keys[i],
        keys[i + 1],
        #[trigger] splits[i] as int,
    ) && !bit_of(keys[i], splits[i] as int) && bit_of(keys[i + 1], splits[i] as int) by {
        assert(key_lt(keys[i], keys[i + 1]));
        let d = lemma_order_in_bits(keys[i], keys[i + 1]);
        lemma_first_difference(keys[i], keys[i + 1], d);
    }
}

/// Keys between which all pairs part at `n` or later agree before `n`.
pub proof fn lemma_chain(keys: Seq<Seq<u8>>, splits: Seq<u8>, i: int, j: int, n: int)
    requires
        parting(keys, splits),
        0 <= i <= j < keys.len(),
        forall|q: int| i <= q < j ==> #[trigger] splits[q] >= n,
    ensures
        same_prefix(keys[i], keys[j], n),
    decreases j - i,
{
    if i < j {
        lemma_chain(keys, splits, i, j - 1, n);
        assert(splits[j - 1] >= n);
        assert(same_prefix(keys[j - 1], keys[j], splits[j - 1] as int));
        lemma_prefix_transitive(keys[i], keys[j - 1], keys[j], n);
    }
}

/// After a pair that parts at `n`, the keys have a set bit at `n` as far
/// as the pairs part later than `n`, and no pair parts at `n` as far as
/// the pairs part at `n` or later.
proof fn lemma_ones_stay(keys: Seq<Seq<u8>>, splits: Seq<u8>, q: int, x: int, n: int)
    requires
        parting(keys, splits),
        0 <= q < x < keys.len(),
        splits[q] == n,
        forall|k: int| q < k < x ==> #[trigger] splits[k] >= n,
    ensures
        bit_of(keys[x], n),
        forall|k: int| q < k < x ==> #[trigger] splits[k] > n,
    decreases x - q,
{
    if x > q + 1 {
        lemma_ones_stay(keys, splits, q, x - 1, n);
        assert(splits[x - 1] >= n);
        assert(same_prefix(keys[x - 1], keys[x], splits[x - 1] as int));
        if splits[x - 1] != n {
            assert(bit_of(keys[x - 1], n) == bit_of(keys[x], n));
        }
    } else {
        assert(splits[q] == n);
    }
}

/// All pairs of a run part later than the pair that is joined last.
pub proof fn lemma_top_parts_first(keys: Seq<Seq<u8>>, splits: Seq<u8>, a: int, e: int, p: int)
    requires
        parting(keys, splits),
        0 <= a <= p < e < keys.len(),
        forall|q: int| a <= q < e && q != p ==> before(splits, q, p),
    ensures
        forall|q: int| a <= q < e && q != p ==> #[trigger] splits[q] > splits[p],
{
    assert forall|q: int| a <= q < e && q != p implies #[trigger] splits[q] > splits[p] by {
        assert(before(splits, q, p));
        if splits[q] == splits[p] {
            assert forall|k: int| q < k < p + 1 implies #[trigger] splits[k] >= splits[p] by {
                if k != p {
                    assert(before(splits, k, p));
                }
            }
            lemma_ones_stay(keys, splits, q, p, splits[p] as int);
        }
    }
}

/// Where pair `p` is joined last in a run, the keys of the run agree
/// before its split bit; up to `p` they have a clear bit there, and after
/// `p` a set bit.
pub proof fn lemma_run_sides(keys: Seq<Seq<u8>>, splits: Seq<u8>, a: int, e: int, p: int, x: int)
    requires
        parting(keys, splits),
        0 <= a <= p < e < keys.len(),
        forall|q: int| a <= q < e && q != p ==> before(splits, q, p),
        a <= x <= e,
    ensures
        same_prefix(keys[x], keys[a], splits[p] as int),
        bit_of(keys[x], splits[p] as int) == (x > p),
{
    let n = splits[p] as int;
    lemma_top_parts_first(keys, splits, a, e, p);
    assert forall|q: int| a <= q < x implies #[trigger] splits[q] >= n by {
        if q != p {
            assert(splits[q] > splits[p]);
        }
    }
    lemma_chain(keys, splits, a, x, n);
    crate::theorems::bits::lemma_prefix_symmetric(keys[a], keys[x], n);
    if x <= p {
        assert forall|q: int| x <= q < p implies #[trigger] splits[q] >= n + 1 by {
            assert(splits[q] > splits[p]);
        }
        lemma_chain(keys, splits, x, p, n + 1);
        assert(bit_of(keys[x], n) == bit_of(keys[p], n));
    } else {
        assert forall|q: int| p + 1 <= q < x implies #[trigger] splits[q] >= n + 1 by {
            assert(splits[q] > splits[p]);
        }
        lemma_chain(keys, splits, p + 1, x, n + 1);
        assert(bit_of(keys[p + 1], n) == bit_of(keys[x], n));
    }
}

} // verus!
