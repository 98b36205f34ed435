//! The order of keys, read bit by bit.

use vstd::prelude::*;

use crate::utils::key_order::{differ_first_at, key_le, key_lt, sorted};
use crate::utils::tree_utils::{bit_of, diverges_at, same_prefix};

verus! {

/// The highest bit in which two different bytes differ: the smaller byte
/// has it clear, the larger has it set, and above it the bytes agree.
proof fn lemma_top_difference(x: u8, y: u8) -> (h: u8)
    requires
        x < y,
    ensures
        h < 8,
        (x >> h) & 1u8 == 0u8,
        (y >> h) & 1u8 == 1u8,
        forall|k: u8| h < k < 8 ==> ((x >> k) & 1u8 == 1u8) == ((y >> k) & 1u8 == 1u8),
{
    let z = x ^ y;
    assert(z >> 0u8 == 1u8 || z >> 1u8 == 1u8 || z >> 2u8 == 1u8 || z >> 3u8 == 1u8 || z >> 4u8
        == 1u8 || z >> 5u8 == 1u8 || z >> 6u8 == 1u8 || z >> 7u8 == 1u8) by (bit_vector)
        requires
            z == x ^ y,
            x < y,
    ;
    let h: u8 = if z >> 0u8 == 1u8 {
        0
    } else if z >> 1u8 == 1u8 {
        1
    } else if z >> 2u8 == 1u8 {
        2
    } else if z >> 3u8 == 1u8 {
        3
    } else if z >> 4u8 == 1u8 {
        4
    } else if z >> 5u8 == 1u8 {
        5
    } else if z >> 6u8 == 1u8 {
        6
    } else {
        7
    };
    assert((x >> h) & 1u8 == 0u8 && (y >> h) & 1u8 == 1u8) by (bit_vector)
        requires
            h < 8,
            (x ^ y) >> h == 1u8,
            x < y,
    ;
    assert forall|k: u8| h < k < 8 implies ((x >> k) & 1u8 == 1u8) == ((y >> k) & 1u8 == 1u8) by {
        assert(((x >> k) & 1u8 == 1u8) == ((y >> k) & 1u8 == 1u8)) by (bit_vector)
            requires
                h < k < 8,
                (x ^ y) >> h == 1u8,
        ;
    }
    h
}

/// Of two keys, the one that comes first has a clear bit where the keys
/// part, and the other a set bit.
pub proof fn lemma_order_in_bits(a: Seq<u8>, b: Seq<u8>) -> (d: int)
    requires
        key_lt(a, b),
    ensures
        diverges_at(a, b, d),
        !bit_of(a, d),
        bit_of(b, d),
{
    let j = choose|j: int| #[trigger] differ_first_at(a, b, j) && a[j] < b[j];
    let h = lemma_top_difference(a[j], b[j]);
    let d = 8 * j + (7 - h);
    assert(d / 8 == j && d % 8 == 7 - h);
    assert((7 - d % 8) as u8 == h);
    assert forall|i: int| 0 <= i < d implies #[trigger] bit_of(a, i) == bit_of(b, i) by {
        if i / 8 == j {
            let k = (7 - i % 8) as u8;
            assert(h < k < 8);
        } else {
            assert(i / 8 < j);
        }
    }
    d
}

/// Keys that agree before one position agree before every earlier one.
pub proof fn lemma_prefix_shorter(a: Seq<u8>, b: Seq<u8>, n: int, m: int)
    requires
        same_prefix(a, b, n),
        m <= n,
    ensures
        same_prefix(a, b, m),
{
}

/// Agreement before a position is transitive.
pub proof fn lemma_prefix_transitive(a: Seq<u8>, b: Seq<u8>, c: Seq<u8>, n: int)
    requires
        same_prefix(a, b, n),
        same_prefix(b, c, n),
    ensures
        same_prefix(a, c, n),
{
    assert forall|i: int| 0 <= i < n implies #[trigger] bit_of(a, i) == bit_of(c, i) by {
        assert(bit_of(a, i) == bit_of(b, i));
        assert(bit_of(b, i) == bit_of(c, i));
    }
}

/// Agreement before a position is symmetric.
pub proof fn lemma_prefix_symmetric(a: Seq<u8>, b: Seq<u8>, n: int)
    requires
        same_prefix(a, b, n),
    ensures
        same_prefix(b, a, n),
{
    assert forall|i: int| 0 <= i < n implies #[trigger] bit_of(b, i) == bit_of(a, i) by {
        assert(bit_of(a, i) == bit_of(b, i));
    }
}

/// In a sorted list, the keys between two keys that agree with `x`
/// before `n` agree with `x` before `n`.
pub proof fn lemma_sorted_between(keys: Seq<Seq<u8>>, x: Seq<u8>, n: int, i: int, j: int, k: int)
    requires
        sorted(keys),
        0 <= i <= j <= k < keys.len(),
        same_prefix(keys[i], x, n),
        same_prefix(keys[k], x, n),
    ensures
        same_prefix(keys[j], x, n),
{
    if i < j && j < k && !same_prefix(keys[j], x, n) {
        lemma_prefix_symmetric(keys[k], x, n);
        lemma_prefix_transitive(keys[i], x, keys[k], n);
        assert(key_le(keys[i], keys[j]));
        assert(key_le(keys[j], keys[k]));
        if keys[i] == keys[j] {
        } else if keys[j] == keys[k] {
        } else {
            let d = lemma_order_in_bits(keys[i], keys[j]);
            let e = lemma_order_in_bits(keys[j], keys[k]);
            if d >= n {
                lemma_prefix_shorter(keys[i], keys[j], d, n);
                lemma_prefix_symmetric(keys[i], keys[j], n);
                lemma_prefix_transitive(keys[j], keys[i], x, n);
            } else {
                // keys[k] agrees with keys[i] at and before d, so it parts from keys[j] at d
                assert(bit_of(keys[i], d) == bit_of(keys[k], d));
                if e < d {
                    assert(bit_of(keys[i], e) == bit_of(keys[j], e));
                    assert(bit_of(keys[i], e) == bit_of(keys[k], e));
                } else if e > d {
                    assert(bit_of(keys[j], d) == bit_of(keys[k], d));
                }
            }
        }
    }
}

/// In a sorted list of keys that agree before `n`, no key with a clear
/// bit at `n` comes after a key with a set bit at `n`.
pub proof fn lemma_sorted_bit(keys: Seq<Seq<u8>>, n: int, i: int, j: int)
    requires
        sorted(keys),
        0 <= n,
        0 <= i <= j < keys.len(),
        same_prefix(keys[i], keys[j], n),
        bit_of(keys[i], n),
    ensures
        bit_of(keys[j], n),
{
    if i < j && !bit_of(keys[j], n) {
        assert(key_le(keys[i], keys[j]));
        if keys[i] != keys[j] {
            let d = lemma_order_in_bits(keys[i], keys[j]);
            if d < n {
                assert(bit_of(keys[i], d) == bit_of(keys[j], d));
            } else if d > n {
                assert(bit_of(keys[i], n) == bit_of(keys[j], n));
            }
        }
    }
}

} // verus!
