//! Bit arithmetic on keys.
//!
//! A key is read as a string of bits: bit `0` is the most significant bit
//! of byte `0`, bit `8` the most significant bit of byte `1`, and so on.

use vstd::prelude::*;
use vstd::slice::slice_subrange;

use crate::constants::KEY_LEN;

verus! {

/// Bit `i` of `key`: `true` when the bit is set.
pub open spec fn bit_of(key: Seq<u8>, i: int) -> bool {
    (key[i / 8] >> ((7 - i % 8) as u8)) & 1u8 == 1u8
}

/// `a` and `b` carry the same bits at all positions before `n`.
pub open spec fn same_prefix(a: Seq<u8>, b: Seq<u8>, n: int) -> bool {
    forall|i: int| 0 <= i < n ==> #[trigger] bit_of(a, i) == bit_of(b, i)
}

/// `d` is the first position at which `a` and `b` carry different bits.
pub open spec fn diverges_at(a: Seq<u8>, b: Seq<u8>, d: int) -> bool {
    &&& 0 <= d < 8 * a.len()
    &&& same_prefix(a, b, d)
    &&& bit_of(a, d) != bit_of(b, d)
}

/// The keys of a list as byte strings.
pub open spec fn key_views(keys: Seq<&[u8; KEY_LEN]>) -> Seq<Seq<u8>> {
    Seq::new(keys.len(), |i: int| keys[i]@)
}

/// The addresses of a list as byte strings.
pub open spec fn location_views(locations: Seq<[u8; KEY_LEN]>) -> Seq<Seq<u8>> {
    Seq::new(locations.len(), |i: int| locations[i]@)
}

/// The number of keys at the front of `keys` that satisfy `pred`.
pub open spec fn leading(keys: Seq<Seq<u8>>, pred: spec_fn(Seq<u8>) -> bool) -> nat
    decreases keys.len(),
{
    if keys.len() == 0 || !pred(keys[0]) {
        0
    } else {
        1 + leading(keys.drop_first(), pred)
    }
}

/// The keys at the front of `keys` whose bit at `bit` is clear.
pub open spec fn zero_side(keys: Seq<Seq<u8>>, bit: int) -> Seq<Seq<u8>> {
    keys.subrange(0, leading(keys, |k: Seq<u8>| !bit_of(k, bit)) as int)
}

/// The keys that follow the zero side.
pub open spec fn one_side(keys: Seq<Seq<u8>>, bit: int) -> Seq<Seq<u8>> {
    keys.subrange(leading(keys, |k: Seq<u8>| !bit_of(k, bit)) as int, keys.len() as int)
}

/// The first run of keys in `keys` that agree with `branch_key` on the
/// bits before `split_index`: the keys that can lie below a branch with
/// that key and split index.
pub open spec fn descendants(keys: Seq<Seq<u8>>, branch_key: Seq<u8>, split_index: int) -> Seq<
    Seq<u8>,
> {
    let start = leading(keys, |k: Seq<u8>| !same_prefix(k, branch_key, split_index)) as int;
    let rest = keys.subrange(start, keys.len() as int);
    rest.subrange(0, leading(rest, |k: Seq<u8>| same_prefix(k, branch_key, split_index)) as int)
}

/// `leading` counts the keys before the first one that fails `pred`.
pub proof fn lemma_leading(keys: Seq<Seq<u8>>, pred: spec_fn(Seq<u8>) -> bool, m: int)
    requires
        0 <= m <= keys.len(),
        forall|i: int| 0 <= i < m ==> pred(#[trigger] keys[i]),
        m == keys.len() || !pred(keys[m]),
    ensures
        leading(keys, pred) == m,
    decreases keys.len(),
{
    if m > 0 {
        let rest = keys.drop_first();
        assert forall|i: int| 0 <= i < m - 1 implies pred(#[trigger] rest[i]) by {
            assert(rest[i] == keys[i + 1]);
        }
        lemma_leading(rest, pred, m - 1);
    }
}

/// What `leading` counts: the keys before the first one that fails `pred`.
pub proof fn lemma_leading_bounds(keys: Seq<Seq<u8>>, pred: spec_fn(Seq<u8>) -> bool)
    ensures
        leading(keys, pred) <= keys.len(),
        forall|i: int| 0 <= i < leading(keys, pred) ==> pred(#[trigger] keys[i]),
        leading(keys, pred) == keys.len() || !pred(keys[leading(keys, pred) as int]),
    decreases keys.len(),
{
    if keys.len() != 0 && pred(keys[0]) {
        let rest = keys.drop_first();
        lemma_leading_bounds(rest, pred);
        assert forall|i: int| 0 <= i < leading(keys, pred) implies pred(#[trigger] keys[i]) by {
            if i > 0 {
                assert(rest[i - 1] == keys[i]);
            }
        }
    }
}

/// The position of the highest set bit of `num`, counted from the least
/// significant bit; `0` for `num == 0`.
pub fn fast_log_2(num: u8) -> (r: u8)
    ensures
        r < 8,
        num != 0 ==> num >> r == 1u8,
        num == 0 ==> r == 0,
{
    let mut r: u8 = 0;
    let mut rest: u8 = num;
    proof {
        assert(num >> 0u8 == num) by (bit_vector);
    }
    while rest > 1
        invariant
            r < 8,
            rest == num >> r,
            num == 0 ==> rest == 0 && r == 0,
            num != 0 ==> rest != 0,
        decreases rest,
    {
        proof {
            let r0 = r;
            assert(r0 < 8 && (num >> r0) > 1u8 ==> r0 < 7 && (num >> r0) >> 1u8 == num >> ((r0
                + 1) as u8) && ((num >> r0) >> 1u8) < (num >> r0) && ((num >> r0) >> 1u8) != 0)
                by (bit_vector);
        }
        rest = rest >> 1;
        r = r + 1;
    }
    r
}

/// Whether `key` goes down the zero side at position `bit`, that is,
/// whether its bit at that position is clear.
pub fn choose_zero(key: &[u8; KEY_LEN], bit: u8) -> (r: bool)
    ensures
        r == !bit_of(key@, bit as int),
{
    let index: usize = (bit >> 3) as usize;
    let shift: u8 = bit % 8;
    proof {
        assert(bit >> 3u8 == bit / 8) by (bit_vector);
        assert(index == (bit as int) / 8);
        assert((7 - (bit as int) % 8) as u8 == 7 - shift);
    }
    let shifted: u8 = key[index] >> (7 - shift);
    let extracted_bit: u8 = shifted & 1;
    proof {
        assert(shifted & 1u8 == 0u8 || shifted & 1u8 == 1u8) by (bit_vector);
    }
    extracted_bit == 0
}

/// Whether two keys are equal.
pub fn key_eq(left: &[u8; KEY_LEN], right: &[u8; KEY_LEN]) -> (r: bool)
    ensures
        r == (left@ == right@),
{
    let mut j: usize = 0;
    while j < KEY_LEN
        invariant
            j <= KEY_LEN,
            forall|k: int| 0 <= k < j ==> left@[k] == right@[k],
        decreases KEY_LEN - j,
    {
        if left[j] != right[j] {
            return false;
        }
        j = j + 1;
    }
    proof {
        assert(left@ =~= right@);
    }
    true
}

/// Above the highest bit at which two bytes differ they carry the same
/// bits, and at that bit they differ.
proof fn lemma_xor_top(x: u8, y: u8, h: u8, k: u8)
    requires
        h < 8,
        (x ^ y) >> h == 1u8,
        h <= k < 8,
    ensures
        k > h ==> ((x >> k) & 1u8 == 1u8) == ((y >> k) & 1u8 == 1u8),
        k == h ==> ((x >> k) & 1u8 == 1u8) != ((y >> k) & 1u8 == 1u8),
{
    assert(k > h ==> ((x >> k) & 1u8 == 1u8) == ((y >> k) & 1u8 == 1u8)) by (bit_vector)
        requires
            h < 8,
            (x ^ y) >> h == 1u8,
            h <= k < 8,
    ;
    assert(k == h ==> ((x >> k) & 1u8 == 1u8) != ((y >> k) & 1u8 == 1u8)) by (bit_vector)
        requires
            h < 8,
            (x ^ y) >> h == 1u8,
            h <= k < 8,
    ;
}

/// Two keys of one length that carry the same bits everywhere are equal.
pub proof fn lemma_same_bits_equal(a: Seq<u8>, b: Seq<u8>)
    requires
        a.len() == b.len(),
        same_prefix(a, b, 8 * (a.len() as int)),
    ensures
        a == b,
{
    assert forall|j: int| 0 <= j < a.len() implies a[j] == b[j] by {
        let x = a[j];
        let y = b[j];
        assert forall|k: u8| k < 8 implies ((x >> k) & 1u8 == 1u8) == ((y >> k) & 1u8 == 1u8) by {
            let i = 8 * j + (7 - k);
            assert(i / 8 == j && i % 8 == 7 - k);
            assert(bit_of(a, i) == bit_of(b, i));
            assert((7 - i % 8) as u8 == k);
        }
        assert(x == y) by (bit_vector)
            requires
                ((x >> 0u8) & 1u8 == 1u8) == ((y >> 0u8) & 1u8 == 1u8),
                ((x >> 1u8) & 1u8 == 1u8) == ((y >> 1u8) & 1u8 == 1u8),
                ((x >> 2u8) & 1u8 == 1u8) == ((y >> 2u8) & 1u8 == 1u8),
                ((x >> 3u8) & 1u8 == 1u8) == ((y >> 3u8) & 1u8 == 1u8),
                ((x >> 4u8) & 1u8 == 1u8) == ((y >> 4u8) & 1u8 == 1u8),
                ((x >> 5u8) & 1u8 == 1u8) == ((y >> 5u8) & 1u8 == 1u8),
                ((x >> 6u8) & 1u8 == 1u8) == ((y >> 6u8) & 1u8 == 1u8),
                ((x >> 7u8) & 1u8 == 1u8) == ((y >> 7u8) & 1u8 == 1u8),
        ;
    }
    assert(a =~= b);
}

/// The first position at which two keys of one length differ, or `None`
/// when they are equal.
pub fn first_diff_bit<const N: usize>(left: &[u8; N], right: &[u8; N]) -> (r: Option<usize>)
    requires
        8 * N <= usize::MAX,
    ensures
        match r {
            None => left@ == right@,
            Some(d) => diverges_at(left@, right@, d as int),
        },
{
    let mut j: usize = 0;
    while j < N
        invariant
            j <= N,
            8 * N <= usize::MAX,
            forall|k: int| 0 <= k < j ==> left@[k] == right@[k],
        decreases N - j,
    {
        if left[j] != right[j] {
            let xor_key: u8 = left[j] ^ right[j];
            let high: u8 = fast_log_2(xor_key);
            let d: usize = j * 8 + (7 - high) as usize;
            proof {
                let x = left@[j as int];
                let y = right@[j as int];
                assert(x ^ y != 0u8) by (bit_vector)
                    requires
                        x != y,
                ;
                assert forall|i: int| 0 <= i < d implies #[trigger] bit_of(left@, i) == bit_of(
                    right@,
                    i,
                ) by {
                    if i / 8 == j {
                        lemma_xor_top(x, y, high, (7 - i % 8) as u8);
                    }
                }
                assert((d as int) / 8 == j && (d as int) % 8 == 7 - high);
                lemma_xor_top(x, y, high, high);
            }
            return Some(d);
        }
        j = j + 1;
    }
    proof {
        assert(left@ =~= right@);
    }
    None
}

/// The first position at which two keys differ, or `None` when they are
/// equal.
pub fn split_bit(left: &[u8; KEY_LEN], right: &[u8; KEY_LEN]) -> (r: Option<u8>)
    ensures
        match r {
            None => left@ == right@,
            Some(d) => diverges_at(left@, right@, d as int),
        },
{
    match first_diff_bit::<KEY_LEN>(left, right) {
        None => None,
        Some(d) => Some(d as u8),
    }
}

/// Splits a list of keys by their bit at `bit`: the keys at the front
/// whose bit is clear, and the keys that follow them. On a sorted list of
/// keys that agree before `bit`, these are the keys with a clear bit and
/// the keys with a set bit.
pub fn split_pairs<'a>(sorted_pairs: &'a [&'a [u8; KEY_LEN]], bit: u8) -> (r: (
    &'a [&'a [u8; KEY_LEN]],
    &'a [&'a [u8; KEY_LEN]],
))
    ensures
        key_views(r.0@) == zero_side(key_views(sorted_pairs@), bit as int),
        key_views(r.1@) == one_side(key_views(sorted_pairs@), bit as int),
        r.0@ + r.1@ == sorted_pairs@,
{
    let mut m: usize = 0;
    while m < sorted_pairs.len() && choose_zero(sorted_pairs[m], bit)
        invariant
            m <= sorted_pairs@.len(),
            forall|i: int| 0 <= i < m ==> !bit_of((#[trigger] sorted_pairs@[i])@, bit as int),
        decreases sorted_pairs@.len() - m,
    {
        m = m + 1;
    }
    let zeros = slice_subrange(sorted_pairs, 0, m);
    let ones = slice_subrange(sorted_pairs, m, sorted_pairs.len());
    proof {
        let views = key_views(sorted_pairs@);
        let clear = |k: Seq<u8>| !bit_of(k, bit as int);
        assert forall|i: int| 0 <= i < m implies clear(#[trigger] views[i]) by {
            assert(views[i] == sorted_pairs@[i]@);
        }
        lemma_leading(views, clear, m as int);
        assert(key_views(zeros@) =~= views.subrange(0, m as int));
        assert(key_views(ones@) =~= views.subrange(m as int, views.len() as int));
        assert(zeros@ + ones@ =~= sorted_pairs@);
    }
    (zeros, ones)
}

/// Whether `key` agrees with `branch_key` on the bits before `split_index`.
pub fn is_descendant(key: &[u8; KEY_LEN], branch_key: &[u8; KEY_LEN], split_index: u8) -> (r: bool)
    ensures
        r == same_prefix(key@, branch_key@, split_index as int),
{
    match split_bit(key, branch_key) {
        None => true,
        Some(d) => {
            proof {
                if d < split_index {
                    assert(bit_of(key@, d as int) != bit_of(branch_key@, d as int));
                }
            }
            d >= split_index
        },
    }
}

/// The keys of `keys` that can lie below a branch with key `branch_key`
/// and split index `branch_split_index`: the first run of keys that agree
/// with `branch_key` on the bits before the split index. On a sorted list
/// these are all such keys.
pub fn check_descendants<'a>(
    keys: &'a [&'a [u8; KEY_LEN]],
    branch_split_index: u8,
    branch_key: &[u8; KEY_LEN],
) -> (r: &'a [&'a [u8; KEY_LEN]])
    ensures
        key_views(r@) == descendants(key_views(keys@), branch_key@, branch_split_index as int),
{
    let ghost views = key_views(keys@);
    let ghost below = |k: Seq<u8>| same_prefix(k, branch_key@, branch_split_index as int);
    let ghost stranger = |k: Seq<u8>| !same_prefix(k, branch_key@, branch_split_index as int);
    let mut start: usize = 0;
    while start < keys.len() && !is_descendant(keys[start], branch_key, branch_split_index)
        invariant
            start <= keys@.len(),
            views == key_views(keys@),
            stranger == |k: Seq<u8>| !same_prefix(k, branch_key@, branch_split_index as int),
            forall|i: int| 0 <= i < start ==> stranger(#[trigger] views[i]),
        decreases keys@.len() - start,
    {
        start = start + 1;
    }
    let mut end: usize = start;
    while end < keys.len() && is_descendant(keys[end], branch_key, branch_split_index)
        invariant
            start <= end <= keys@.len(),
            views == key_views(keys@),
            below == |k: Seq<u8>| same_prefix(k, branch_key@, branch_split_index as int),
            forall|i: int| start <= i < end ==> below(#[trigger] views[i]),
        decreases keys@.len() - end,
    {
        end = end + 1;
    }
    let r = slice_subrange(keys, start, end);
    proof {
        lemma_leading(views, stranger, start as int);
        let rest = views.subrange(start as int, views.len() as int);
        assert forall|i: int| 0 <= i < end - start implies below(#[trigger] rest[i]) by {
            assert(rest[i] == views[start + i]);
        }
        lemma_leading(rest, below, end - start);
        assert(key_views(r@) =~= rest.subrange(0, end - start));
    }
    r
}

/// The first position at which some key of `keys` differs from
/// `branch_key`, or the last position of a key where none differs before
/// it.
pub fn calc_min_split_index(keys: &[&[u8; KEY_LEN]], branch_key: &[u8; KEY_LEN]) -> (r: u8)
    ensures
        forall|i: int| 0 <= i < keys@.len() ==> same_prefix((#[trigger] keys@[i])@, branch_key@, r as int),
        r < 255 ==> exists|i: int|
            0 <= i < keys@.len() && bit_of((#[trigger] keys@[i])@, r as int) != bit_of(
                branch_key@,
                r as int,
            ),
{
    let mut min: u8 = 255;
    let mut i: usize = 0;
    while i < keys.len()
        invariant
            i <= keys@.len(),
            forall|j: int| 0 <= j < i ==> same_prefix((#[trigger] keys@[j])@, branch_key@, min as int),
            min < 255 ==> exists|j: int|
                0 <= j < i && bit_of((#[trigger] keys@[j])@, min as int) != bit_of(
                    branch_key@,
                    min as int,
                ),
        decreases keys@.len() - i,
    {
        match split_bit(keys[i], branch_key) {
            Some(d) => {
                if d < min {
                    min = d;
                }
            },
            None => {},
        }
        i = i + 1;
    }
    min
}

/// Where every key agrees with the key of a branch before its split
/// index, all keys can lie below the branch.
pub proof fn lemma_all_below(keys: Seq<Seq<u8>>, branch_key: Seq<u8>, split_index: int)
    requires
        forall|i: int| 0 <= i < keys.len() ==> same_prefix(#[trigger] keys[i], branch_key, split_index),
    ensures
        descendants(keys, branch_key, split_index) == keys,
{
    let stranger = |k: Seq<u8>| !same_prefix(k, branch_key, split_index);
    let below = |k: Seq<u8>| same_prefix(k, branch_key, split_index);
    lemma_leading(keys, stranger, 0);
    let rest = keys.subrange(0, keys.len() as int);
    assert(rest =~= keys);
    lemma_leading(rest, below, keys.len() as int);
    assert(rest.subrange(0, keys.len() as int) =~= keys);
}

} // verus!
