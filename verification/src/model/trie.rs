//! The tree that is built over a sorted list of subtrees.
//!
//! Neighbours in the list are joined by branches. The pair of neighbours
//! whose keys part at the deepest bit is joined first, and of two pairs
//! that part at the same bit the one further to the front.

use vstd::prelude::*;

use crate::model::leaves::branch_address;
use crate::traits::{Exception, Hasher};
use crate::utils::key_order::sorted;
use crate::utils::tree_utils::diverges_at;
use crate::tree::tree_node::{NodeKind, NodeModel, Store};
use crate::utils::tree_ref::RefModel;

verus! {

/// Pair `p` is joined before pair `q`. Pair `p` is the pair of the
/// subtrees `p` and `p + 1`, and `splits[p]` the bit at which they part.
pub open spec fn before(splits: Seq<u8>, p: int, q: int) -> bool {
    splits[p] > splits[q] || (splits[p] == splits[q] && p < q)
}

/// The smallest `r` such that `pred` holds from `r` up to `x`, `x` left out.
pub open spec fn reach_left(pred: spec_fn(int) -> bool, x: int) -> int
    decreases x,
{
    if x > 0 && pred(x - 1) {
        reach_left(pred, x - 1)
    } else {
        x
    }
}

/// The largest `r` up to `last` such that `pred` holds from `e` up to `r`,
/// `r` left out.
pub open spec fn reach_right(pred: spec_fn(int) -> bool, e: int, last: int) -> int
    decreases last - e,
{
    if e < last && pred(e) {
        reach_right(pred, e + 1, last)
    } else {
        e
    }
}

/// The first subtree of the run that pair `p` joins: all pairs from there
/// up to `p` are joined before `p`.
pub open spec fn run_low(splits: Seq<u8>, p: int) -> int {
    reach_left(|q: int| before(splits, q, p), p)
}

/// The last subtree of the run that pair `p` joins: all pairs after `p`
/// up to there are joined before `p`.
pub open spec fn run_high(splits: Seq<u8>, p: int) -> int {
    reach_right(|q: int| before(splits, q, p), p + 1, splits.len() as int)
}

/// The pair that is joined last among the pairs from `a` up to `e`, `e`
/// left out.
pub open spec fn last_pair(splits: Seq<u8>, a: int, e: int) -> int
    decreases e - a,
{
    if e - a <= 1 {
        a
    } else {
        let p = last_pair(splits, a, e - 1);
        if before(splits, p, e - 1) {
            e - 1
        } else {
            p
        }
    }
}

/// What `reach_left` gives.
pub proof fn lemma_reach_left(pred: spec_fn(int) -> bool, x: int)
    requires
        0 <= x,
    ensures
        0 <= reach_left(pred, x) <= x,
        forall|q: int| reach_left(pred, x) <= q < x ==> #[trigger] pred(q),
        reach_left(pred, x) == 0 || !pred(reach_left(pred, x) - 1),
    decreases x,
{
    if x > 0 && pred(x - 1) {
        lemma_reach_left(pred, x - 1);
    }
}

/// `reach_left` gives `r` where `pred` holds from `r` up to `x` and not
/// just before `r`.
pub proof fn lemma_reach_left_is(pred: spec_fn(int) -> bool, x: int, r: int)
    requires
        0 <= r <= x,
        forall|q: int| r <= q < x ==> #[trigger] pred(q),
        r == 0 || !pred(r - 1),
    ensures
        reach_left(pred, x) == r,
    decreases x,
{
    if x > r {
        lemma_reach_left_is(pred, x - 1, r);
    }
}

/// What `reach_right` gives.
pub proof fn lemma_reach_right(pred: spec_fn(int) -> bool, e: int, last: int)
    requires
        e <= last,
    ensures
        e <= reach_right(pred, e, last) <= last,
        forall|q: int| e <= q < reach_right(pred, e, last) ==> #[trigger] pred(q),
        reach_right(pred, e, last) == last || !pred(reach_right(pred, e, last)),
    decreases last - e,
{
    if e < last && pred(e) {
        lemma_reach_right(pred, e + 1, last);
    }
}

/// `reach_right` gives `r` where `pred` holds from `e` up to `r` and not
/// at `r`.
pub proof fn lemma_reach_right_is(pred: spec_fn(int) -> bool, e: int, last: int, r: int)
    requires
        e <= r <= last,
        forall|q: int| e <= q < r ==> #[trigger] pred(q),
        r == last || !pred(r),
    ensures
        reach_right(pred, e, last) == r,
    decreases last - e,
{
    if e < r {
        lemma_reach_right_is(pred, e + 1, last, r);
    }
}

/// What `last_pair` gives.
pub proof fn lemma_last_pair(splits: Seq<u8>, a: int, e: int)
    requires
        a < e,
    ensures
        a <= last_pair(splits, a, e) < e,
        forall|q: int|
            a <= q < e && q != last_pair(splits, a, e) ==> before(
                splits,
                q,
                last_pair(splits, a, e),
            ),
    decreases e - a,
{
    if e - a > 1 {
        lemma_last_pair(splits, a, e - 1);
        let p = last_pair(splits, a, e - 1);
        let top = last_pair(splits, a, e);
        assert forall|q: int| a <= q < e && q != top implies before(splits, q, top) by {
            if q < e - 1 && q != p {
                assert(before(splits, q, p));
            }
        }
    }
}

/// `last_pair` gives the pair before which all others are joined.
pub proof fn lemma_last_pair_is(splits: Seq<u8>, a: int, e: int, p: int)
    requires
        a <= p < e,
        forall|q: int| a <= q < e && q != p ==> before(splits, q, p),
    ensures
        last_pair(splits, a, e) == p,
{
    lemma_last_pair(splits, a, e);
    let top = last_pair(splits, a, e);
    if top != p {
        assert(before(splits, p, top));
        assert(before(splits, top, p));
    }
}

/// What `run_low` gives.
pub proof fn lemma_run_low(splits: Seq<u8>, p: int)
    requires
        0 <= p,
    ensures
        0 <= run_low(splits, p) <= p,
        forall|q: int| run_low(splits, p) <= q < p ==> before(splits, q, p),
        run_low(splits, p) == 0 || !before(splits, run_low(splits, p) - 1, p),
{
    let pred = |q: int| before(splits, q, p);
    lemma_reach_left(pred, p);
    assert forall|q: int| run_low(splits, p) <= q < p implies before(splits, q, p) by {
        assert(pred(q));
    }
}

/// `run_low` gives `r` where the pairs from `r` up to `p` are joined
/// before `p` and the pair before `r` is not.
pub proof fn lemma_run_low_is(splits: Seq<u8>, p: int, r: int)
    requires
        0 <= r <= p,
        forall|q: int| r <= q < p ==> before(splits, q, p),
        r == 0 || !before(splits, r - 1, p),
    ensures
        run_low(splits, p) == r,
{
    let pred = |q: int| before(splits, q, p);
    assert forall|q: int| r <= q < p implies #[trigger] pred(q) by {
        assert(before(splits, q, p));
    }
    lemma_reach_left_is(pred, p, r);
}

/// What `run_high` gives.
pub proof fn lemma_run_high(splits: Seq<u8>, p: int)
    requires
        p + 1 <= splits.len(),
    ensures
        p + 1 <= run_high(splits, p) <= splits.len(),
        forall|q: int| p + 1 <= q < run_high(splits, p) ==> before(splits, q, p),
        run_high(splits, p) == splits.len() || !before(splits, run_high(splits, p), p),
{
    let pred = |q: int| before(splits, q, p);
    lemma_reach_right(pred, p + 1, splits.len() as int);
    assert forall|q: int| p + 1 <= q < run_high(splits, p) implies before(splits, q, p) by {
        assert(pred(q));
    }
}

/// `run_high` gives `r` where the pairs after `p` up to `r` are joined
/// before `p` and the pair `r` is not.
pub proof fn lemma_run_high_is(splits: Seq<u8>, p: int, r: int)
    requires
        p + 1 <= r <= splits.len(),
        forall|q: int| p + 1 <= q < r ==> before(splits, q, p),
        r == splits.len() || !before(splits, r, p),
    ensures
        run_high(splits, p) == r,
{
    let pred = |q: int| before(splits, q, p);
    assert forall|q: int| p + 1 <= q < r implies #[trigger] pred(q) by {
        assert(before(splits, q, p));
    }
    lemma_reach_right_is(pred, p + 1, splits.len() as int, r);
}

/// The subtree that stands for the subtrees from `a` to `e` of `refs`
/// once they are joined: the subtree `a` itself where `e` is `a`; else
/// the branch over what stands for the subtrees up to the pair joined
/// last and what stands for the subtrees after it. It carries the key of
/// subtree `a` and counts the leaves of both sides; a count that would
/// pass the largest number stays there.
pub open spec fn merged<H: Hasher>(refs: Seq<RefModel>, splits: Seq<u8>, a: int, e: int) -> RefModel
    decreases e - a,
    via merged_decreases::<H>
{
    if a >= e {
        refs[a]
    } else {
        let p = last_pair(splits, a, e);
        let left = merged::<H>(refs, splits, a, p);
        let right = merged::<H>(refs, splits, p + 1, e);
        RefModel {
            key: left.key,
            location: branch_address::<H>(left.location, right.location),
            node_count: left.node_count.saturating_add(right.node_count),
            count: (e - a + 1) as usize,
        }
    }
}

#[via_fn]
proof fn merged_decreases<H: Hasher>(refs: Seq<RefModel>, splits: Seq<u8>, a: int, e: int) {
    if a < e {
        lemma_last_pair(splits, a, e);
    }
}

/// The branch that joins pair `p`, with its address.
pub open spec fn branch_at<H: Hasher>(refs: Seq<RefModel>, splits: Seq<u8>, p: int) -> (
    Seq<u8>,
    NodeModel,
) {
    let left = merged::<H>(refs, splits, run_low(splits, p), p);
    let right = merged::<H>(refs, splits, p + 1, run_high(splits, p));
    (
        branch_address::<H>(left.location, right.location),
        NodeModel {
            references: 1,
            kind: NodeKind::Branch {
                count: left.node_count.saturating_add(right.node_count),
                zero: left.location,
                one: right.location,
                split_index: splits[p],
                key: left.key,
            },
        },
    )
}

/// `store` after the branches of the pairs of `order` are written, in
/// that order.
pub open spec fn built<H: Hasher>(
    store: Store,
    refs: Seq<RefModel>,
    splits: Seq<u8>,
    order: Seq<int>,
) -> Store
    decreases order.len(),
{
    if order.len() == 0 {
        store
    } else {
        let branch = branch_at::<H>(refs, splits, order.last());
        built::<H>(store, refs, splits, order.drop_last()).insert(branch.0, branch.1)
    }
}

/// The pairs before `upto` that part at `bit`, from the front.
pub open spec fn pairs_at(splits: Seq<u8>, bit: int, upto: int) -> Seq<int>
    decreases upto,
{
    if upto <= 0 {
        Seq::empty()
    } else if splits[upto - 1] == bit {
        pairs_at(splits, bit, upto - 1).push(upto - 1)
    } else {
        pairs_at(splits, bit, upto - 1)
    }
}

/// The pairs that part at `bit` or deeper, in the order in which they are
/// joined.
pub open spec fn order_down_to(splits: Seq<u8>, bit: int) -> Seq<int>
    decreases 256 - bit,
{
    if bit > 255 {
        Seq::empty()
    } else {
        order_down_to(splits, bit + 1) + pairs_at(splits, bit, splits.len() as int)
    }
}

/// All pairs in the order in which they are joined.
pub open spec fn merge_order(splits: Seq<u8>) -> Seq<int> {
    order_down_to(splits, 0)
}

/// What `pairs_at` lists: the pairs before `upto` that part at `bit`,
/// each once and from the front.
pub proof fn lemma_pairs_at(splits: Seq<u8>, bit: int, upto: int)
    requires
        0 <= upto <= splits.len(),
    ensures
        forall|j: int|
            0 <= j < pairs_at(splits, bit, upto).len() ==> 0 <= (#[trigger] pairs_at(
                splits,
                bit,
                upto,
            )[j]) < upto && splits[pairs_at(splits, bit, upto)[j]] == bit,
        forall|j: int, k: int|
            0 <= j < k < pairs_at(splits, bit, upto).len() ==> (#[trigger] pairs_at(
                splits,
                bit,
                upto,
            )[j]) < (#[trigger] pairs_at(splits, bit, upto)[k]),
        forall|q: int|
            0 <= q < upto && #[trigger] splits[q] == bit ==> pairs_at(splits, bit, upto).contains(
                q,
            ),
    decreases upto,
{
    if upto > 0 {
        lemma_pairs_at(splits, bit, upto - 1);
        let shorter = pairs_at(splits, bit, upto - 1);
        let all = pairs_at(splits, bit, upto);
        assert forall|q: int| 0 <= q < upto && #[trigger] splits[q] == bit implies all.contains(
            q,
        ) by {
            if q < upto - 1 {
                assert(shorter.contains(q));
                let j = choose|j: int| 0 <= j < shorter.len() && shorter[j] == q;
                assert(all[j] == q);
            } else {
                assert(all[all.len() - 1] == q);
            }
        }
    }
}

/// The keys of a list of subtrees.
pub open spec fn ref_keys(refs: Seq<RefModel>) -> Seq<Seq<u8>> {
    Seq::new(refs.len(), |i: int| refs[i].key)
}

/// `sorted_refs` holds the subtrees of `given`, each as often as `given`
/// does, in the order of their keys.
pub open spec fn key_sorted_perm(sorted_refs: Seq<RefModel>, given: Seq<RefModel>) -> bool {
    &&& sorted_refs.to_multiset() == given.to_multiset()
    &&& sorted(ref_keys(sorted_refs))
}

/// The subtrees `i` and `i + 1` carry the same key.
pub open spec fn twins_at(refs: Seq<RefModel>, i: int) -> bool {
    0 <= i < refs.len() - 1 && refs[i].key == refs[i + 1].key
}

/// Two neighbours of the list carry the same key.
pub open spec fn has_twins(refs: Seq<RefModel>) -> bool {
    exists|i: int| twins_at(refs, i)
}

/// The first position at which `a` and `b` carry different bits.
pub open spec fn first_difference(a: Seq<u8>, b: Seq<u8>) -> int {
    choose|d: int| diverges_at(a, b, d)
}

/// Two keys part at one position only.
pub proof fn lemma_first_difference(a: Seq<u8>, b: Seq<u8>, d: int)
    requires
        diverges_at(a, b, d),
    ensures
        first_difference(a, b) == d,
{
    let c = first_difference(a, b);
    if c < d {
        assert(crate::utils::tree_utils::bit_of(a, c) == crate::utils::tree_utils::bit_of(b, c));
    } else if d < c {
        assert(crate::utils::tree_utils::bit_of(a, d) == crate::utils::tree_utils::bit_of(b, d));
    }
}

/// The bits at which the neighbours of the list part.
pub open spec fn split_bits(refs: Seq<RefModel>) -> Seq<u8> {
    Seq::new(
        (refs.len() - 1) as nat,
        |i: int| first_difference(refs[i].key, refs[i + 1].key) as u8,
    )
}

/// The tree over the subtrees of `refs`, which are in the order of their
/// keys: the address of its root and the store with its branches. A
/// single subtree is the tree. Two neighbours with the same key are an
/// error.
pub open spec fn planted<H: Hasher>(store: Store, refs: Seq<RefModel>) -> Result<
    (Seq<u8>, Store),
    Exception,
> {
    if refs.len() == 1 {
        Ok((refs[0].location, store))
    } else if has_twins(refs) {
        Err(Exception::DuplicateKey)
    } else {
        Ok(
            (
                merged::<H>(refs, split_bits(refs), 0, refs.len() - 1).location,
                built::<H>(store, refs, split_bits(refs), merge_order(split_bits(refs))),
            ),
        )
    }
}

} // verus!
