//! The state of the list of subtrees while a tree is built over it.
//!
//! The list is changed in place. When a pair is joined, what stands for
//! the joined run is written to the place of the last subtree of the run,
//! and also to the place of the first subtree of the pair. The second
//! copy tells a later join, which looks at the place after its own, how
//! far the run that begins there has grown.

use vstd::prelude::*;

use crate::model::trie::{
    before, branch_at, last_pair, lemma_last_pair_is, lemma_reach_left, lemma_reach_left_is,
    lemma_run_high, lemma_run_low, lemma_run_low_is, merged, reach_left, run_high, run_low,
};
use crate::traits::Hasher;
use crate::utils::tree_ref::RefModel;

verus! {

/// Pair `q` is joined when the pairs that part deeper than `bit` are
/// joined, and those before `from` of the pairs that part at `bit`.
pub open spec fn done(splits: Seq<u8>, bit: int, from: int, q: int) -> bool {
    splits[q] > bit || (splits[q] == bit && q < from)
}

/// The first subtree of the run that ends at `x` in the state given by
/// `bit` and `from`.
pub open spec fn run_start(splits: Seq<u8>, bit: int, from: int, x: int) -> int {
    reach_left(|q: int| done(splits, bit, from, q), x)
}

/// The place `x` of the list holds what it must in the state given by
/// `bit` and `from`: where pair `x` is joined, what stood for the run
/// that the pair joined; else what stands for the run that ends at `x`.
pub open spec fn slot_ok<H: Hasher>(
    refs: Seq<RefModel>,
    splits: Seq<u8>,
    slots: Seq<RefModel>,
    bit: int,
    from: int,
    x: int,
) -> bool {
    slots[x] == if x < splits.len() && done(splits, bit, from, x) {
        merged::<H>(refs, splits, run_low(splits, x), run_high(splits, x))
    } else {
        merged::<H>(refs, splits, run_start(splits, bit, from, x), x)
    }
}

/// Every place of the list holds what it must in the state given by
/// `bit` and `from`.
pub open spec fn slots_ok<H: Hasher>(
    refs: Seq<RefModel>,
    splits: Seq<u8>,
    slots: Seq<RefModel>,
    bit: int,
    from: int,
) -> bool {
    &&& slots.len() == refs.len()
    &&& forall|x: int|
        0 <= x < refs.len() ==> #[trigger] slot_ok::<H>(refs, splits, slots, bit, from, x)
}

/// The list to build a tree over: each subtree stands for itself alone,
/// there is a split bit for each pair, and the places of the list can be
/// counted.
pub open spec fn buildable(refs: Seq<RefModel>, splits: Seq<u8>) -> bool {
    &&& refs.len() == splits.len() + 1
    &&& refs.len() <= usize::MAX
    &&& forall|x: int| 0 <= x < refs.len() ==> (#[trigger] refs[x]).count == 1
}

/// What `run_start` gives.
pub proof fn lemma_run_start(splits: Seq<u8>, bit: int, from: int, x: int)
    requires
        0 <= x,
    ensures
        0 <= run_start(splits, bit, from, x) <= x,
        forall|q: int| run_start(splits, bit, from, x) <= q < x ==> done(splits, bit, from, q),
        run_start(splits, bit, from, x) == 0 || !done(
            splits,
            bit,
            from,
            run_start(splits, bit, from, x) - 1,
        ),
{
    let pred = |q: int| done(splits, bit, from, q);
    lemma_reach_left(pred, x);
    assert forall|q: int| run_start(splits, bit, from, x) <= q < x implies done(
        splits,
        bit,
        from,
        q,
    ) by {
        assert(pred(q));
    }
}

/// `run_start` gives `r` where the pairs from `r` up to `x` are joined
/// and the pair before `r` is not.
pub proof fn lemma_run_start_is(splits: Seq<u8>, bit: int, from: int, x: int, r: int)
    requires
        0 <= r <= x,
        forall|q: int| r <= q < x ==> done(splits, bit, from, q),
        r == 0 || !done(splits, bit, from, r - 1),
    ensures
        run_start(splits, bit, from, x) == r,
{
    let pred = |q: int| done(splits, bit, from, q);
    assert forall|q: int| r <= q < x implies #[trigger] pred(q) by {
        assert(done(splits, bit, from, q));
    }
    lemma_reach_left_is(pred, x, r);
}

/// A run of `e - a + 1` subtrees counts as many, and carries the key of
/// its first subtree.
pub proof fn lemma_merged_count<H: Hasher>(refs: Seq<RefModel>, splits: Seq<u8>, a: int, e: int)
    requires
        buildable(refs, splits),
        0 <= a <= e < refs.len(),
    ensures
        merged::<H>(refs, splits, a, e).count == e - a + 1,
        merged::<H>(refs, splits, a, e).key == refs[a].key,
    decreases e - a,
{
    if a < e {
        let p = last_pair(splits, a, e);
        crate::model::trie::lemma_last_pair(splits, a, e);
        lemma_merged_count::<H>(refs, splits, a, p);
    }
}

/// A run carries the key of its first subtree.
pub proof fn lemma_merged_key<H: Hasher>(refs: Seq<RefModel>, splits: Seq<u8>, a: int, e: int)
    requires
        0 <= a <= e,
    ensures
        merged::<H>(refs, splits, a, e).key == refs[a].key,
    decreases e - a,
{
    if a < e {
        let p = last_pair(splits, a, e);
        crate::model::trie::lemma_last_pair(splits, a, e);
        lemma_merged_key::<H>(refs, splits, a, p);
    }
}

/// Two states in which the same pairs are joined ask the same of the
/// list.
pub proof fn lemma_same_done<H: Hasher>(
    refs: Seq<RefModel>,
    splits: Seq<u8>,
    slots: Seq<RefModel>,
    bit: int,
    from: int,
    bit2: int,
    from2: int,
)
    requires
        refs.len() == splits.len() + 1,
        slots_ok::<H>(refs, splits, slots, bit, from),
        forall|q: int|
            0 <= q < splits.len() ==> done(splits, bit, from, q) == done(splits, bit2, from2, q),
    ensures
        slots_ok::<H>(refs, splits, slots, bit2, from2),
{
    assert forall|x: int| 0 <= x < refs.len() implies #[trigger] slot_ok::<H>(
        refs,
        splits,
        slots,
        bit2,
        from2,
        x,
    ) by {
        assert(slot_ok::<H>(refs, splits, slots, bit, from, x));
        lemma_run_start(splits, bit, from, x);
        let r = run_start(splits, bit, from, x);
        assert forall|q: int| r <= q < x implies done(splits, bit2, from2, q) by {
            assert(done(splits, bit, from, q));
        }
        lemma_run_start_is(splits, bit2, from2, x, r);
    }
}

/// Before any pair is joined, the list as it was given holds what it
/// must.
pub proof fn lemma_slots_initial<H: Hasher>(refs: Seq<RefModel>, splits: Seq<u8>)
    requires
        refs.len() == splits.len() + 1,
    ensures
        slots_ok::<H>(refs, splits, refs, 255, 0),
{
    assert forall|x: int| 0 <= x < refs.len() implies #[trigger] slot_ok::<H>(
        refs,
        splits,
        refs,
        255,
        0,
        x,
    ) by {
        lemma_run_start_is(splits, 255, 0, x, x);
    }
}

/// The run that pair `i` joins when its turn has come: in the state in
/// which just the pairs before `i` are joined, the place `i` holds what
/// stands for the run that ends there, and the place `run_high(i)` what
/// stands for the run after it.
pub proof fn lemma_pair_runs<H: Hasher>(
    refs: Seq<RefModel>,
    splits: Seq<u8>,
    slots: Seq<RefModel>,
    i: int,
)
    requires
        buildable(refs, splits),
        0 <= i < splits.len(),
        slots_ok::<H>(refs, splits, slots, splits[i] as int, i),
    ensures
        0 <= run_low(splits, i) <= i < run_high(splits, i) < refs.len(),
        slots[i] == merged::<H>(refs, splits, run_low(splits, i), i),
        slots[run_high(splits, i)] == merged::<H>(refs, splits, i + 1, run_high(splits, i)),
        last_pair(splits, run_low(splits, i), run_high(splits, i)) == i,
{
    let bit = splits[i] as int;
    let low = run_low(splits, i);
    let high = run_high(splits, i);
    lemma_run_low(splits, i);
    lemma_run_high(splits, i);
    assert forall|q: int| low <= q < i implies done(splits, bit, i, q) by {
        assert(before(splits, q, i));
    }
    lemma_run_start_is(splits, bit, i, i, low);
    assert(slot_ok::<H>(refs, splits, slots, bit, i, i));
    assert forall|q: int| i + 1 <= q < high implies done(splits, bit, i, q) by {
        assert(before(splits, q, i));
    }
    lemma_run_start_is(splits, bit, i, high, i + 1);
    assert(slot_ok::<H>(refs, splits, slots, bit, i, high));
    assert forall|q: int| low <= q < high && q != i implies before(splits, q, i) by {}
    lemma_last_pair_is(splits, low, high, i);
}

/// A place on the way from the place after pair `i` to the end of the
/// run that begins there: it lies in the run, and where it is not the end
/// of the run, the pairs from the beginning of the run up to it were
/// joined before its own pair.
pub open spec fn on_the_way(splits: Seq<u8>, i: int, y: int) -> bool {
    &&& i + 1 < y <= run_high(splits, i)
    &&& (y == run_high(splits, i) || forall|q: int| i + 1 <= q < y ==> before(splits, q, y))
}

/// The first look ahead of the join of pair `i`. Where the place after
/// `i` counts one subtree, it is the run to join. Else it counts the
/// subtrees up to a place on the way to the end of the run.
pub proof fn lemma_first_look<H: Hasher>(
    refs: Seq<RefModel>,
    splits: Seq<u8>,
    slots: Seq<RefModel>,
    i: int,
)
    requires
        buildable(refs, splits),
        0 <= i < splits.len(),
        slots_ok::<H>(refs, splits, slots, splits[i] as int, i),
    ensures
        slots[i + 1].count >= 1,
        slots[i + 1].count == 1 ==> run_high(splits, i) == i + 1,
        slots[i + 1].count > 1 ==> on_the_way(splits, i, i + slots[i + 1].count),
{
    let bit = splits[i] as int;
    let high = run_high(splits, i);
    lemma_run_high(splits, i);
    lemma_pair_runs::<H>(refs, splits, slots, i);
    if high == i + 1 {
        lemma_merged_count::<H>(refs, splits, i + 1, i + 1);
    } else {
        assert(before(splits, i + 1, i));
        assert(done(splits, bit, i, i + 1));
        assert(slot_ok::<H>(refs, splits, slots, bit, i, i + 1));
        lemma_run_low_is(splits, i + 1, i + 1);
        lemma_run_high(splits, i + 1);
        let y = run_high(splits, i + 1);
        lemma_merged_count::<H>(refs, splits, i + 1, y);
        lemma_way_goes_on(splits, i, i + 1, y);
    }
}

/// Where the pairs from the place after `i` up to `x` were joined before
/// `x`, and `x` before `i`, the run that `x` joined ends on the way to
/// the end of the run after `i`.
proof fn lemma_way_goes_on(splits: Seq<u8>, i: int, x: int, y: int)
    requires
        0 <= i < x < splits.len(),
        before(splits, x, i),
        forall|q: int| i + 1 <= q < x ==> before(splits, q, x),
        y == run_high(splits, x),
    ensures
        x < y,
        on_the_way(splits, i, y),
{
    lemma_run_high(splits, x);
    lemma_run_high(splits, i);
    let high = run_high(splits, i);
    assert forall|q: int| i + 1 <= q < y implies before(splits, q, i) by {
        if q < x {
            assert(before(splits, q, x));
        } else if q > x {
            assert(before(splits, q, x));
        }
    }
    if y > high {
        assert(before(splits, high, i));
    }
    if y != high {
        assert(before(splits, y, i));
        assert forall|q: int| i + 1 <= q < y implies before(splits, q, y) by {
            if q < x {
                assert(before(splits, q, x));
            } else if q > x {
                assert(before(splits, q, x));
            }
        }
    }
}

/// A further look ahead of the join of pair `i`, from a place `y` on the
/// way. At the end of the run the place counts the subtrees of the run.
/// Before the end it counts more subtrees than lie between `i` and `y`,
/// up to a place further on the way.
pub proof fn lemma_next_look<H: Hasher>(
    refs: Seq<RefModel>,
    splits: Seq<u8>,
    slots: Seq<RefModel>,
    i: int,
    y: int,
)
    requires
        buildable(refs, splits),
        0 <= i < splits.len(),
        slots_ok::<H>(refs, splits, slots, splits[i] as int, i),
        on_the_way(splits, i, y),
    ensures
        y == run_high(splits, i) ==> slots[y].count == y - i,
        y != run_high(splits, i) ==> slots[y].count > y - i && on_the_way(
            splits,
            i,
            i + slots[y].count,
        ),
{
    let bit = splits[i] as int;
    let high = run_high(splits, i);
    lemma_run_high(splits, i);
    lemma_pair_runs::<H>(refs, splits, slots, i);
    if y == high {
        lemma_merged_count::<H>(refs, splits, i + 1, high);
    } else {
        assert(before(splits, y, i));
        assert(done(splits, bit, i, y));
        assert(slot_ok::<H>(refs, splits, slots, bit, i, y));
        lemma_run_low_is(splits, y, i + 1);
        lemma_run_high(splits, y);
        let next = run_high(splits, y);
        lemma_merged_count::<H>(refs, splits, i + 1, next);
        lemma_way_goes_on(splits, i, y, next);
    }
}

/// The join of pair `i`. What stands for the joined run is the branch
/// over what the places `i` and `run_high(i)` hold; written to both
/// places, it leaves the list as the state after the join asks.
pub proof fn lemma_join<H: Hasher>(
    refs: Seq<RefModel>,
    splits: Seq<u8>,
    slots: Seq<RefModel>,
    i: int,
)
    requires
        buildable(refs, splits),
        0 <= i < splits.len(),
        slots_ok::<H>(refs, splits, slots, splits[i] as int, i),
    ensures
        ({
            let high = run_high(splits, i);
            let joined = merged::<H>(refs, splits, run_low(splits, i), high);
            &&& joined == RefModel {
                key: slots[i].key,
                location: crate::model::leaves::branch_address::<H>(
                    slots[i].location,
                    slots[high].location,
                ),
                node_count: slots[i].node_count.saturating_add(slots[high].node_count),
                count: (slots[high].count + slots[i].count) as usize,
            }
            &&& slots[high].count + slots[i].count <= refs.len()
            &&& branch_at::<H>(refs, splits, i).0 == joined.location
            &&& slots_ok::<H>(
                refs,
                splits,
                slots.update(high, joined).update(i, joined),
                splits[i] as int,
                i + 1,
            )
        }),
{
    let bit = splits[i] as int;
    let low = run_low(splits, i);
    let high = run_high(splits, i);
    let joined = merged::<H>(refs, splits, low, high);
    let after = slots.update(high, joined).update(i, joined);
    let next = i + 1;
    lemma_run_low(splits, i);
    lemma_run_high(splits, i);
    lemma_pair_runs::<H>(refs, splits, slots, i);
    lemma_merged_count::<H>(refs, splits, low, i);
    lemma_merged_count::<H>(refs, splits, i + 1, high);
    assert forall|x: int| 0 <= x < refs.len() implies #[trigger] slot_ok::<H>(
        refs,
        splits,
        after,
        bit,
        next,
        x,
    ) by {
        assert(slot_ok::<H>(refs, splits, slots, bit, i, x));
        if x == i {
        } else if x == high {
            assert forall|q: int| low <= q < high implies done(splits, bit, next, q) by {
                if q != i {
                    assert(before(splits, q, i));
                }
            }
            lemma_run_start_is(splits, bit, next, high, low);
        } else if x < splits.len() && done(splits, bit, next, x) {
        } else {
            lemma_run_start(splits, bit, i, x);
            let r = run_start(splits, bit, i, x);
            if x > i {
                if x < high {
                    assert(before(splits, x, i));
                }
                if r <= high {
                    assert(done(splits, bit, i, high));
                }
            }
            assert forall|q: int| r <= q < x implies done(splits, bit, next, q) by {
                assert(done(splits, bit, i, q));
            }
            lemma_run_start_is(splits, bit, next, x, r);
        }
    }
}

} // verus!
