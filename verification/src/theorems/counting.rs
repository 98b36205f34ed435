//! The reference counts that insertions leave: each node has a reference
//! for each node that refers to it, and the roots have one more.

use vstd::prelude::*;

use crate::model::trie::{
    before, branch_at, last_pair, lemma_last_pair, lemma_run_high, lemma_run_high_is,
    lemma_run_low, lemma_run_low_is, merged, run_high, run_low, split_bits,
};
use crate::model::collect::collect_run;
use crate::model::insert::insert_yields;
use crate::theorems::planting::{closed, is_branch_address, joined_inside};
use crate::theorems::branching::key_splits;
use crate::theorems::frames::{lemma_sound_frame, records_kept, within_height};
use crate::theorems::keeping::batch_is_new;
use crate::theorems::planting::run_height;
use crate::theorems::removal::lemma_lookup_after_removal;
use crate::theorems::reading::{
    agrees, all_keys, answers, find, lemma_lookup_in_sound_tree, sound, Region,
};
use crate::theorems::retention::{
    lemma_references_finite, lemma_retained_tree_survives, outside_references, refers,
};
use crate::theorems::round_trip::{
    data_at, leaf_at, leaf_refs, lemma_first_tree_is_sound, unmistakable, values_by_key,
};
use crate::theorems::written::{
    grafted, grafted_new, grafts_fresh, is_leaf_address, lemma_children_are_stored,
    lemma_first_insertion_grafts, lemma_grafted_counts, lemma_insertion_grafts, new_nodes_fresh,
};
use crate::theorems::survival::{
    grafts_apart, is_new_node, joined_values, lemma_next_tree_is_sound, new_nodes_apart,
    node_of_pair, welcomes,
};
use crate::traits::{Codec, Decode, Encode, Exception, Hasher};
use crate::tree::tree_node::{NodeKind, Store};
use crate::constants::KEY_LEN;
use crate::model::lookup::lookup;
use crate::utils::key_order::{pair_keys, sorted, strictly_sorted};
use crate::utils::tree_ref::RefModel;

verus! {

/// The references to the node at `x`: the nodes that refer to it, each
/// with the side on which it does.
pub open spec fn references_to(store: Store, x: Seq<u8>) -> Set<(Seq<u8>, bool)> {
    outside_references(store, Set::empty(), x)
}

/// The store has a node wherever one of its nodes refers to. Each node
/// has a reference for each node that refers to it, and one more where it
/// is pinned; it has one reference at least and `most` at most.
pub open spec fn counts_hold(store: Store, pinned: Set<Seq<u8>>, most: nat) -> bool {
    &&& forall|x: Seq<u8>, side: bool, child: Seq<u8>| #[trigger]
        refers(store, x, side, child) ==> store.contains_key(child)
    &&& forall|x: Seq<u8>| #[trigger]
        store.contains_key(x) ==> 1 <= store[x].references <= most && store[x].references
            >= references_to(store, x).len() + (if pinned.contains(x) {
            1nat
        } else {
            0nat
        })
}

/// The run of subtrees that the child of the branch of pair `p` on the
/// side `side` stands for.
pub open spec fn child_run(splits: Seq<u8>, p: int, side: bool) -> (int, int) {
    if side {
        (p + 1, run_high(splits, p))
    } else {
        (run_low(splits, p), p)
    }
}

/// The child of the branch of a pair stands for a run of subtrees whose
/// pairs are joined before the pairs next to the run.
pub proof fn lemma_child_run<H: Hasher>(refs: Seq<RefModel>, splits: Seq<u8>, p: int, side: bool)
    requires
        refs.len() == splits.len() + 1,
        0 <= p < splits.len(),
    ensures
        0 <= child_run(splits, p, side).0 <= child_run(splits, p, side).1 < refs.len(),
        closed(splits, child_run(splits, p, side).0, child_run(splits, p, side).1),
        branch_at::<H>(refs, splits, p).1.kind matches NodeKind::Branch {
            count,
            zero,
            one,
            split_index,
            key,
        } && (if side {
            one
        } else {
            zero
        }) == merged::<H>(
            refs,
            splits,
            child_run(splits, p, side).0,
            child_run(splits, p, side).1,
        ).location,
{
    lemma_run_low(splits, p);
    lemma_run_high(splits, p);
    let low = run_low(splits, p);
    let high = run_high(splits, p);
    assert forall|q: int| low <= q < p implies #[trigger] joined_inside(splits, q, low, p) by {
        assert(before(splits, q, p));
    }
    assert forall|q: int| p + 1 <= q < high implies #[trigger] joined_inside(
        splits,
        q,
        p + 1,
        high,
    ) by {
        assert(before(splits, q, p));
    }
}

/// What stands for a run of two or more subtrees whose pairs are joined
/// before the pairs next to the run is the branch of the pair that is
/// joined last, and the run is the run of that pair.
pub proof fn lemma_run_is_branch<H: Hasher>(refs: Seq<RefModel>, splits: Seq<u8>, a: int, e: int)
    requires
        refs.len() == splits.len() + 1,
        0 <= a < e < refs.len(),
        closed(splits, a, e),
    ensures
        a <= last_pair(splits, a, e) < e,
        merged::<H>(refs, splits, a, e).location == branch_at::<H>(
            refs,
            splits,
            last_pair(splits, a, e),
        ).0,
        run_low(splits, last_pair(splits, a, e)) == a,
        run_high(splits, last_pair(splits, a, e)) == e,
{
    let p = last_pair(splits, a, e);
    lemma_last_pair(splits, a, e);
    assert forall|q: int| a <= q < p implies before(splits, q, p) by {}
    assert(joined_inside(splits, p, a, e));
    lemma_run_low_is(splits, p, a);
    assert forall|q: int| p + 1 <= q < e implies before(splits, q, p) by {}
    lemma_run_high_is(splits, p, e);
}

/// Each subtree of the list is published or a new leaf.
pub open spec fn subtrees_known<H: Hasher, V: Encode>(
    published: Store,
    pairs: Seq<(Seq<u8>, V::V)>,
    refs: Seq<RefModel>,
) -> bool {
    forall|i: int|
        0 <= i < refs.len() ==> published.contains_key((#[trigger] refs[i]).location)
            || is_leaf_address::<H, V>(pairs, refs[i].location)
}

/// Two runs of subtrees that stand at one address are one run.
pub proof fn lemma_runs_differ<H: Hasher, V: Encode>(
    published: Store,
    pairs: Seq<(Seq<u8>, V::V)>,
    refs: Seq<RefModel>,
    a: int,
    e: int,
    b: int,
    f: int,
)
    requires
        grafts_fresh::<H, V>(published, pairs, refs),
        subtrees_known::<H, V>(published, pairs, refs),
        refs.len() == split_bits(refs).len() + 1,
        0 <= a <= e < refs.len(),
        0 <= b <= f < refs.len(),
        closed(split_bits(refs), a, e),
        closed(split_bits(refs), b, f),
        merged::<H>(refs, split_bits(refs), a, e).location == merged::<H>(
            refs,
            split_bits(refs),
            b,
            f,
        ).location,
    ensures
        a == b,
        e == f,
{
    let splits = split_bits(refs);
    if a == e && b == f {
        if a < b {
            assert(refs[a].location != refs[b].location);
        }
        if b < a {
            assert(refs[b].location != refs[a].location);
        }
    } else if a < e && b < f {
        lemma_run_is_branch::<H>(refs, splits, a, e);
        lemma_run_is_branch::<H>(refs, splits, b, f);
    } else if a == e {
        lemma_run_is_branch::<H>(refs, splits, b, f);
        lemma_branch_is_no_subtree::<H, V>(published, pairs, refs, last_pair(splits, b, f), a);
    } else {
        lemma_run_is_branch::<H>(refs, splits, a, e);
        lemma_branch_is_no_subtree::<H, V>(published, pairs, refs, last_pair(splits, a, e), b);
    }
}

/// No branch stands at the address of a subtree of the list.
pub proof fn lemma_branch_is_no_subtree<H: Hasher, V: Encode>(
    published: Store,
    pairs: Seq<(Seq<u8>, V::V)>,
    refs: Seq<RefModel>,
    p: int,
    i: int,
)
    requires
        grafts_fresh::<H, V>(published, pairs, refs),
        subtrees_known::<H, V>(published, pairs, refs),
        0 <= p < split_bits(refs).len(),
        0 <= i < refs.len(),
    ensures
        branch_at::<H>(refs, split_bits(refs), p).0 != refs[i].location,
{
    let splits = split_bits(refs);
    let b = branch_at::<H>(refs, splits, p).0;
    if b == refs[i].location {
        assert(!published.contains_key(b));
        assert(is_leaf_address::<H, V>(pairs, refs[i].location));
        let j = choose|j: int| 0 <= j < pairs.len() && #[trigger] leaf_at::<H, V>(pairs, j) == b;
        assert(node_of_pair::<H, V>(pairs, j, b));
        assert(is_new_node::<H, V>(pairs, b));
    }
}

/// A run of subtrees is the child of one branch at most, and on one
/// side.
pub proof fn lemma_one_parent_of_run(splits: Seq<u8>, p: int, side: bool, q: int, other: bool)
    requires
        0 <= p < splits.len(),
        0 <= q < splits.len(),
        child_run(splits, p, side) == child_run(splits, q, other),
    ensures
        p == q,
        side == other,
{
    lemma_run_low(splits, p);
    lemma_run_high(splits, p);
    lemma_run_low(splits, q);
    lemma_run_high(splits, q);
    if side && !other {
        // the run ends at q and starts after p
        assert(!before(splits, p, q));
        assert(!before(splits, q, p));
    }
    if !side && other {
        assert(!before(splits, q, p));
        assert(!before(splits, p, q));
    }
}

/// The run of all subtrees is the child of no branch.
pub proof fn lemma_whole_run_has_no_parent(splits: Seq<u8>, p: int, side: bool)
    requires
        0 <= p < splits.len(),
    ensures
        child_run(splits, p, side) != (0int, splits.len() as int),
{
    lemma_run_low(splits, p);
    lemma_run_high(splits, p);
}

/// The store has a node wherever one of its nodes refers to.
pub open spec fn no_loose_ends(store: Store) -> bool {
    forall|x: Seq<u8>, side: bool, child: Seq<u8>| #[trigger]
        refers(store, x, side, child) ==> store.contains_key(child)
}

/// What refers to a new node after an insertion: the new leaf of a pair,
/// which refers to its data node, or the new branch of a pair, which
/// refers to what stands for a run of subtrees. The result tells which,
/// and gives the pair.
pub proof fn lemma_new_referrer<H: Hasher, V: Encode>(
    published: Store,
    pairs: Seq<(Seq<u8>, V::V)>,
    kept: Seq<RefModel>,
    refs: Seq<RefModel>,
    new_root: Seq<u8>,
    after: Store,
    x: Seq<u8>,
    e: (Seq<u8>, bool),
) -> (r: (bool, int))
    requires
        no_loose_ends(published),
        grafts_fresh::<H, V>(published, pairs, refs),
        grafted::<H, V>(published, pairs, kept, refs, after),
        grafted_new::<H, V>(published, pairs, kept, refs, new_root, after),
        !published.contains_key(x),
        references_to(after, x).contains(e),
    ensures
        r.0 ==> 0 <= r.1 < pairs.len() && e == (leaf_at::<H, V>(pairs, r.1), false) && x
            == data_at::<H, V>(pairs, r.1),
        !r.0 ==> 0 <= r.1 < split_bits(refs).len() && e.0 == branch_at::<H>(
            refs,
            split_bits(refs),
            r.1,
        ).0 && x == merged::<H>(
            refs,
            split_bits(refs),
            child_run(split_bits(refs), r.1, e.1).0,
            child_run(split_bits(refs), r.1, e.1).1,
        ).location,
{
    let splits = split_bits(refs);
    let y = e.0;
    assert(refers(after, y, e.1, x));
    assert(after.contains_key(y));
    if published.contains_key(y) {
        assert(after[y].kind == published[y].kind);
        assert(refers(published, y, e.1, x));
        assert(false);
    }
    if is_branch_address::<H>(refs, splits, y) {
        let p = choose|p: int|
            0 <= p < splits.len() && (#[trigger] branch_at::<H>(refs, splits, p)).0 == y;
        assert(after[y] == branch_at::<H>(refs, splits, p).1);
        lemma_child_run::<H>(refs, splits, p, e.1);
        (false, p)
    } else {
        assert(is_new_node::<H, V>(pairs, y));
        let i = choose|i: int| 0 <= i < pairs.len() && #[trigger] node_of_pair::<H, V>(pairs, i, y);
        assert(after.contains_key(leaf_at::<H, V>(pairs, i)));
        (true, i)
    }
}

/// What stands for a run of subtrees is no data node of a pair.
pub proof fn lemma_run_is_no_data<H: Hasher, V: Encode>(
    published: Store,
    pairs: Seq<(Seq<u8>, V::V)>,
    refs: Seq<RefModel>,
    a: int,
    e: int,
    i: int,
)
    requires
        grafts_fresh::<H, V>(published, pairs, refs),
        subtrees_known::<H, V>(published, pairs, refs),
        refs.len() == split_bits(refs).len() + 1,
        0 <= a <= e < refs.len(),
        closed(split_bits(refs), a, e),
        0 <= i < pairs.len(),
    ensures
        merged::<H>(refs, split_bits(refs), a, e).location != data_at::<H, V>(pairs, i),
{
    let splits = split_bits(refs);
    let x = merged::<H>(refs, splits, a, e).location;
    if x == data_at::<H, V>(pairs, i) {
        assert(!published.contains_key(leaf_at::<H, V>(pairs, i)));
        assert(node_of_pair::<H, V>(pairs, i, x));
        assert(is_new_node::<H, V>(pairs, x));
        if a < e {
            lemma_run_is_branch::<H>(refs, splits, a, e);
            let p = last_pair(splits, a, e);
            assert(!is_new_node::<H, V>(pairs, branch_at::<H>(refs, splits, p).0));
        } else {
            assert(is_leaf_address::<H, V>(pairs, refs[a].location));
            let j = choose|j: int| 0 <= j < pairs.len() && #[trigger] leaf_at::<H, V>(pairs, j) == x;
            assert(leaf_at::<H, V>(pairs, j) != data_at::<H, V>(pairs, i));
        }
    }
}

/// After an insertion, one node at most refers to a node that was not
/// published, and on one side.
pub proof fn lemma_new_node_has_one_parent<H: Hasher, V: Encode>(
    published: Store,
    pairs: Seq<(Seq<u8>, V::V)>,
    kept: Seq<RefModel>,
    refs: Seq<RefModel>,
    new_root: Seq<u8>,
    after: Store,
    x: Seq<u8>,
    e: (Seq<u8>, bool),
    f: (Seq<u8>, bool),
)
    requires
        no_loose_ends(published),
        grafts_fresh::<H, V>(published, pairs, refs),
        grafted::<H, V>(published, pairs, kept, refs, after),
        grafted_new::<H, V>(published, pairs, kept, refs, new_root, after),
        !published.contains_key(x),
        references_to(after, x).contains(e),
        references_to(after, x).contains(f),
    ensures
        e == f,
{
    let splits = split_bits(refs);
    lemma_subtrees_known::<H, V>(published, pairs, kept, refs, new_root, after);
    let (e_leaf, i) = lemma_new_referrer::<H, V>(published, pairs, kept, refs, new_root, after, x, e);
    let (f_leaf, j) = lemma_new_referrer::<H, V>(published, pairs, kept, refs, new_root, after, x, f);
    if e_leaf && f_leaf {
        if i != j {
            assert(data_at::<H, V>(pairs, i) != data_at::<H, V>(pairs, j));
        }
    } else if !e_leaf && !f_leaf {
        lemma_child_run::<H>(refs, splits, i, e.1);
        lemma_child_run::<H>(refs, splits, j, f.1);
        let (a, b) = child_run(splits, i, e.1);
        let (c, d) = child_run(splits, j, f.1);
        lemma_runs_differ::<H, V>(published, pairs, refs, a, b, c, d);
        lemma_one_parent_of_run(splits, i, e.1, j, f.1);
    } else if e_leaf {
        lemma_child_run::<H>(refs, splits, j, f.1);
        let (c, d) = child_run(splits, j, f.1);
        lemma_run_is_no_data::<H, V>(published, pairs, refs, c, d, i);
    } else {
        lemma_child_run::<H>(refs, splits, i, e.1);
        let (a, b) = child_run(splits, i, e.1);
        lemma_run_is_no_data::<H, V>(published, pairs, refs, a, b, j);
    }
}

/// After an insertion, each subtree over which the tree was built is
/// published or a new leaf.
pub proof fn lemma_subtrees_known<H: Hasher, V: Encode>(
    published: Store,
    pairs: Seq<(Seq<u8>, V::V)>,
    kept: Seq<RefModel>,
    refs: Seq<RefModel>,
    new_root: Seq<u8>,
    after: Store,
)
    requires
        grafted::<H, V>(published, pairs, kept, refs, after),
        grafted_new::<H, V>(published, pairs, kept, refs, new_root, after),
    ensures
        subtrees_known::<H, V>(published, pairs, refs),
        refs.len() == split_bits(refs).len() + 1,
{
    assert forall|i: int| 0 <= i < refs.len() implies published.contains_key(
        (#[trigger] refs[i]).location,
    ) || is_leaf_address::<H, V>(pairs, refs[i].location) by {
        if kept.contains(refs[i]) {
            let j = choose|j: int| 0 <= j < kept.len() && kept[j] == refs[i];
            assert(published.contains_key(kept[j].location));
        }
    }
}

/// After an insertion, nothing refers to the new root.
pub proof fn lemma_new_root_has_no_parent<H: Hasher, V: Encode>(
    published: Store,
    pairs: Seq<(Seq<u8>, V::V)>,
    kept: Seq<RefModel>,
    refs: Seq<RefModel>,
    new_root: Seq<u8>,
    after: Store,
    e: (Seq<u8>, bool),
)
    requires
        no_loose_ends(published),
        grafts_fresh::<H, V>(published, pairs, refs),
        grafted::<H, V>(published, pairs, kept, refs, after),
        grafted_new::<H, V>(published, pairs, kept, refs, new_root, after),
        !published.contains_key(new_root),
    ensures
        !references_to(after, new_root).contains(e),
{
    let splits = split_bits(refs);
    let last = refs.len() - 1;
    if references_to(after, new_root).contains(e) {
        lemma_subtrees_known::<H, V>(published, pairs, kept, refs, new_root, after);
        assert(closed(splits, 0, last)) by {
            assert forall|q: int| 0 <= q < last implies #[trigger] joined_inside(
                splits,
                q,
                0,
                last,
            ) by {}
        }
        let (e_leaf, i) = lemma_new_referrer::<H, V>(
            published,
            pairs,
            kept,
            refs,
            new_root,
            after,
            new_root,
            e,
        );
        if e_leaf {
            lemma_run_is_no_data::<H, V>(published, pairs, refs, 0, last, i);
        } else {
            lemma_child_run::<H>(refs, splits, i, e.1);
            let (a, b) = child_run(splits, i, e.1);
            lemma_runs_differ::<H, V>(published, pairs, refs, a, b, 0, last);
            lemma_whole_run_has_no_parent(splits, i, e.1);
        }
    }
}

/// After an insertion, the references to a node that was published are
/// those that were published and those from new nodes.
pub proof fn lemma_old_node_counts<H: Hasher, V: Encode>(
    published: Store,
    pairs: Seq<(Seq<u8>, V::V)>,
    kept: Seq<RefModel>,
    refs: Seq<RefModel>,
    after: Store,
    x: Seq<u8>,
)
    requires
        published.dom().finite(),
        after.dom().finite(),
        grafts_fresh::<H, V>(published, pairs, refs),
        grafted::<H, V>(published, pairs, kept, refs, after),
        published.contains_key(x),
        1 <= published[x].references < u64::MAX,
    ensures
        references_to(after, x).len() <= references_to(published, x).len() + (
        after[x].references - published[x].references),
        published[x].references <= after[x].references <= published[x].references + 1,
{
    let before = references_to(published, x);
    let fresh = outside_references(after, published.dom(), x);
    let now = references_to(after, x);
    lemma_references_finite(published, Set::empty(), x);
    lemma_references_finite(after, published.dom(), x);
    lemma_references_finite(after, Set::empty(), x);
    lemma_grafted_counts::<H, V>(published, pairs, kept, refs, after, x);
    assert(now.subset_of(before.union(fresh))) by {
        assert forall|e: (Seq<u8>, bool)| now.contains(e) implies before.union(fresh).contains(
            e,
        ) by {
            assert(refers(after, e.0, e.1, x));
            if published.contains_key(e.0) {
                assert(after[e.0].kind == published[e.0].kind);
                assert(refers(published, e.0, e.1, x));
                assert(before.contains(e));
            } else {
                assert(fresh.contains(e));
            }
        }
    }
    vstd::set_lib::lemma_len_union(before, fresh);
    vstd::set_lib::lemma_len_subset(now, before.union(fresh));
}

/// An insertion keeps the counts: where each node of the store had a
/// reference for each node that referred to it, and one more where it was
/// pinned, the same holds afterwards, with the new root pinned too.
pub proof fn lemma_grafting_keeps_counts<H: Hasher, V: Encode>(
    published: Store,
    pinned: Set<Seq<u8>>,
    most: nat,
    pairs: Seq<(Seq<u8>, V::V)>,
    kept: Seq<RefModel>,
    refs: Seq<RefModel>,
    new_root: Seq<u8>,
    after: Store,
)
    requires
        published.dom().finite(),
        after.dom().finite(),
        counts_hold(published, pinned, most),
        pinned.subset_of(published.dom()),
        most < u64::MAX,
        grafts_fresh::<H, V>(published, pairs, refs),
        grafted::<H, V>(published, pairs, kept, refs, after),
        grafted_new::<H, V>(published, pairs, kept, refs, new_root, after),
        !published.contains_key(new_root),
    ensures
        counts_hold(after, pinned.insert(new_root), most + 1),
{
    let splits = split_bits(refs);
    let now = pinned.insert(new_root);
    lemma_subtrees_known::<H, V>(published, pairs, kept, refs, new_root, after);
    assert forall|i: int| 0 <= i < refs.len() implies after.contains_key(
        (#[trigger] refs[i]).location,
    ) by {
        if !published.contains_key(refs[i].location) {
            let j = choose|j: int|
                0 <= j < pairs.len() && #[trigger] leaf_at::<H, V>(pairs, j) == refs[i].location;
            assert(after.contains_key(leaf_at::<H, V>(pairs, j)));
        }
    }
    assert forall|y: Seq<u8>, side: bool, child: Seq<u8>| #[trigger]
        refers(after, y, side, child) implies after.contains_key(child) by {
        if published.contains_key(y) {
            assert(after[y].kind == published[y].kind);
            assert(refers(published, y, side, child));
            assert(published.contains_key(child));
        } else if is_branch_address::<H>(refs, splits, y) {
            let p = choose|p: int|
                0 <= p < splits.len() && (#[trigger] branch_at::<H>(refs, splits, p)).0 == y;
            assert(after[y] == branch_at::<H>(refs, splits, p).1);
            lemma_children_are_stored::<H>(after, refs, splits, p);
        } else {
            assert(is_new_node::<H, V>(pairs, y));
            let i = choose|i: int| 0 <= i < pairs.len() && #[trigger] node_of_pair::<H, V>(pairs, i, y);
            assert(after.contains_key(leaf_at::<H, V>(pairs, i)));
        }
    }
    assert forall|x: Seq<u8>| #[trigger] after.contains_key(x) implies 1 <= after[x].references
        <= most + 1 && after[x].references >= references_to(after, x).len() + (if now.contains(
        x,
    ) {
        1nat
    } else {
        0nat
    }) by {
        if published.contains_key(x) {
            lemma_old_node_counts::<H, V>(published, pairs, kept, refs, after, x);
        } else {
            let to = references_to(after, x);
            lemma_references_finite(after, Set::empty(), x);
            assert(!pinned.contains(x));
            if to.len() != 0 {
                let e = to.choose();
                assert(to.contains(e));
                assert forall|f: (Seq<u8>, bool)| to.contains(f) implies f == e by {
                    lemma_new_node_has_one_parent::<H, V>(
                        published,
                        pairs,
                        kept,
                        refs,
                        new_root,
                        after,
                        x,
                        e,
                        f,
                    );
                }
                assert(to.remove(e) =~= Set::<(Seq<u8>, bool)>::empty());
                assert(to.len() == 1);
                if x == new_root {
                    lemma_new_root_has_no_parent::<H, V>(
                        published,
                        pairs,
                        kept,
                        refs,
                        new_root,
                        after,
                        e,
                    );
                }
            }
        }
    }
}

/// After an insertion under no previous root into a store that held
/// nothing, each node has one reference, which stands for the node that
/// refers to it or, at the root, for the root being pinned.
///
/// This holds of pairs with keys sorted without repeats, whose values
/// the codec can encode, and of a hash function that gives each node of
/// the new tree an address of its own.
pub proof fn lemma_first_insertion_counts<H: Hasher, V: Encode>(
    pairs: Seq<(Seq<u8>, V::V)>,
    max_depth: nat,
    root: Seq<u8>,
    after: Store,
)
    requires
        after.dom().finite(),
        pairs.len() > 0,
        strictly_sorted(pair_keys(pairs)),
        forall|i: int| 0 <= i < pairs.len() ==> V::encoding((#[trigger] pairs[i]).1) is Some,
        unmistakable::<H, V>(pairs),
        insert_yields::<H, V>(
            Map::empty(),
            Map::empty(),
            None,
            pairs,
            max_depth,
            Ok::<(Seq<u8>, Store), Exception>((root, after)),
        ),
    ensures
        counts_hold(after, set![root], 1),
        after.contains_key(root),
{
    let nothing = Map::<Seq<u8>, crate::tree::tree_node::NodeModel>::empty();
    let nobody = Set::<Seq<u8>>::empty();
    lemma_first_insertion_grafts::<H, V>(pairs, max_depth, root, after);
    assert(counts_hold(nothing, nobody, 0));
    lemma_grafting_keeps_counts::<H, V>(
        nothing,
        nobody,
        0,
        pairs,
        Seq::empty(),
        leaf_refs::<H, V>(pairs),
        root,
        after,
    );
    assert(nobody.insert(root) =~= set![root]);
    lemma_root_is_stored::<H, V>(
        nothing,
        pairs,
        Seq::empty(),
        leaf_refs::<H, V>(pairs),
        root,
        after,
    );
}

/// After an insertion, the new root is in the store.
pub proof fn lemma_root_is_stored<H: Hasher, V: Encode>(
    published: Store,
    pairs: Seq<(Seq<u8>, V::V)>,
    kept: Seq<RefModel>,
    refs: Seq<RefModel>,
    new_root: Seq<u8>,
    after: Store,
)
    requires
        grafted::<H, V>(published, pairs, kept, refs, after),
        grafted_new::<H, V>(published, pairs, kept, refs, new_root, after),
    ensures
        after.contains_key(new_root),
{
    let splits = split_bits(refs);
    let last = refs.len() - 1;
    lemma_subtrees_known::<H, V>(published, pairs, kept, refs, new_root, after);
    if last > 0 {
        assert(closed(splits, 0, last)) by {
            assert forall|q: int| 0 <= q < last implies #[trigger] joined_inside(
                splits,
                q,
                0,
                last,
            ) by {}
        }
        lemma_run_is_branch::<H>(refs, splits, 0, last);
    } else {
        if !published.contains_key(refs[0].location) {
            let j = choose|j: int|
                0 <= j < pairs.len() && #[trigger] leaf_at::<H, V>(pairs, j) == refs[0].location;
            assert(after.contains_key(leaf_at::<H, V>(pairs, j)));
        }
    }
}

/// An insertion on a published tree keeps the counts: where each node of
/// the store had a reference for each node that referred to it, and one
/// more where it was pinned, the same holds afterwards, with the new root
/// pinned too. The new root was not published before, and the published
/// nodes keep their records.
///
/// This holds of a store in which nothing is pending and no count has
/// reached the largest number; of pairs whose values the codec can
/// encode; and of a hash function that gives each node that is written
/// an address of its own, at which nothing is published.
pub proof fn lemma_next_insertion_counts<H: Hasher, V: Encode>(
    published: Store,
    pinned: Set<Seq<u8>>,
    most: nat,
    root: Seq<u8>,
    pairs: Seq<(Seq<u8>, V::V)>,
    max_depth: nat,
    new_root: Seq<u8>,
    after: Store,
)
    requires
        published.dom().finite(),
        after.dom().finite(),
        counts_hold(published, pinned, most),
        pinned.subset_of(published.dom()),
        most < u64::MAX,
        pairs.len() > 0,
        forall|i: int| 0 <= i < pairs.len() ==> V::encoding((#[trigger] pairs[i]).1) is Some,
        new_nodes_fresh::<H, V>(published, root, pairs, max_depth),
        insert_yields::<H, V>(
            published,
            published,
            Some(root),
            pairs,
            max_depth,
            Ok::<(Seq<u8>, Store), Exception>((new_root, after)),
        ),
    ensures
        counts_hold(after, pinned.insert(new_root), most + 1),
        after.contains_key(new_root),
        !published.contains_key(new_root),
        records_kept(published, after),
{
    let (kept, refs) = lemma_insertion_grafts::<H, V>(
        published,
        root,
        pairs,
        max_depth,
        new_root,
        after,
    );
    lemma_grafting_keeps_counts::<H, V>(
        published,
        pinned,
        most,
        pairs,
        kept,
        refs,
        new_root,
        after,
    );
    lemma_root_is_stored::<H, V>(published, pairs, kept, refs, new_root, after);
}

/// The node at `x` is reached from the node at `from` in `steps` steps
/// at most, each from a node to a node that it refers to.
pub open spec fn reached(store: Store, from: Seq<u8>, x: Seq<u8>, steps: nat) -> bool
    decreases steps,
{
    if steps == 0 {
        x == from
    } else {
        reached(store, from, x, (steps - 1) as nat) || exists|y: Seq<u8>, side: bool|
            reached(store, from, y, (steps - 1) as nat) && #[trigger] refers(store, y, side, x)
    }
}

/// The nodes that are reached from the node at `from`.
pub open spec fn reachable(store: Store, from: Seq<u8>) -> Set<Seq<u8>> {
    Set::new(|x: Seq<u8>| exists|steps: nat| reached(store, from, x, steps))
}

/// A node that is reached from another node is referred to by a node
/// that is reached from there.
pub proof fn lemma_last_step(store: Store, from: Seq<u8>, x: Seq<u8>, steps: nat) -> (r: (
    Seq<u8>,
    bool,
))
    requires
        reached(store, from, x, steps),
        x != from,
    ensures
        refers(store, r.0, r.1, x),
        reachable(store, from).contains(r.0),
    decreases steps,
{
    if steps == 0 {
        (x, false)
    } else if reached(store, from, x, (steps - 1) as nat) {
        lemma_last_step(store, from, x, (steps - 1) as nat)
    } else {
        let (y, side) = choose|y: Seq<u8>, side: bool|
            reached(store, from, y, (steps - 1) as nat) && #[trigger] refers(store, y, side, x);
        (y, side)
    }
}

/// The removal of a tree leaves another tree as it is, where both roots
/// are pinned: the other tree stays well-formed and holds what it held.
///
/// This holds of a store in which nothing is pending, and in which each
/// node has a reference for each node that refers to it, and one more
/// where it is pinned.
pub proof fn lemma_pinned_tree_survives<V: Decode>(
    store: Store,
    pinned: Set<Seq<u8>>,
    most: nat,
    root: Seq<u8>,
    other: Seq<u8>,
    r: Region,
)
    requires
        store.dom().finite(),
        counts_hold(store, pinned, most),
        pinned.contains(root),
        pinned.contains(other),
        root != other,
        store.contains_key(other),
        sound::<V>(store, other, r),
    ensures
        sound::<V>(collect_run(store, store, seq![root]), other, r),
        forall|q: Seq<u8>| #[trigger]
            find::<V>(collect_run(store, store, seq![root]), other, q, r.height) == find::<V>(
                store,
                other,
                q,
                r.height,
            ),
{
    let retained = reachable(store, other);
    assert(reached(store, other, other, 0));
    assert forall|x: Seq<u8>, side: bool, child: Seq<u8>|
        retained.contains(x) && #[trigger] refers(store, x, side, child) implies retained.contains(
        child,
    ) by {
        let steps = choose|steps: nat| reached(store, other, x, steps);
        assert(reached(store, other, child, steps + 1));
    }
    assert forall|x: Seq<u8>| #[trigger] retained.contains(x) implies store.contains_key(x)
        && store[x].references >= 1 + (if x == root {
        1nat
    } else {
        0nat
    }) + outside_references(store, retained, x).len() by {
        let steps = choose|steps: nat| reached(store, other, x, steps);
        let to = references_to(store, x);
        let outside = outside_references(store, retained, x);
        lemma_references_finite(store, Set::empty(), x);
        lemma_references_finite(store, retained, x);
        if x == other {
            assert(outside.subset_of(to));
            vstd::set_lib::lemma_len_subset(outside, to);
        } else {
            let e = lemma_last_step(store, other, x, steps);
            assert(to.contains(e));
            assert(outside.subset_of(to.remove(e)));
            vstd::set_lib::lemma_len_subset(outside, to.remove(e));
        }
    }
    lemma_retained_tree_survives::<V>(store, root, retained, other, r);
}

/// Nodes with addresses at which nothing is published have addresses at
/// which nothing else is published.
pub proof fn lemma_fresh_is_apart<H: Hasher, V: Encode>(
    published: Store,
    root: Seq<u8>,
    pairs: Seq<(Seq<u8>, V::V)>,
    max_depth: nat,
)
    requires
        new_nodes_fresh::<H, V>(published, root, pairs, max_depth),
    ensures
        new_nodes_apart::<H, V>(published, published, root, pairs, max_depth),
{
    assert forall|refs: Seq<RefModel>| grafts_fresh::<H, V>(published, pairs, refs) implies grafts_apart::<
        H,
        V,
    >(published, pairs, refs) by {
        let splits = split_bits(refs);
        assert forall|p: int| 0 <= p < refs.len() - 1 implies welcomes(
            published,
            (#[trigger] branch_at::<H>(refs, splits, p)).0,
            branch_at::<H>(refs, splits, p).1.kind,
        ) && !is_new_node::<H, V>(pairs, branch_at::<H>(refs, splits, p).0) by {}
    }
}

/// Where a tree is inserted into a store that holds nothing, more pairs
/// are inserted on it, and the earlier tree is removed, a lookup under
/// the root of the later tree finds what was inserted, first or later,
/// under the keys that are looked for.
///
/// This holds of first pairs with keys of full length, sorted without
/// repeats; of later pairs with other keys of full length, sorted
/// without repeats; of values that the codec can encode and decodes as
/// they were; of a hash function that gives each node that is written an
/// address of its own, at which nothing is published; of a maximum depth
/// that neither tree exceeds; and of sorted keys of full length to look
/// for.
pub proof fn lemma_later_values_outlast_removal<H: Hasher, V: Codec>(
    first: Seq<(Seq<u8>, V::V)>,
    root: Seq<u8>,
    store: Store,
    later: Seq<(Seq<u8>, V::V)>,
    new_root: Seq<u8>,
    after: Store,
    max_depth: nat,
    queried: Seq<Seq<u8>>,
)
    requires
        store.dom().finite(),
        after.dom().finite(),
        first.len() > 0,
        strictly_sorted(pair_keys(first)),
        forall|i: int| 0 <= i < first.len() ==> (#[trigger] first[i]).0.len() == KEY_LEN,
        forall|i: int| 0 <= i < first.len() ==> V::encoding((#[trigger] first[i]).1) is Some,
        unmistakable::<H, V>(first),
        max_depth >= run_height(key_splits(pair_keys(first)), 0, first.len() - 1),
        insert_yields::<H, V>(
            Map::empty(),
            Map::empty(),
            None,
            first,
            max_depth,
            Ok::<(Seq<u8>, Store), Exception>((root, store)),
        ),
        later.len() > 0,
        strictly_sorted(pair_keys(later)),
        forall|i: int| 0 <= i < later.len() ==> V::encoding((#[trigger] later[i]).1) is Some,
        batch_is_new(values_by_key(first), pair_keys(later)),
        new_nodes_fresh::<H, V>(store, root, later, max_depth),
        insert_yields::<H, V>(
            store,
            store,
            Some(root),
            later,
            max_depth,
            Ok::<(Seq<u8>, Store), Exception>((new_root, after)),
        ),
        within_height(after, new_root, max_depth),
        sorted(queried),
        forall|i: int| 0 <= i < queried.len() ==> (#[trigger] queried[i]).len() == KEY_LEN,
    ensures
        lookup::<V>(collect_run(after, after, seq![root]), new_root, queried, max_depth) == Ok::<
            Map<Seq<u8>, V::V>,
            Exception,
        >(answers(joined_values(values_by_key(first), later), queried)),
{
    let nothing = Map::<Seq<u8>, crate::tree::tree_node::NodeModel>::empty();
    let region = all_keys(max_depth);
    let old = values_by_key(first);
    let target = joined_values(old, later);
    lemma_first_tree_is_sound::<H, V>(nothing, nothing, first, max_depth, root, store, max_depth);
    lemma_first_insertion_counts::<H, V>(first, max_depth, root, store);
    let pinned = set![root];
    lemma_next_insertion_counts::<H, V>(
        store,
        pinned,
        1,
        root,
        later,
        max_depth,
        new_root,
        after,
    );
    lemma_fresh_is_apart::<H, V>(store, root, later, max_depth);
    lemma_next_tree_is_sound::<H, V>(
        store,
        store,
        root,
        max_depth,
        old,
        later,
        max_depth,
        new_root,
        after,
        max_depth,
    );
    lemma_pinned_tree_survives::<V>(after, pinned.insert(new_root), 2, root, new_root, region);
    let left = collect_run(after, after, seq![root]);
    assert(agrees::<V>(left, new_root, region, target));
    lemma_lookup_in_sound_tree::<V>(left, new_root, max_depth, target, queried, max_depth);
}

/// Where a tree is inserted into a store that holds nothing, more pairs
/// are inserted on it, and the later tree is removed, a lookup under the
/// root of the earlier tree finds what was inserted first under the keys
/// that are looked for.
///
/// This holds of first pairs with keys of full length, sorted without
/// repeats, whose values the codec can encode and decodes as they were;
/// of later pairs whose values the codec can encode; of a hash function
/// that gives each node that is written an address of its own, at which
/// nothing is published; of a maximum depth that the earlier tree does
/// not exceed; and of sorted keys of full length to look for.
pub proof fn lemma_earlier_values_outlast_removal<H: Hasher, V: Codec>(
    first: Seq<(Seq<u8>, V::V)>,
    root: Seq<u8>,
    store: Store,
    later: Seq<(Seq<u8>, V::V)>,
    new_root: Seq<u8>,
    after: Store,
    max_depth: nat,
    queried: Seq<Seq<u8>>,
)
    requires
        store.dom().finite(),
        after.dom().finite(),
        first.len() > 0,
        strictly_sorted(pair_keys(first)),
        forall|i: int| 0 <= i < first.len() ==> (#[trigger] first[i]).0.len() == KEY_LEN,
        forall|i: int| 0 <= i < first.len() ==> V::encoding((#[trigger] first[i]).1) is Some,
        unmistakable::<H, V>(first),
        max_depth >= run_height(key_splits(pair_keys(first)), 0, first.len() - 1),
        insert_yields::<H, V>(
            Map::empty(),
            Map::empty(),
            None,
            first,
            max_depth,
            Ok::<(Seq<u8>, Store), Exception>((root, store)),
        ),
        later.len() > 0,
        forall|i: int| 0 <= i < later.len() ==> V::encoding((#[trigger] later[i]).1) is Some,
        new_nodes_fresh::<H, V>(store, root, later, max_depth),
        insert_yields::<H, V>(
            store,
            store,
            Some(root),
            later,
            max_depth,
            Ok::<(Seq<u8>, Store), Exception>((new_root, after)),
        ),
        sorted(queried),
        forall|i: int| 0 <= i < queried.len() ==> (#[trigger] queried[i]).len() == KEY_LEN,
    ensures
        lookup::<V>(collect_run(after, after, seq![new_root]), root, queried, max_depth) == Ok::<
            Map<Seq<u8>, V::V>,
            Exception,
        >(answers(values_by_key(first), queried)),
{
    let nothing = Map::<Seq<u8>, crate::tree::tree_node::NodeModel>::empty();
    let region = all_keys(max_depth);
    let target = values_by_key(first);
    lemma_first_tree_is_sound::<H, V>(nothing, nothing, first, max_depth, root, store, max_depth);
    lemma_first_insertion_counts::<H, V>(first, max_depth, root, store);
    let pinned = set![root];
    lemma_next_insertion_counts::<H, V>(
        store,
        pinned,
        1,
        root,
        later,
        max_depth,
        new_root,
        after,
    );
    lemma_sound_frame::<V>(store, after, root, region);
    lemma_pinned_tree_survives::<V>(after, pinned.insert(new_root), 2, new_root, root, region);
    let left = collect_run(after, after, seq![new_root]);
    assert(agrees::<V>(left, root, region, target));
    lemma_lookup_in_sound_tree::<V>(left, root, max_depth, target, queried, max_depth);
}

/// After pairs are inserted on a published tree and the new tree is
/// removed again, a lookup under the new root finds nothing, whatever
/// the keys.
///
/// This holds of a store in which nothing is pending; of pairs whose
/// values the codec can encode; and of a hash function that gives each
/// node that is written an address of its own, at which nothing is
/// published.
pub proof fn lemma_later_tree_is_removed<H: Hasher, V: Codec>(
    published: Store,
    root: Seq<u8>,
    pairs: Seq<(Seq<u8>, V::V)>,
    max_depth: nat,
    new_root: Seq<u8>,
    after: Store,
    queried: Seq<Seq<u8>>,
)
    requires
        after.dom().finite(),
        pairs.len() > 0,
        forall|i: int| 0 <= i < pairs.len() ==> V::encoding((#[trigger] pairs[i]).1) is Some,
        new_nodes_fresh::<H, V>(published, root, pairs, max_depth),
        insert_yields::<H, V>(
            published,
            published,
            Some(root),
            pairs,
            max_depth,
            Ok::<(Seq<u8>, Store), Exception>((new_root, after)),
        ),
    ensures
        lookup::<V>(collect_run(after, after, seq![new_root]), new_root, queried, max_depth)
            == Ok::<Map<Seq<u8>, V::V>, Exception>(Map::empty()),
{
    let (kept, refs) = lemma_insertion_grafts::<H, V>(
        published,
        root,
        pairs,
        max_depth,
        new_root,
        after,
    );
    lemma_root_is_stored::<H, V>(published, pairs, kept, refs, new_root, after);
    lemma_lookup_after_removal::<V>(after, after, new_root, queried, max_depth);
}

} // verus!
