//! What an insertion leaves in the store: the nodes that were published,
//! those of them that are taken over with one more reference, and the
//! new nodes.

use vstd::prelude::*;

use crate::model::insert::{insert_yields, new_refs, plant_yields};
use crate::model::leaves::{fresh_references, leaves_run};
use crate::model::trie::{
    before, branch_at, built, key_sorted_perm, last_pair, lemma_last_pair, lemma_run_high,
    lemma_run_high_is, lemma_run_low, lemma_run_low_is, merge_order, merged, planted, ref_keys,
    run_high, run_low, split_bits,
};
use crate::model::walk::{bumped, lemma_walk_step_weight, walk, walk_child, walk_run, walk_step};
use crate::theorems::branching::key_splits;
use crate::theorems::planting::{
    closed, is_branch_address, joined_inside, lemma_branches_written, lemma_order_holds,
    lemma_order_in_range,
};
use crate::theorems::retention::{lemma_references_finite, outside_references, refers};
use crate::theorems::round_trip::{
    branch_of, data_at, leaf_at, leaf_refs, leaves_apart, lemma_leaves_written,
    lemma_sorted_perm_is_given, unmistakable,
};
use crate::theorems::sharing::{
    cells_match, counted_from, lemma_walk_run_counts_up, lemma_walk_step_counts,
};
use crate::theorems::survival::{is_new_node, lemma_leaves_frame, lemma_same_elements, node_of_pair};
use crate::traits::{Encode, Exception, Hasher};
use crate::tree::tree_node::{NodeKind, Store};
use crate::utils::key_order::{pair_keys, strictly_sorted};
use crate::utils::tree_cell::{lemma_queue_weight_add, queue_weight, CellModel};
use crate::utils::tree_ref::RefModel;

verus! {

/// Each subtree of the list is published, and the pending contents hold
/// its node with one more reference than is published.
pub open spec fn all_counted(published: Store, pending: Store, refs: Seq<RefModel>) -> bool {
    forall|j: int|
        0 <= j < refs.len() ==> published.contains_key((#[trigger] refs[j]).location)
            && pending.contains_key(refs[j].location) && pending[refs[j].location] == bumped(
            published[refs[j].location],
        )
}

/// A step of the walk writes the node of each subtree that it yields
/// with one more reference than is published.
pub proof fn lemma_walk_step_counts_its_own(
    published: Store,
    pending: Store,
    cell: CellModel,
    keys: Seq<Seq<u8>>,
    locations: Seq<Seq<u8>>,
    max_depth: nat,
)
    requires
        published.contains_key(cell.location),
        published[cell.location] == cell.node,
        walk_step(published, pending, cell, keys, locations, max_depth).error is None,
    ensures
        all_counted(
            published,
            walk_step(published, pending, cell, keys, locations, max_depth).store,
            walk_step(published, pending, cell, keys, locations, max_depth).emitted,
        ),
{
    let step = walk_step(published, pending, cell, keys, locations, max_depth);
    match cell.node.kind {
        NodeKind::Branch { count, zero, one, split_index, key } => {
            let below = crate::utils::tree_utils::descendants(cell.keys, key, split_index as int);
            if cell.keys.len() > 0 && below.len() == 0 {
            } else {
                let zeros = crate::utils::tree_utils::zero_side(below, split_index as int);
                let ones = crate::utils::tree_utils::one_side(below, split_index as int);
                let first = walk_child(published, pending, one, ones, cell.depth + 1);
                let second = walk_child(published, first.store, zero, zeros, cell.depth + 1);
                assert(step.emitted =~= first.emitted + second.emitted);
                assert(all_counted(published, first.store, first.emitted));
                assert(all_counted(published, second.store, second.emitted));
                assert forall|j: int| 0 <= j < step.emitted.len() implies published.contains_key(
                    (#[trigger] step.emitted[j]).location,
                ) && step.store.contains_key(step.emitted[j].location)
                    && step.store[step.emitted[j].location] == bumped(
                    published[step.emitted[j].location],
                ) by {
                    if j < first.emitted.len() {
                        assert(step.emitted[j] == first.emitted[j]);
                    } else {
                        assert(step.emitted[j] == second.emitted[j - first.emitted.len()]);
                    }
                }
            }
        },
        _ => {},
    }
}

/// The walk through an earlier tree leaves the node of each subtree that
/// it yields with one more reference than is published.
pub proof fn lemma_walk_counts_what_it_yields(
    published: Store,
    pending: Store,
    queue: Seq<CellModel>,
    emitted: Seq<RefModel>,
    keys: Seq<Seq<u8>>,
    locations: Seq<Seq<u8>>,
    max_depth: nat,
    kept: Seq<RefModel>,
    counted: Store,
)
    requires
        cells_match(published, queue),
        all_counted(published, pending, emitted),
        walk_run(published, pending, queue, emitted, keys, locations, max_depth) == Ok::<
            (Seq<RefModel>, Store),
            Exception,
        >((kept, counted)),
    ensures
        all_counted(published, counted, kept),
    decreases queue_weight(queue, max_depth),
{
    if queue.len() != 0 {
        let step = walk_step(published, pending, queue[0], keys, locations, max_depth);
        lemma_walk_step_weight(published, pending, queue[0], keys, locations, max_depth);
        lemma_queue_weight_add(queue.drop_first(), step.pushed, max_depth);
        lemma_walk_step_counts(published, pending, queue[0], keys, locations, max_depth);
        lemma_walk_step_counts_its_own(published, pending, queue[0], keys, locations, max_depth);
        let next = queue.drop_first() + step.pushed;
        assert forall|i: int| 0 <= i < next.len() implies published.contains_key(
            (#[trigger] next[i]).location,
        ) && published[next[i].location] == next[i].node by {
            if i < queue.len() - 1 {
                assert(next[i] == queue[i + 1]);
            } else {
                assert(next[i] == step.pushed[i - (queue.len() - 1)]);
            }
        }
        let more = emitted + step.emitted;
        assert forall|j: int| 0 <= j < more.len() implies published.contains_key(
            (#[trigger] more[j]).location,
        ) && step.store.contains_key(more[j].location) && step.store[more[j].location] == bumped(
            published[more[j].location],
        ) by {
            if j < emitted.len() {
                assert(more[j] == emitted[j]);
                assert(pending.contains_key(emitted[j].location));
            } else {
                assert(more[j] == step.emitted[j - emitted.len()]);
            }
        }
        lemma_walk_counts_what_it_yields(
            published,
            step.store,
            next,
            more,
            keys,
            locations,
            max_depth,
            kept,
            counted,
        );
    }
}

/// The nodes that are written when a tree is built over the new leaves
/// of the pairs and the subtrees `sorted_refs` have addresses of their
/// own, at which nothing is published:
///
/// - no two leaves and no two data nodes of the pairs have one address,
///   and no leaf has the address of a data node;
/// - nothing is published at the address of a leaf or of a data node of
///   the pairs;
/// - no two pairs of subtrees have their branches at one address;
/// - nothing is published at the address of a branch, and no leaf or data
///   node of the pairs is there;
/// - nothing is published at the address of what stands for a run of two
///   or more subtrees;
/// - no two subtrees have one address.
pub open spec fn grafts_fresh<H: Hasher, V: Encode>(
    published: Store,
    pairs: Seq<(Seq<u8>, V::V)>,
    sorted_refs: Seq<RefModel>,
) -> bool {
    let splits = split_bits(sorted_refs);
    &&& leaves_apart::<H, V>(pairs)
    &&& forall|i: int|
        0 <= i < pairs.len() ==> !published.contains_key(#[trigger] leaf_at::<H, V>(pairs, i))
            && !published.contains_key(data_at::<H, V>(pairs, i))
    &&& forall|p: int, q: int|
        0 <= p < splits.len() && 0 <= q < splits.len() && p != q ==> (#[trigger] branch_at::<H>(
            sorted_refs,
            splits,
            p,
        )).0 != (#[trigger] branch_at::<H>(sorted_refs, splits, q)).0
    &&& forall|p: int|
        0 <= p < splits.len() ==> !published.contains_key(
            (#[trigger] branch_at::<H>(sorted_refs, splits, p)).0,
        ) && !is_new_node::<H, V>(pairs, branch_at::<H>(sorted_refs, splits, p).0)
    &&& forall|a: int, e: int|
        0 <= a < e < sorted_refs.len() ==> !published.contains_key(
            (#[trigger] merged::<H>(sorted_refs, splits, a, e)).location,
        )
    &&& forall|i: int, j: int|
        0 <= i < j < sorted_refs.len() ==> (#[trigger] sorted_refs[i]).location != (
        #[trigger] sorted_refs[j]).location
}

/// The nodes that the insertion of the pairs on the tree at `root`
/// writes have addresses of their own, at which nothing is published.
pub open spec fn new_nodes_fresh<H: Hasher, V: Encode>(
    published: Store,
    root: Seq<u8>,
    pairs: Seq<(Seq<u8>, V::V)>,
    max_depth: nat,
) -> bool {
    leaves_run::<H, V>(published, published, pairs) matches Ok((locations, with_leaves)) ==> (walk(
        published,
        with_leaves,
        root,
        pair_keys(pairs),
        locations,
        max_depth,
    ) matches Ok((kept, counted)) ==> forall|sorted_refs: Seq<RefModel>| #[trigger]
        key_sorted_perm(sorted_refs, new_refs(pair_keys(pairs), locations) + kept)
            ==> grafts_fresh::<H, V>(published, pairs, sorted_refs))
}

/// The subtree that a new branch has on the side `side` is a subtree of
/// the list, where the node on that side is published: the subtree of
/// the pair itself on the zero side, the next one on the one side.
pub proof fn lemma_published_child<H: Hasher, V: Encode>(
    published: Store,
    pairs: Seq<(Seq<u8>, V::V)>,
    sorted_refs: Seq<RefModel>,
    p: int,
    side: bool,
    x: Seq<u8>,
)
    requires
        grafts_fresh::<H, V>(published, pairs, sorted_refs),
        0 <= p < split_bits(sorted_refs).len(),
        split_bits(sorted_refs).len() == sorted_refs.len() - 1,
        published.contains_key(x),
        branch_at::<H>(sorted_refs, split_bits(sorted_refs), p).1.kind matches NodeKind::Branch {
            count,
            zero,
            one,
            split_index,
            key,
        } && (if side {
            one == x
        } else {
            zero == x
        }),
    ensures
        side ==> run_high(split_bits(sorted_refs), p) == p + 1 && sorted_refs[p + 1].location == x,
        !side ==> run_low(split_bits(sorted_refs), p) == p && sorted_refs[p].location == x,
{
    let splits = split_bits(sorted_refs);
    lemma_run_low(splits, p);
    lemma_run_high(splits, p);
    let low = run_low(splits, p);
    let high = run_high(splits, p);
    if side {
        if p + 1 < high {
            assert(!published.contains_key(merged::<H>(sorted_refs, splits, p + 1, high).location));
        }
        assert(merged::<H>(sorted_refs, splits, p + 1, p + 1) == sorted_refs[p + 1]);
    } else {
        if low < p {
            assert(!published.contains_key(merged::<H>(sorted_refs, splits, low, p).location));
        }
        assert(merged::<H>(sorted_refs, splits, p, p) == sorted_refs[p]);
    }
}

/// A subtree of the list is the child of one new branch at most, and on
/// one side.
pub proof fn lemma_one_parent(splits: Seq<u8>, p: int, side: bool, q: int, other: bool)
    requires
        0 <= p < splits.len(),
        0 <= q < splits.len(),
        side ==> run_high(splits, p) == p + 1,
        !side ==> run_low(splits, p) == p,
        other ==> run_high(splits, q) == q + 1,
        !other ==> run_low(splits, q) == q,
        p + (if side {
            1int
        } else {
            0int
        }) == q + (if other {
            1int
        } else {
            0int
        }),
    ensures
        p == q,
        side == other,
{
    lemma_run_low(splits, p);
    lemma_run_high(splits, p);
    lemma_run_low(splits, q);
    lemma_run_high(splits, q);
    if side && !other {
        // q == p + 1: pair q starts its run, and the run of pair p ends before it
        assert(!before(splits, p, q));
        assert(!before(splits, q, p));
    }
    if !side && other {
        assert(!before(splits, q, p));
        assert(!before(splits, p, q));
    }
}

/// What an insertion on a published tree leaves in the store: the
/// nodes that were published, with their records, and the new nodes.
/// `sorted_refs` are the subtrees over which the new tree is built, and
/// `kept` those that are taken over.
pub open spec fn grafted<H: Hasher, V: Encode>(
    published: Store,
    pairs: Seq<(Seq<u8>, V::V)>,
    kept: Seq<RefModel>,
    sorted_refs: Seq<RefModel>,
    after: Store,
) -> bool {
    let splits = split_bits(sorted_refs);
    &&& splits.len() == sorted_refs.len() - 1
    &&& forall|x: Seq<u8>| #[trigger]
        published.contains_key(x) ==> after.contains_key(x) && (after[x] == published[x]
            || after[x] == bumped(published[x]))
    &&& forall|j: int|
        0 <= j < kept.len() ==> published.contains_key((#[trigger] kept[j]).location)
            && after[kept[j].location] == bumped(published[kept[j].location])
    &&& forall|i: int|
        0 <= i < sorted_refs.len() ==> kept.contains(#[trigger] sorted_refs[i])
            || !published.contains_key(sorted_refs[i].location)
    &&& forall|p: int|
        0 <= p < splits.len() ==> after.contains_key(
            (#[trigger] branch_at::<H>(sorted_refs, splits, p)).0,
        ) && after[branch_at::<H>(sorted_refs, splits, p).0] == branch_at::<H>(
            sorted_refs,
            splits,
            p,
        ).1
    &&& forall|y: Seq<u8>| #[trigger]
        after.contains_key(y) ==> published.contains_key(y) || is_branch_address::<H>(
            sorted_refs,
            splits,
            y,
        ) || !(after[y].kind is Branch)
    &&& forall|y: Seq<u8>, side: bool, x: Seq<u8>|
        !published.contains_key(y) && #[trigger] refers(after, y, side, x) && !(
        after[y].kind is Branch) ==> !published.contains_key(x)
}

/// `a` is the address of the leaf of a pair.
pub open spec fn is_leaf_address<H: Hasher, V: Encode>(
    pairs: Seq<(Seq<u8>, V::V)>,
    a: Seq<u8>,
) -> bool {
    exists|i: int| 0 <= i < pairs.len() && #[trigger] leaf_at::<H, V>(pairs, i) == a
}

/// What an insertion leaves in the store of new nodes: the leaves of the
/// pairs and their data nodes, with their records; no node but the
/// published ones, the leaves, the data nodes and the branches; each
/// subtree over which the tree is built is taken over or a new leaf; the
/// new root stands for all subtrees; and each node that was not published
/// has one reference.
pub open spec fn grafted_new<H: Hasher, V: Encode>(
    published: Store,
    pairs: Seq<(Seq<u8>, V::V)>,
    kept: Seq<RefModel>,
    sorted_refs: Seq<RefModel>,
    new_root: Seq<u8>,
    after: Store,
) -> bool {
    let splits = split_bits(sorted_refs);
    &&& sorted_refs.len() > 0
    &&& new_root == merged::<H>(sorted_refs, splits, 0, sorted_refs.len() - 1).location
    &&& forall|i: int|
        0 <= i < pairs.len() ==> {
            &&& after.contains_key(#[trigger] leaf_at::<H, V>(pairs, i))
            &&& after[leaf_at::<H, V>(pairs, i)].kind == NodeKind::Leaf {
                key: pairs[i].0,
                data: data_at::<H, V>(pairs, i),
            }
            &&& after.contains_key(data_at::<H, V>(pairs, i))
            &&& after[data_at::<H, V>(pairs, i)].kind is Data
        }
    &&& forall|y: Seq<u8>| #[trigger]
        after.contains_key(y) ==> published.contains_key(y) || is_new_node::<H, V>(pairs, y)
            || is_branch_address::<H>(sorted_refs, splits, y)
    &&& forall|i: int|
        0 <= i < sorted_refs.len() ==> kept.contains(#[trigger] sorted_refs[i])
            || is_leaf_address::<H, V>(pairs, sorted_refs[i].location)
    &&& forall|y: Seq<u8>| #[trigger]
        after.contains_key(y) && !published.contains_key(y) ==> after[y].references == 1
}

/// After an insertion on a published tree, each node that was published
/// has a reference more than there are references to it from new nodes.
/// There is one such reference at most, and a node that has one was
/// written with one more reference than was published.
pub proof fn lemma_grafted_counts<H: Hasher, V: Encode>(
    published: Store,
    pairs: Seq<(Seq<u8>, V::V)>,
    kept: Seq<RefModel>,
    sorted_refs: Seq<RefModel>,
    after: Store,
    x: Seq<u8>,
)
    requires
        after.dom().finite(),
        grafts_fresh::<H, V>(published, pairs, sorted_refs),
        grafted::<H, V>(published, pairs, kept, sorted_refs, after),
        published.contains_key(x),
        published[x].references >= 1,
    ensures
        after[x].references >= 1 + outside_references(after, published.dom(), x).len(),
        outside_references(after, published.dom(), x).len() == 0 || (outside_references(
            after,
            published.dom(),
            x,
        ).len() == 1 && after[x] == bumped(published[x])),
{
    let splits = split_bits(sorted_refs);
    let retained = published.dom();
    let outside = outside_references(after, retained, x);
    lemma_references_finite(after, retained, x);
    if outside.len() != 0 {
        let e = outside.choose();
        assert(outside.contains(e));
        assert forall|f: (Seq<u8>, bool)| outside.contains(f) implies f == e by {
            let (p, i) = lemma_new_parent::<H, V>(published, pairs, kept, sorted_refs, after, x, e);
            let (q, j) = lemma_new_parent::<H, V>(published, pairs, kept, sorted_refs, after, x, f);
            if i < j {
                assert(sorted_refs[i].location != sorted_refs[j].location);
            }
            if j < i {
                assert(sorted_refs[j].location != sorted_refs[i].location);
            }
            lemma_one_parent(splits, p, e.1, q, f.1);
        }
        assert(outside.remove(e) =~= Set::<(Seq<u8>, bool)>::empty());
        assert(outside.len() == 1);
        let (p, i) = lemma_new_parent::<H, V>(published, pairs, kept, sorted_refs, after, x, e);
        assert(kept.contains(sorted_refs[i]));
        let j = choose|j: int| 0 <= j < kept.len() && kept[j] == sorted_refs[i];
        assert(after[kept[j].location] == bumped(published[kept[j].location]));
    }
}

/// A new node that refers to a published node is a new branch; the
/// published node is a subtree of the list, on the side of the reference.
pub proof fn lemma_new_parent<H: Hasher, V: Encode>(
    published: Store,
    pairs: Seq<(Seq<u8>, V::V)>,
    kept: Seq<RefModel>,
    sorted_refs: Seq<RefModel>,
    after: Store,
    x: Seq<u8>,
    e: (Seq<u8>, bool),
) -> (r: (int, int))
    requires
        grafts_fresh::<H, V>(published, pairs, sorted_refs),
        grafted::<H, V>(published, pairs, kept, sorted_refs, after),
        published.contains_key(x),
        outside_references(after, published.dom(), x).contains(e),
    ensures
        0 <= r.0 < split_bits(sorted_refs).len(),
        e.0 == branch_at::<H>(sorted_refs, split_bits(sorted_refs), r.0).0,
        r.1 == r.0 + (if e.1 {
            1int
        } else {
            0int
        }),
        0 <= r.1 < sorted_refs.len(),
        sorted_refs[r.1].location == x,
        e.1 ==> run_high(split_bits(sorted_refs), r.0) == r.0 + 1,
        !e.1 ==> run_low(split_bits(sorted_refs), r.0) == r.0,
{
    let splits = split_bits(sorted_refs);
    let y = e.0;
    assert(!published.contains_key(y));
    assert(refers(after, y, e.1, x));
    assert(after.contains_key(y));
    assert(after[y].kind is Branch);
    assert(is_branch_address::<H>(sorted_refs, splits, y));
    let p = choose|p: int|
        0 <= p < splits.len() && (#[trigger] branch_at::<H>(sorted_refs, splits, p)).0 == y;
    assert(after[y] == branch_at::<H>(sorted_refs, splits, p).1);
    lemma_published_child::<H, V>(published, pairs, sorted_refs, p, e.1, x);
    (p, p + (if e.1 {
        1int
    } else {
        0int
    }))
}

/// What an insertion on a published tree leaves in the store, where
/// nothing was pending: the subtrees taken over and the subtrees over
/// which the new tree is built, with what `grafted` says of them. The new
/// root is not published before.
pub proof fn lemma_insertion_grafts<H: Hasher, V: Encode>(
    published: Store,
    root: Seq<u8>,
    pairs: Seq<(Seq<u8>, V::V)>,
    max_depth: nat,
    new_root: Seq<u8>,
    after: Store,
) -> (r: (Seq<RefModel>, Seq<RefModel>))
    requires
        pairs.len() > 0,
        forall|i: int| 0 <= i < pairs.len() ==> V::encoding((#[trigger] pairs[i]).1) is Some,
        new_nodes_fresh::<H, V>(published, root, pairs, max_depth),
        insert_yields::<H, V>(
            published,
            published,
            Some(root),
            pairs,
            max_depth,
            Ok::<(Seq<u8>, Store), Exception>((new_root, after)),
        ),
    ensures
        grafts_fresh::<H, V>(published, pairs, r.1),
        grafted::<H, V>(published, pairs, r.0, r.1, after),
        grafted_new::<H, V>(published, pairs, r.0, r.1, new_root, after),
        !published.contains_key(new_root),
{
    let outcome = Ok::<(Seq<u8>, Store), Exception>((new_root, after));
    let keys = pair_keys(pairs);
    lemma_leaves_frame::<H, V>(published, published, pairs);
    let (locations, with_leaves) = leaves_run::<H, V>(published, published, pairs)->Ok_0;
    let fresh = new_refs(keys, locations);
    let (kept, counted) = walk(published, with_leaves, root, keys, locations, max_depth)->Ok_0;
    assert(plant_yields::<H>(counted, fresh + kept, outcome));
    let sorted_refs = choose|sorted_refs: Seq<RefModel>| #[trigger]
        key_sorted_perm(sorted_refs, fresh + kept) && planted::<H>(counted, sorted_refs)
            == outcome;
    assert(grafts_fresh::<H, V>(published, pairs, sorted_refs));
    lemma_leaves_written::<H, V>(published, published, pairs);
    let start = seq![CellModel { location: root, keys, node: published[root], depth: 0 }];
    lemma_walk_run_counts_up(
        published,
        with_leaves,
        start,
        Seq::empty(),
        keys,
        locations,
        max_depth,
        kept,
        counted,
    );
    lemma_walk_counts_what_it_yields(
        published,
        with_leaves,
        start,
        Seq::empty(),
        keys,
        locations,
        max_depth,
        kept,
        counted,
    );
    let splits = split_bits(sorted_refs);
    let n = sorted_refs.len();
    lemma_same_elements(sorted_refs, fresh + kept);
    assert(fresh.len() == pairs.len());
    if n > 1 {
        let order = merge_order(splits);
        lemma_order_in_range(splits, 0);
        lemma_branches_written::<H>(counted, sorted_refs, splits, order);
        assert(after == built::<H>(counted, sorted_refs, splits, order));
        assert forall|p: int| 0 <= p < splits.len() implies after.contains_key(
            (#[trigger] branch_at::<H>(sorted_refs, splits, p)).0,
        ) && after[branch_at::<H>(sorted_refs, splits, p).0] == branch_at::<H>(
            sorted_refs,
            splits,
            p,
        ).1 by {
            lemma_order_holds(splits, 0, p);
            let j = choose|j: int| 0 <= j < order.len() && order[j] == p;
            assert(order[j] == p);
        }
        assert(!published.contains_key(merged::<H>(sorted_refs, splits, 0, n - 1).location));
    } else {
        assert(after == counted);
        assert(kept.len() == 0);
        assert((fresh + kept).contains(sorted_refs[0]));
        let j = choose|j: int| 0 <= j < (fresh + kept).len() && (fresh + kept)[j] == sorted_refs[0];
        assert((fresh + kept)[j] == fresh[j]);
        assert(fresh[j].location == leaf_at::<H, V>(pairs, j));
    }
    // the store but at the addresses of branches
    assert forall|a: Seq<u8>| !is_branch_address::<H>(sorted_refs, splits, a) implies (
    #[trigger] after.contains_key(a) <==> counted.contains_key(a)) && (counted.contains_key(a)
        ==> after[a] == counted[a]) by {}
    assert forall|x: Seq<u8>| #[trigger] published.contains_key(x) implies after.contains_key(x)
        && (after[x] == published[x] || after[x] == bumped(published[x])) by {
        lemma_published_is_not_new::<H, V>(published, pairs, sorted_refs, x);
        assert(leaves_run::<H, V>(published, published, pairs)->Ok_0.1.contains_key(x));
        assert(with_leaves.contains_key(x) && with_leaves[x] == published[x]);
        assert(counted.contains_key(x));
    }
    assert forall|j: int| 0 <= j < kept.len() implies published.contains_key(
        (#[trigger] kept[j]).location,
    ) && after[kept[j].location] == bumped(published[kept[j].location]) by {
        lemma_published_is_not_new::<H, V>(published, pairs, sorted_refs, kept[j].location);
    }
    assert forall|i: int| 0 <= i < sorted_refs.len() implies kept.contains(
        #[trigger] sorted_refs[i],
    ) || !published.contains_key(sorted_refs[i].location) by {
        assert(sorted_refs.contains(sorted_refs[i]));
        assert((fresh + kept).contains(sorted_refs[i]));
        let j = choose|j: int| 0 <= j < (fresh + kept).len() && (fresh + kept)[j] == sorted_refs[i];
        if j < fresh.len() {
            assert((fresh + kept)[j] == fresh[j]);
            assert(fresh[j].location == leaf_at::<H, V>(pairs, j));
        } else {
            assert((fresh + kept)[j] == kept[j - fresh.len()]);
        }
    }
    assert forall|y: Seq<u8>| #[trigger] after.contains_key(y) implies published.contains_key(y)
        || is_branch_address::<H>(sorted_refs, splits, y) || !(after[y].kind is Branch) by {
        if !published.contains_key(y) && !is_branch_address::<H>(sorted_refs, splits, y) {
            lemma_new_node_is_no_branch::<H, V>(published, pairs, with_leaves, counted, y);
        }
    }
    assert forall|y: Seq<u8>, side: bool, x: Seq<u8>|
        !published.contains_key(y) && #[trigger] refers(after, y, side, x) && !(
        after[y].kind is Branch) implies !published.contains_key(x) by {
        assert(after.contains_key(y));
        if is_branch_address::<H>(sorted_refs, splits, y) {
            let p = choose|p: int|
                0 <= p < splits.len() && (#[trigger] branch_at::<H>(sorted_refs, splits, p)).0
                    == y;
            assert(after[y] == branch_at::<H>(sorted_refs, splits, p).1);
        } else {
            assert(counted.contains_key(y) && after[y] == counted[y]);
            lemma_new_node_is_no_branch::<H, V>(published, pairs, with_leaves, counted, y);
            assert(refers(counted, y, side, x));
        }
    }
    // the new nodes
    assert forall|i: int| 0 <= i < pairs.len() implies {
        &&& after.contains_key(#[trigger] leaf_at::<H, V>(pairs, i))
        &&& after[leaf_at::<H, V>(pairs, i)].kind == NodeKind::Leaf {
            key: pairs[i].0,
            data: data_at::<H, V>(pairs, i),
        }
        &&& after.contains_key(data_at::<H, V>(pairs, i))
        &&& after[data_at::<H, V>(pairs, i)].kind is Data
    } by {
        let leaf = leaf_at::<H, V>(pairs, i);
        let data = data_at::<H, V>(pairs, i);
        assert(node_of_pair::<H, V>(pairs, i, leaf));
        assert(node_of_pair::<H, V>(pairs, i, data));
        assert(is_new_node::<H, V>(pairs, leaf) && is_new_node::<H, V>(pairs, data));
        assert(with_leaves.contains_key(leaf) && with_leaves.contains_key(data));
        assert(!published.contains_key(leaf) && !published.contains_key(data));
        assert(counted.contains_key(leaf) && counted[leaf] == with_leaves[leaf]);
        assert(counted.contains_key(data) && counted[data] == with_leaves[data]);
        if is_branch_address::<H>(sorted_refs, splits, leaf) {
            let p = choose|p: int|
                0 <= p < splits.len() && (#[trigger] branch_at::<H>(sorted_refs, splits, p)).0
                    == leaf;
            assert(!is_new_node::<H, V>(pairs, branch_at::<H>(sorted_refs, splits, p).0));
        }
        if is_branch_address::<H>(sorted_refs, splits, data) {
            let p = choose|p: int|
                0 <= p < splits.len() && (#[trigger] branch_at::<H>(sorted_refs, splits, p)).0
                    == data;
            assert(!is_new_node::<H, V>(pairs, branch_at::<H>(sorted_refs, splits, p).0));
        }
    }
    assert forall|y: Seq<u8>| #[trigger] after.contains_key(y) implies published.contains_key(y)
        || is_new_node::<H, V>(pairs, y) || is_branch_address::<H>(sorted_refs, splits, y) by {
        if !is_branch_address::<H>(sorted_refs, splits, y) && !published.contains_key(y) {
            assert(counted.contains_key(y));
            assert(with_leaves.contains_key(y));
            assert(leaves_run::<H, V>(published, published, pairs)->Ok_0.1.contains_key(y));
        }
    }
    assert forall|i: int| 0 <= i < sorted_refs.len() implies kept.contains(
        #[trigger] sorted_refs[i],
    ) || is_leaf_address::<H, V>(pairs, sorted_refs[i].location) by {
        assert(sorted_refs.contains(sorted_refs[i]));
        assert((fresh + kept).contains(sorted_refs[i]));
        let j = choose|j: int| 0 <= j < (fresh + kept).len() && (fresh + kept)[j] == sorted_refs[i];
        if j < fresh.len() {
            assert((fresh + kept)[j] == fresh[j]);
            assert(leaf_at::<H, V>(pairs, j) == fresh[j].location);
        } else {
            assert((fresh + kept)[j] == kept[j - fresh.len()]);
        }
    }
    lemma_leaves_have_references::<H, V>(published, published, pairs);
    assert forall|y: Seq<u8>| #[trigger]
        after.contains_key(y) && !published.contains_key(y) implies after[y].references == 1 by {
        if is_branch_address::<H>(sorted_refs, splits, y) {
            let p = choose|p: int|
                0 <= p < splits.len() && (#[trigger] branch_at::<H>(sorted_refs, splits, p)).0
                    == y;
            assert(after[y] == branch_at::<H>(sorted_refs, splits, p).1);
        } else {
            assert(counted.contains_key(y) && after[y] == counted[y]);
            assert(with_leaves.contains_key(y) && counted[y] == with_leaves[y]);
        }
    }
    assert(new_root == merged::<H>(sorted_refs, splits, 0, n - 1).location);
    (kept, sorted_refs)
}

/// A published node is none of the nodes that the insertion writes.
pub proof fn lemma_published_is_not_new<H: Hasher, V: Encode>(
    published: Store,
    pairs: Seq<(Seq<u8>, V::V)>,
    sorted_refs: Seq<RefModel>,
    x: Seq<u8>,
)
    requires
        grafts_fresh::<H, V>(published, pairs, sorted_refs),
        published.contains_key(x),
    ensures
        !is_new_node::<H, V>(pairs, x),
        !is_branch_address::<H>(sorted_refs, split_bits(sorted_refs), x),
{
    if is_new_node::<H, V>(pairs, x) {
        let i = choose|i: int| 0 <= i < pairs.len() && #[trigger] node_of_pair::<H, V>(pairs, i, x);
        assert(!published.contains_key(leaf_at::<H, V>(pairs, i)));
    }
}

/// A node that is pending after the leaves are written and the earlier
/// tree is walked, and that is not published, is a new leaf or a new
/// data node; a new leaf refers to its data node, which is not published.
pub proof fn lemma_new_node_is_no_branch<H: Hasher, V: Encode>(
    published: Store,
    pairs: Seq<(Seq<u8>, V::V)>,
    with_leaves: Store,
    counted: Store,
    y: Seq<u8>,
)
    requires
        forall|i: int| 0 <= i < pairs.len() ==> V::encoding((#[trigger] pairs[i]).1) is Some,
        leaves_apart::<H, V>(pairs),
        forall|i: int|
            0 <= i < pairs.len() ==> !published.contains_key(#[trigger] leaf_at::<H, V>(pairs, i))
                && !published.contains_key(data_at::<H, V>(pairs, i)),
        leaves_run::<H, V>(published, published, pairs) matches Ok((locations, written))
            && written == with_leaves,
        counted_from(published, with_leaves, counted),
        counted.contains_key(y),
        !published.contains_key(y),
    ensures
        !(counted[y].kind is Branch),
        forall|side: bool, x: Seq<u8>|
            #[trigger] refers(counted, y, side, x) ==> !published.contains_key(x),
{
    lemma_leaves_frame::<H, V>(published, published, pairs);
    lemma_leaves_written::<H, V>(published, published, pairs);
    assert(with_leaves.contains_key(y) && counted[y] == with_leaves[y]);
    assert(leaves_run::<H, V>(published, published, pairs)->Ok_0.1.contains_key(y));
    assert(is_new_node::<H, V>(pairs, y));
    let i = choose|i: int| 0 <= i < pairs.len() && #[trigger] node_of_pair::<H, V>(pairs, i, y);
    assert(!published.contains_key(leaf_at::<H, V>(pairs, i)));
}

/// Each node that is pending after the leaves of a batch are written
/// was pending before, or it was written with one more reference than
/// is published.
pub proof fn lemma_leaves_have_references<H: Hasher, V: Encode>(
    published: Store,
    store: Store,
    pairs: Seq<(Seq<u8>, V::V)>,
)
    ensures
        leaves_run::<H, V>(published, store, pairs) matches Ok((locations, written)) ==> forall|
            a: Seq<u8>,
        | #[trigger]
            written.contains_key(a) ==> (store.contains_key(a) && written[a] == store[a])
                || written[a].references == fresh_references(published, a),
    decreases pairs.len(),
{
    if pairs.len() > 0 {
        lemma_leaves_have_references::<H, V>(published, store, pairs.drop_last());
    }
}

/// The subtree that stands for a run of subtrees whose pairs are joined
/// before the pairs next to the run is in the store, where the subtrees
/// and the branches of all pairs are.
pub proof fn lemma_run_is_stored<H: Hasher>(
    store: Store,
    refs: Seq<RefModel>,
    splits: Seq<u8>,
    a: int,
    e: int,
)
    requires
        refs.len() == splits.len() + 1,
        0 <= a <= e < refs.len(),
        closed(splits, a, e),
        forall|i: int| 0 <= i < refs.len() ==> store.contains_key((#[trigger] refs[i]).location),
        forall|p: int|
            0 <= p < splits.len() ==> store.contains_key(
                (#[trigger] branch_at::<H>(refs, splits, p)).0,
            ),
    ensures
        store.contains_key(merged::<H>(refs, splits, a, e).location),
{
    if a < e {
        let p = last_pair(splits, a, e);
        lemma_last_pair(splits, a, e);
        assert forall|q: int| a <= q < p implies before(splits, q, p) by {}
        assert(joined_inside(splits, p, a, e));
        lemma_run_low_is(splits, p, a);
        assert forall|q: int| p + 1 <= q < e implies before(splits, q, p) by {}
        lemma_run_high_is(splits, p, e);
        assert(merged::<H>(refs, splits, a, e).location == branch_at::<H>(refs, splits, p).0);
    }
}

/// The children of the branch of a pair are in the store, where the
/// subtrees and the branches of all pairs are.
pub proof fn lemma_children_are_stored<H: Hasher>(
    store: Store,
    refs: Seq<RefModel>,
    splits: Seq<u8>,
    p: int,
)
    requires
        refs.len() == splits.len() + 1,
        0 <= p < splits.len(),
        forall|i: int| 0 <= i < refs.len() ==> store.contains_key((#[trigger] refs[i]).location),
        forall|q: int|
            0 <= q < splits.len() ==> store.contains_key(
                (#[trigger] branch_at::<H>(refs, splits, q)).0,
            ),
    ensures
        branch_at::<H>(refs, splits, p).1.kind matches NodeKind::Branch {
            count,
            zero,
            one,
            split_index,
            key,
        } && store.contains_key(zero) && store.contains_key(one),
{
    lemma_run_low(splits, p);
    lemma_run_high(splits, p);
    let low = run_low(splits, p);
    let high = run_high(splits, p);
    assert forall|q: int| low <= q < p implies #[trigger] joined_inside(splits, q, low, p) by {
        assert(before(splits, q, p));
    }
    assert forall|q: int| p + 1 <= q < high implies #[trigger] joined_inside(
        splits,
        q,
        p + 1,
        high,
    ) by {
        assert(before(splits, q, p));
    }
    lemma_run_is_stored::<H>(store, refs, splits, low, p);
    lemma_run_is_stored::<H>(store, refs, splits, p + 1, high);
}

/// What an insertion under no previous root leaves in a store that
/// held nothing: the tree is built over the leaves of the pairs, none is
/// taken over, and `grafted` and `grafted_new` hold of the store.
pub proof fn lemma_first_insertion_grafts<H: Hasher, V: Encode>(
    pairs: Seq<(Seq<u8>, V::V)>,
    max_depth: nat,
    root: Seq<u8>,
    after: Store,
)
    requires
        pairs.len() > 0,
        strictly_sorted(pair_keys(pairs)),
        forall|i: int| 0 <= i < pairs.len() ==> V::encoding((#[trigger] pairs[i]).1) is Some,
        unmistakable::<H, V>(pairs),
        insert_yields::<H, V>(
            Map::empty(),
            Map::empty(),
            None,
            pairs,
            max_depth,
            Ok::<(Seq<u8>, Store), Exception>((root, after)),
        ),
    ensures
        grafts_fresh::<H, V>(Map::empty(), pairs, leaf_refs::<H, V>(pairs)),
        grafted::<H, V>(Map::empty(), pairs, Seq::empty(), leaf_refs::<H, V>(pairs), after),
        grafted_new::<H, V>(
            Map::empty(),
            pairs,
            Seq::empty(),
            leaf_refs::<H, V>(pairs),
            root,
            after,
        ),
{
    let nothing = Map::<Seq<u8>, crate::tree::tree_node::NodeModel>::empty();
    let none = Seq::<RefModel>::empty();
    let outcome = Ok::<(Seq<u8>, Store), Exception>((root, after));
    let keys = pair_keys(pairs);
    let n = pairs.len() as int;
    lemma_leaves_written::<H, V>(nothing, nothing, pairs);
    lemma_leaves_frame::<H, V>(nothing, nothing, pairs);
    lemma_leaves_have_references::<H, V>(nothing, nothing, pairs);
    let (locations, with_leaves) = leaves_run::<H, V>(nothing, nothing, pairs)->Ok_0;
    let fresh = new_refs(keys, locations);
    assert(fresh =~= leaf_refs::<H, V>(pairs));
    assert(ref_keys(fresh) =~= keys);
    assert(plant_yields::<H>(with_leaves, fresh, outcome));
    let sorted_refs = choose|sorted_refs: Seq<RefModel>| #[trigger]
        key_sorted_perm(sorted_refs, fresh) && planted::<H>(with_leaves, sorted_refs) == outcome;
    lemma_sorted_perm_is_given(fresh, sorted_refs);
    let splits = split_bits(fresh);
    assert(splits =~= key_splits(keys));
    assert forall|a: Seq<u8>| #[trigger] with_leaves.contains_key(a) implies is_new_node::<H, V>(
        pairs,
        a,
    ) by {
        assert(leaves_run::<H, V>(nothing, nothing, pairs)->Ok_0.1.contains_key(a));
    }
    assert forall|p: int, q: int|
        0 <= p < splits.len() && 0 <= q < splits.len() && p != q implies (
    #[trigger] branch_at::<H>(fresh, splits, p)).0 != (#[trigger] branch_at::<H>(
        fresh,
        splits,
        q,
    )).0 by {
        assert(branch_of::<H, V>(pairs, p) != branch_of::<H, V>(pairs, q));
    }
    assert forall|p: int| 0 <= p < splits.len() implies !is_new_node::<H, V>(
        pairs,
        (#[trigger] branch_at::<H>(fresh, splits, p)).0,
    ) by {
        let b = branch_at::<H>(fresh, splits, p).0;
        assert(b == branch_of::<H, V>(pairs, p));
        if is_new_node::<H, V>(pairs, b) {
            let i = choose|i: int| 0 <= i < pairs.len() && #[trigger] node_of_pair::<H, V>(pairs, i, b);
            assert(branch_of::<H, V>(pairs, p) != leaf_at::<H, V>(pairs, i));
            assert(branch_of::<H, V>(pairs, p) != data_at::<H, V>(pairs, i));
        }
    }
    assert forall|i: int, j: int| 0 <= i < j < fresh.len() implies (#[trigger] fresh[i]).location
        != (#[trigger] fresh[j]).location by {
        assert(leaf_at::<H, V>(pairs, i) != leaf_at::<H, V>(pairs, j));
    }
    assert(grafts_fresh::<H, V>(nothing, pairs, fresh));
    if n > 1 {
        let order = merge_order(splits);
        lemma_order_in_range(splits, 0);
        lemma_branches_written::<H>(with_leaves, fresh, splits, order);
        assert forall|p: int| 0 <= p < splits.len() implies after.contains_key(
            (#[trigger] branch_at::<H>(fresh, splits, p)).0,
        ) && after[branch_at::<H>(fresh, splits, p).0] == branch_at::<H>(fresh, splits, p).1 by {
            lemma_order_holds(splits, 0, p);
            let j = choose|j: int| 0 <= j < order.len() && order[j] == p;
            assert(order[j] == p);
        }
    }
    assert forall|a: Seq<u8>| !is_branch_address::<H>(fresh, splits, a) implies (
    #[trigger] after.contains_key(a) <==> with_leaves.contains_key(a)) && (
    with_leaves.contains_key(a) ==> after[a] == with_leaves[a]) by {}
    assert forall|i: int| 0 <= i < pairs.len() implies {
        &&& after.contains_key(#[trigger] leaf_at::<H, V>(pairs, i))
        &&& after[leaf_at::<H, V>(pairs, i)].kind == NodeKind::Leaf {
            key: pairs[i].0,
            data: data_at::<H, V>(pairs, i),
        }
        &&& after.contains_key(data_at::<H, V>(pairs, i))
        &&& after[data_at::<H, V>(pairs, i)].kind is Data
    } by {
        let leaf = leaf_at::<H, V>(pairs, i);
        let data = data_at::<H, V>(pairs, i);
        assert(node_of_pair::<H, V>(pairs, i, leaf));
        assert(node_of_pair::<H, V>(pairs, i, data));
        assert(is_new_node::<H, V>(pairs, leaf) && is_new_node::<H, V>(pairs, data));
        assert(with_leaves.contains_key(leaf) && with_leaves.contains_key(data));
        if is_branch_address::<H>(fresh, splits, leaf) {
            let p = choose|p: int|
                0 <= p < splits.len() && (#[trigger] branch_at::<H>(fresh, splits, p)).0 == leaf;
            assert(!is_new_node::<H, V>(pairs, branch_at::<H>(fresh, splits, p).0));
        }
        if is_branch_address::<H>(fresh, splits, data) {
            let p = choose|p: int|
                0 <= p < splits.len() && (#[trigger] branch_at::<H>(fresh, splits, p)).0 == data;
            assert(!is_new_node::<H, V>(pairs, branch_at::<H>(fresh, splits, p).0));
        }
        assert(after.contains_key(leaf) && after[leaf] == with_leaves[leaf]);
        assert(after.contains_key(data) && after[data] == with_leaves[data]);
    }
    assert forall|y: Seq<u8>| #[trigger] after.contains_key(y) implies is_new_node::<H, V>(pairs, y)
        || is_branch_address::<H>(fresh, splits, y) by {}
    assert forall|i: int| 0 <= i < fresh.len() implies is_leaf_address::<H, V>(
        pairs,
        (#[trigger] fresh[i]).location,
    ) by {
        assert(leaf_at::<H, V>(pairs, i) == fresh[i].location);
    }
    assert forall|y: Seq<u8>| #[trigger] after.contains_key(y) implies after[y].references
        == 1 by {
        if is_branch_address::<H>(fresh, splits, y) {
            let p = choose|p: int|
                0 <= p < splits.len() && (#[trigger] branch_at::<H>(fresh, splits, p)).0 == y;
            assert(after[y] == branch_at::<H>(fresh, splits, p).1);
        } else {
            assert(with_leaves.contains_key(y) && after[y] == with_leaves[y]);
        }
    }
    assert forall|y: Seq<u8>| #[trigger] after.contains_key(y) implies is_branch_address::<H>(
        fresh,
        splits,
        y,
    ) || !(after[y].kind is Branch) by {
        if !is_branch_address::<H>(fresh, splits, y) {
            assert(is_new_node::<H, V>(pairs, y));
            let i = choose|i: int| 0 <= i < pairs.len() && #[trigger] node_of_pair::<H, V>(pairs, i, y);
            assert(after.contains_key(leaf_at::<H, V>(pairs, i)));
        }
    }
    assert(root == merged::<H>(fresh, splits, 0, n - 1).location);
    assert(grafted::<H, V>(nothing, pairs, none, fresh, after));
    assert(grafted_new::<H, V>(nothing, pairs, none, fresh, root, after));
}

} // verus!
