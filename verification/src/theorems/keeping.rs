//! What the walk through a well-formed tree takes over.

use vstd::prelude::*;

use crate::constants::KEY_LEN;

use crate::model::walk::{lemma_walk_step_weight, walk_child, walk_run, walk_step};
use crate::theorems::frames::node_key;
use crate::theorems::reading::{
    agrees, find, keys_fit, lemma_descendants_sorted, lemma_side_in_region, lemma_sides_sorted,
    lemma_sorted_part, option_of, side_region, sound, under, Region,
};
use crate::traits::{Decode, Exception};
use crate::tree::tree_node::{NodeKind, Store};
use crate::utils::key_order::{last_index_of, sorted};
use crate::utils::tree_cell::{lemma_queue_weight_add, queue_weight, CellModel};
use crate::utils::tree_ref::RefModel;
use crate::utils::tree_utils::{bit_of, lemma_same_bits_equal, same_prefix};

verus! {

/// The two stores hold nodes at the same addresses, with the same
/// records.
pub open spec fn same_records(before: Store, after: Store) -> bool {
    &&& after.dom() == before.dom()
    &&& forall|a: Seq<u8>| #[trigger] before.contains_key(a) ==> after[a].kind == before[a].kind
}

/// `after` holds a node at each address at which `before` holds one,
/// with the record that `before` holds there or with the record that is
/// published there.
pub open spec fn writes_kept(published: Store, before: Store, after: Store) -> bool {
    forall|a: Seq<u8>| #[trigger]
        before.contains_key(a) ==> after.contains_key(a) && (after[a].kind == before[a].kind || (
        published.contains_key(a) && after[a].kind == published[a].kind))
}

/// No key lies in both regions.
pub open spec fn disjoint(a: Region, b: Region) -> bool {
    forall|q: Seq<u8>| !(#[trigger] under(q, a) && #[trigger] under(q, b))
}

/// Each key of the region `a` lies in the region `b`.
pub open spec fn inside(a: Region, b: Region) -> bool {
    forall|q: Seq<u8>| #[trigger] under(q, a) ==> under(q, b)
}

/// No two regions of the list share a key.
pub open spec fn all_apart(regions: Seq<Region>) -> bool {
    forall|i: int, j: int|
        0 <= i < regions.len() && 0 <= j < regions.len() && i != j ==> disjoint(
            #[trigger] regions[i],
            #[trigger] regions[j],
        )
}

/// No region of the one list shares a key with a region of the other.
pub open spec fn lists_apart(a: Seq<Region>, b: Seq<Region>) -> bool {
    forall|i: int, j: int|
        0 <= i < a.len() && 0 <= j < b.len() ==> disjoint(#[trigger] a[i], #[trigger] b[j])
}

/// Each region of the list lies in the region `r`.
pub open spec fn all_inside(regions: Seq<Region>, r: Region) -> bool {
    forall|i: int| 0 <= i < regions.len() ==> inside(#[trigger] regions[i], r)
}

/// The subtree `kept` was taken over from the region `region` of a
/// well-formed tree: it is well-formed there and holds what `old` holds,
/// it carries the key of its node, and no new key agrees with that key
/// as far as the keys below the node do.
pub open spec fn kept_fits<V: Decode>(
    store: Store,
    kept: RefModel,
    region: Region,
    old: Map<Seq<u8>, V::V>,
    new_keys: Seq<Seq<u8>>,
) -> bool {
    &&& kept.count == 1
    &&& kept.key == node_key(store, kept.location).0
    &&& region.split < node_key(store, kept.location).1
    &&& sound::<V>(store, kept.location, region)
    &&& agrees::<V>(store, kept.location, region, old)
    &&& forall|i: int|
        0 <= i < new_keys.len() ==> !same_prefix(
            #[trigger] new_keys[i],
            kept.key,
            node_key(store, kept.location).1,
        )
}

/// The cell stands at a well-formed subtree of the region `r` that
/// holds what `old` holds, with the new keys of that region.
pub open spec fn walk_cell_fits<V: Decode>(
    store: Store,
    cell: CellModel,
    r: Region,
    old: Map<Seq<u8>, V::V>,
    new_keys: Seq<Seq<u8>>,
) -> bool {
    &&& store.contains_key(cell.location)
    &&& cell.node.kind == store[cell.location].kind
    &&& r.split <= 255
    &&& sound::<V>(store, cell.location, r)
    &&& agrees::<V>(store, cell.location, r, old)
    &&& keys_fit(cell.keys, r, new_keys)
    &&& forall|i: int|
        0 <= i < new_keys.len() && under(#[trigger] new_keys[i], r) ==> cell.keys.contains(
            new_keys[i],
        )
}

/// Each cell of the queue fits its region.
pub open spec fn walk_queue_fits<V: Decode>(
    store: Store,
    queue: Seq<CellModel>,
    regions: Seq<Region>,
    old: Map<Seq<u8>, V::V>,
    new_keys: Seq<Seq<u8>>,
) -> bool {
    &&& regions.len() == queue.len()
    &&& forall|c: int|
        0 <= c < queue.len() ==> walk_cell_fits::<V>(
            store,
            #[trigger] queue[c],
            regions[c],
            old,
            new_keys,
        )
}

/// Each subtree of the list fits its region.
pub open spec fn all_kept_fit<V: Decode>(
    store: Store,
    kept: Seq<RefModel>,
    regions: Seq<Region>,
    old: Map<Seq<u8>, V::V>,
    new_keys: Seq<Seq<u8>>,
) -> bool {
    &&& regions.len() == kept.len()
    &&& forall|x: int|
        0 <= x < kept.len() ==> kept_fits::<V>(store, #[trigger] kept[x], regions[x], old, new_keys)
}

/// The key `q` lies in one of the regions, or below one of the subtrees.
pub open spec fn covered(store: Store, q: Seq<u8>, regions: Seq<Region>, kept: Seq<RefModel>) -> bool {
    ||| exists|c: int| 0 <= c < regions.len() && under(q, #[trigger] regions[c])
    ||| exists|x: int| 0 <= x < kept.len() && below(store, q, #[trigger] kept[x])
}

/// The key `q` agrees with the key of the subtree `kept` as far as the
/// keys below its node do.
pub open spec fn below(store: Store, q: Seq<u8>, kept: RefModel) -> bool {
    same_prefix(q, kept.key, node_key(store, kept.location).1)
}

/// The batch is new to the tree: its keys have full length, and `old`
/// holds values under keys of full length that are not in the batch.
pub open spec fn batch_is_new<T>(old: Map<Seq<u8>, T>, new_keys: Seq<Seq<u8>>) -> bool {
    &&& forall|i: int| 0 <= i < new_keys.len() ==> (#[trigger] new_keys[i]).len() == KEY_LEN
    &&& forall|i: int| 0 <= i < new_keys.len() ==> !old.contains_key(#[trigger] new_keys[i])
    &&& forall|q: Seq<u8>| #[trigger] old.contains_key(q) ==> q.len() == KEY_LEN
}

/// A key that is in a list is at its last place in the list.
pub proof fn lemma_last_index_found(keys: Seq<Seq<u8>>, key: Seq<u8>)
    ensures
        -1 <= last_index_of(keys, key) < keys.len(),
        last_index_of(keys, key) >= 0 ==> keys[last_index_of(keys, key)] == key,
    decreases keys.len(),
{
    if keys.len() != 0 && keys.last() != key {
        lemma_last_index_found(keys.drop_last(), key);
    }
}

/// A key that agrees with the key of a node as far as the keys below the
/// node do lies in each region that holds the key of the node and parts
/// before the node does.
pub proof fn lemma_below_in_region(q: Seq<u8>, key: Seq<u8>, width: int, r: Region)
    requires
        same_prefix(q, key, width),
        under(key, r),
        r.split < width,
    ensures
        under(q, r),
{
    if r.split >= 0 {
        assert(bit_of(q, r.split) == bit_of(key, r.split));
        assert forall|i: int| 0 <= i < r.split implies #[trigger] bit_of(q, i) == bit_of(
            r.key,
            i,
        ) by {
            assert(bit_of(q, i) == bit_of(key, i));
            assert(bit_of(key, i) == bit_of(r.key, i));
        }
    }
}

/// What the walk does with one side of a branch at which it stands, in
/// a store with the records of the store in which the tree is
/// well-formed: the cell or the subtree that it yields fits the region
/// below that side.
pub proof fn lemma_walk_child_keeps<V: Decode>(
    store: Store,
    now: Store,
    cell: CellModel,
    r: Region,
    old: Map<Seq<u8>, V::V>,
    new_keys: Seq<Seq<u8>>,
    side: bool,
    side_keys: Seq<Seq<u8>>,
)
    requires
        walk_cell_fits::<V>(store, cell, r, old, new_keys),
        batch_is_new(old, new_keys),
        cell.node.kind is Branch,
        sorted(side_keys),
        forall|i: int|
            0 <= i < side_keys.len() ==> (#[trigger] side_keys[i]).len() == KEY_LEN
                && new_keys.contains(side_keys[i]) && under(
                side_keys[i],
                side_region(
                    cell.node.kind->Branch_key,
                    cell.node.kind->split_index,
                    side,
                    r.height,
                ),
            ),
        forall|i: int|
            0 <= i < new_keys.len() && under(
                #[trigger] new_keys[i],
                side_region(
                    cell.node.kind->Branch_key,
                    cell.node.kind->split_index,
                    side,
                    r.height,
                ),
            ) ==> side_keys.contains(new_keys[i]),
    ensures
        ({
            let location = if side {
                cell.node.kind->one
            } else {
                cell.node.kind->zero
            };
            let region = side_region(
                cell.node.kind->Branch_key,
                cell.node.kind->split_index,
                side,
                r.height,
            );
            let step = walk_child(store, now, location, side_keys, cell.depth + 1);
            &&& inside(region, r)
            &&& writes_kept(store, now, step.store)
            &&& step.error is None ==> {
                &&& side_keys.len() > 0 ==> step.emitted.len() == 0 && step.pushed.len() == 1
                    && walk_cell_fits::<V>(store, step.pushed[0], region, old, new_keys)
                &&& side_keys.len() == 0 ==> step.pushed.len() == 0 && step.emitted.len() == 1
                    && kept_fits::<V>(store, step.emitted[0], region, old, new_keys)
                &&& forall|q: Seq<u8>|
                    old.contains_key(q) && #[trigger] under(q, region) ==> (side_keys.len() > 0
                        || below(store, q, step.emitted[0]))
            }
        }),
{
    let key = cell.node.kind->Branch_key;
    let split = cell.node.kind->split_index;
    let location = if side {
        cell.node.kind->one
    } else {
        cell.node.kind->zero
    };
    let region = side_region(key, split, side, r.height);
    let step = walk_child(store, now, location, side_keys, cell.depth + 1);
    assert(sound::<V>(store, cell.location, r));
    assert(sound::<V>(store, location, region));
    assert forall|q: Seq<u8>| #[trigger] under(q, region) implies under(q, r) by {
        lemma_side_in_region(q, key, split, side, r);
    }
    assert forall|q: Seq<u8>| q.len() == KEY_LEN && under(q, region) implies #[trigger] find::<V>(
        store,
        location,
        q,
        region.height,
    ) == option_of(old, q) by {
        lemma_side_in_region(q, key, split, side, r);
        assert(find::<V>(store, cell.location, q, r.height) == option_of(old, q));
    }
    assert(store.contains_key(location));
    if step.error is None {
        if side_keys.len() == 0 {
            let kept = step.emitted[0];
            let width = node_key(store, location).1;
            assert forall|i: int| 0 <= i < new_keys.len() implies !same_prefix(
                #[trigger] new_keys[i],
                kept.key,
                width,
            ) by {
                if same_prefix(new_keys[i], kept.key, width) {
                    lemma_below_in_region(new_keys[i], kept.key, width, region);
                    assert(side_keys.contains(new_keys[i]));
                }
            }
            assert forall|q: Seq<u8>| old.contains_key(q) && #[trigger] under(
                q,
                region,
            ) implies below(store, q, kept) by {
                assert(find::<V>(store, location, q, region.height) == option_of(old, q));
                match store[location].kind {
                    NodeKind::Leaf { key, data } => {},
                    _ => {},
                }
            }
        }
    }
}

/// What a step of the walk yields.
pub struct StepRegions {
    pub pushed: Seq<Region>,
    pub emitted: Seq<Region>,
}

/// A step of the walk at a cell that fits its region, in a store with
/// the records of the store in which the tree is well-formed. The cells
/// and the subtrees that the step yields fit regions that lie in the
/// region of the cell and share no key, and each key of `old` in the
/// region of the cell lies in one of these regions or below one of the
/// subtrees.
pub proof fn lemma_walk_step_keeps<V: Decode>(
    store: Store,
    now: Store,
    cell: CellModel,
    r: Region,
    old: Map<Seq<u8>, V::V>,
    new_keys: Seq<Seq<u8>>,
    locations: Seq<Seq<u8>>,
    max_depth: nat,
) -> (regions: StepRegions)
    requires
        walk_cell_fits::<V>(store, cell, r, old, new_keys),
        batch_is_new(old, new_keys),
        walk_step(store, now, cell, new_keys, locations, max_depth).error is None,
    ensures
        writes_kept(store, now, walk_step(store, now, cell, new_keys, locations, max_depth).store),
        walk_queue_fits::<V>(
            store,
            walk_step(store, now, cell, new_keys, locations, max_depth).pushed,
            regions.pushed,
            old,
            new_keys,
        ),
        all_kept_fit::<V>(
            store,
            walk_step(store, now, cell, new_keys, locations, max_depth).emitted,
            regions.emitted,
            old,
            new_keys,
        ),
        all_inside(regions.pushed, r),
        all_inside(regions.emitted, r),
        all_apart(regions.pushed),
        all_apart(regions.emitted),
        lists_apart(regions.emitted, regions.pushed),
        forall|q: Seq<u8>|
            old.contains_key(q) && #[trigger] under(q, r) ==> covered(
                store,
                q,
                regions.pushed,
                walk_step(store, now, cell, new_keys, locations, max_depth).emitted,
            ),
        forall|c: int|
            0 <= c < regions.pushed.len() ==> (#[trigger] regions.pushed[c]).height + 1
                == r.height && walk_step(store, now, cell, new_keys, locations, max_depth).pushed[c].depth
                == cell.depth + 1,
{
    let step = walk_step(store, now, cell, new_keys, locations, max_depth);
    assert(sound::<V>(store, cell.location, r));
    match cell.node.kind {
        NodeKind::Data { value } => {
            StepRegions { pushed: Seq::empty(), emitted: Seq::empty() }
        },
        NodeKind::Leaf { key, data } => {
            assert(find::<V>(store, cell.location, key, r.height) == option_of(old, key));
            assert(old.contains_key(key));
            lemma_last_index_found(new_keys, key);
            let place = last_index_of(new_keys, key);
            if place >= 0 {
                assert(!old.contains_key(new_keys[place]));
            }
            let kept = step.emitted[0];
            assert(kept == RefModel { key, location: cell.location, node_count: 1, count: 1 });
            assert forall|i: int| 0 <= i < new_keys.len() implies !same_prefix(
                #[trigger] new_keys[i],
                kept.key,
                256,
            ) by {
                if same_prefix(new_keys[i], key, 256) {
                    lemma_same_bits_equal(new_keys[i], key);
                }
            }
            let regions = StepRegions { pushed: Seq::empty(), emitted: seq![r] };
            assert(step.pushed =~= Seq::<CellModel>::empty());
            assert forall|q: Seq<u8>| old.contains_key(q) && #[trigger] under(q, r) implies covered(
                store,
                q,
                regions.pushed,
                step.emitted,
            ) by {
                assert(find::<V>(store, cell.location, q, r.height) == option_of(old, q));
                assert(below(store, q, step.emitted[0]));
            }
            regions
        },
        NodeKind::Branch { count, zero, one, split_index, key } => {
            let split = split_index as int;
            let (lo, hi) = lemma_descendants_sorted(cell.keys, key, split);
            let below_keys = cell.keys.subrange(lo, hi);
            if cell.keys.len() > 0 && below_keys.len() == 0 {
                    let kept = step.emitted[0];
                assert forall|i: int| 0 <= i < new_keys.len() implies !same_prefix(
                    #[trigger] new_keys[i],
                    kept.key,
                    split,
                ) by {
                    if same_prefix(new_keys[i], key, split) {
                        lemma_below_in_region(new_keys[i], key, split, r);
                        assert(cell.keys.contains(new_keys[i]));
                        let at = choose|at: int|
                            0 <= at < cell.keys.len() && cell.keys[at] == new_keys[i];
                        assert(same_prefix(cell.keys[at], key, split));
                    }
                }
                let regions = StepRegions { pushed: Seq::empty(), emitted: seq![r] };
                assert(step.pushed =~= Seq::<CellModel>::empty());
                assert forall|q: Seq<u8>|
                    old.contains_key(q) && #[trigger] under(q, r) implies covered(
                    store,
                    q,
                    regions.pushed,
                    step.emitted,
                ) by {
                    assert(find::<V>(store, cell.location, q, r.height) == option_of(old, q));
                    assert(below(store, q, step.emitted[0]));
                }
                regions
            } else {
                lemma_sorted_part(cell.keys, lo, hi);
                assert forall|i: int| 0 <= i < below_keys.len() implies same_prefix(
                    #[trigger] below_keys[i],
                    key,
                    split,
                ) by {
                    assert(below_keys[i] == cell.keys[lo + i]);
                }
                let m = lemma_sides_sorted(below_keys, key, split);
                let zeros = below_keys.subrange(0, m);
                let ones = below_keys.subrange(m, below_keys.len() as int);
                lemma_sorted_part(below_keys, 0, m);
                lemma_sorted_part(below_keys, m, below_keys.len() as int);
                let one_region = side_region(key, split_index, true, r.height);
                let zero_region = side_region(key, split_index, false, r.height);
                assert forall|i: int| 0 <= i < ones.len() implies (#[trigger] ones[i]).len()
                    == KEY_LEN && new_keys.contains(ones[i]) && under(ones[i], one_region) by {
                    assert(ones[i] == below_keys[m + i]);
                    assert(below_keys[m + i] == cell.keys[lo + m + i]);
                }
                assert forall|i: int| 0 <= i < zeros.len() implies (#[trigger] zeros[i]).len()
                    == KEY_LEN && new_keys.contains(zeros[i]) && under(zeros[i], zero_region) by {
                    assert(zeros[i] == below_keys[i]);
                    assert(below_keys[i] == cell.keys[lo + i]);
                }
                assert forall|i: int|
                    0 <= i < new_keys.len() && under(
                        #[trigger] new_keys[i],
                        one_region,
                    ) implies ones.contains(new_keys[i]) by {
                    let q = new_keys[i];
                    lemma_side_in_region(q, key, split_index, true, r);
                    assert(cell.keys.contains(q));
                    let at = choose|at: int| 0 <= at < cell.keys.len() && cell.keys[at] == q;
                    assert(same_prefix(cell.keys[at], key, split));
                    assert(below_keys[at - lo] == q);
                    assert(ones[at - lo - m] == q);
                }
                assert forall|i: int|
                    0 <= i < new_keys.len() && under(
                        #[trigger] new_keys[i],
                        zero_region,
                    ) implies zeros.contains(new_keys[i]) by {
                    let q = new_keys[i];
                    lemma_side_in_region(q, key, split_index, false, r);
                    assert(cell.keys.contains(q));
                    let at = choose|at: int| 0 <= at < cell.keys.len() && cell.keys[at] == q;
                    assert(same_prefix(cell.keys[at], key, split));
                    assert(below_keys[at - lo] == q);
                    assert(zeros[at - lo] == q);
                }
                let first = walk_child(store, now, one, ones, cell.depth + 1);
                lemma_walk_child_keeps::<V>(store, now, cell, r, old, new_keys, true, ones);
                let second = walk_child(store, first.store, zero, zeros, cell.depth + 1);
                lemma_walk_child_keeps::<V>(
                    store,
                    first.store,
                    cell,
                    r,
                    old,
                    new_keys,
                    false,
                    zeros,
                );
                assert(step.pushed == first.pushed + second.pushed);
                assert(step.emitted == first.emitted + second.emitted);
                let pushed = (if ones.len() > 0 {
                    seq![one_region]
                } else {
                    Seq::empty()
                }) + (if zeros.len() > 0 {
                    seq![zero_region]
                } else {
                    Seq::empty()
                });
                let emitted = (if ones.len() > 0 {
                    Seq::empty()
                } else {
                    seq![one_region]
                }) + (if zeros.len() > 0 {
                    Seq::empty()
                } else {
                    seq![zero_region]
                });
                assert(disjoint(one_region, zero_region));
                assert(disjoint(zero_region, one_region));
                assert forall|c: int| 0 <= c < step.pushed.len() implies walk_cell_fits::<V>(
                    store,
                    #[trigger] step.pushed[c],
                    pushed[c],
                    old,
                    new_keys,
                ) by {
                    if c < first.pushed.len() {
                        assert(step.pushed[c] == first.pushed[0]);
                    } else {
                        assert(step.pushed[c] == second.pushed[0]);
                    }
                }
                assert forall|x: int| 0 <= x < step.emitted.len() implies kept_fits::<V>(
                    store,
                    #[trigger] step.emitted[x],
                    emitted[x],
                    old,
                    new_keys,
                ) by {
                    if x < first.emitted.len() {
                        assert(step.emitted[x] == first.emitted[0]);
                    } else {
                        assert(step.emitted[x] == second.emitted[0]);
                    }
                }
                assert forall|q: Seq<u8>|
                    old.contains_key(q) && #[trigger] under(q, r) implies covered(
                    store,
                    q,
                    pushed,
                    step.emitted,
                ) by {
                    assert(find::<V>(store, cell.location, q, r.height) == option_of(old, q));
                    assert(same_prefix(q, key, split));
                    if bit_of(q, split) {
                        assert(under(q, one_region));
                        if ones.len() > 0 {
                            assert(under(q, pushed[0]));
                        } else {
                            assert(below(store, q, first.emitted[0]));
                            assert(step.emitted[0] == first.emitted[0]);
                        }
                    } else {
                        assert(under(q, zero_region));
                        if zeros.len() > 0 {
                            assert(under(q, pushed[pushed.len() - 1]));
                        } else {
                            assert(below(store, q, second.emitted[0]));
                            assert(step.emitted[step.emitted.len() - 1] == second.emitted[0]);
                        }
                    }
                }
                StepRegions { pushed, emitted }
            }
        },
    }
}

/// A region that shares no key with a region shares no key with the
/// regions inside that region.
pub proof fn lemma_apart_inside(a: Region, b: Region, r: Region)
    requires
        disjoint(a, r) || disjoint(r, a),
        inside(b, r),
    ensures
        disjoint(a, b),
        disjoint(b, a),
{
    assert forall|q: Seq<u8>| !(#[trigger] under(q, a) && #[trigger] under(q, b)) by {
        if under(q, b) {
            assert(under(q, r));
        }
    }
    assert forall|q: Seq<u8>| !(#[trigger] under(q, b) && #[trigger] under(q, a)) by {
        if under(q, b) {
            assert(under(q, r));
        }
    }
}

/// A key that is covered stays covered when regions and subtrees are
/// added.
pub proof fn lemma_covered_more(
    store: Store,
    q: Seq<u8>,
    regions: Seq<Region>,
    kept: Seq<RefModel>,
    before_regions: Seq<Region>,
    before_kept: Seq<RefModel>,
)
    requires
        covered(store, q, regions, kept),
    ensures
        covered(store, q, before_regions + regions, before_kept + kept),
{
    let all_regions = before_regions + regions;
    let all_kept = before_kept + kept;
    if exists|c: int| 0 <= c < regions.len() && under(q, #[trigger] regions[c]) {
        let c = choose|c: int| 0 <= c < regions.len() && under(q, #[trigger] regions[c]);
        assert(all_regions[before_regions.len() + c] == regions[c]);
    } else {
        let x = choose|x: int| 0 <= x < kept.len() && below(store, q, #[trigger] kept[x]);
        assert(all_kept[before_kept.len() + x] == kept[x]);
    }
}

/// The walk through a well-formed tree, for a batch that is new to the
/// tree. The subtrees that it takes over fit regions that share no key,
/// each key of `old` lies below one of them, and the store keeps its
/// records.
pub proof fn lemma_walk_run_keeps<V: Decode>(
    store: Store,
    now: Store,
    queue: Seq<CellModel>,
    queue_regions: Seq<Region>,
    emitted: Seq<RefModel>,
    emitted_regions: Seq<Region>,
    old: Map<Seq<u8>, V::V>,
    new_keys: Seq<Seq<u8>>,
    locations: Seq<Seq<u8>>,
    max_depth: nat,
    kept: Seq<RefModel>,
    counted: Store,
) -> (kept_regions: Seq<Region>)
    requires
        walk_queue_fits::<V>(store, queue, queue_regions, old, new_keys),
        all_kept_fit::<V>(store, emitted, emitted_regions, old, new_keys),
        all_apart(queue_regions),
        all_apart(emitted_regions),
        lists_apart(emitted_regions, queue_regions),
        batch_is_new(old, new_keys),
        forall|q: Seq<u8>| #[trigger]
            old.contains_key(q) ==> covered(store, q, queue_regions, emitted),
        walk_run(store, now, queue, emitted, new_keys, locations, max_depth) == Ok::<
            (Seq<RefModel>, Store),
            Exception,
        >((kept, counted)),
    ensures
        writes_kept(store, now, counted),
        all_kept_fit::<V>(store, kept, kept_regions, old, new_keys),
        all_apart(kept_regions),
        forall|q: Seq<u8>| #[trigger]
            old.contains_key(q) ==> exists|x: int|
                0 <= x < kept.len() && below(store, q, #[trigger] kept[x]),
    decreases queue_weight(queue, max_depth),
{
    if queue.len() == 0 {
        assert forall|q: Seq<u8>| #[trigger] old.contains_key(q) implies exists|x: int|
            0 <= x < kept.len() && below(store, q, #[trigger] kept[x]) by {
            assert(covered(store, q, queue_regions, emitted));
        }
        emitted_regions
    } else {
        let cell = queue[0];
        let r = queue_regions[0];
        let step = walk_step(store, now, cell, new_keys, locations, max_depth);
        assert(step.error is None);
        let regions = lemma_walk_step_keeps::<V>(
            store,
            now,
            cell,
            r,
            old,
            new_keys,
            locations,
            max_depth,
        );
        lemma_walk_step_weight(store, now, cell, new_keys, locations, max_depth);
        lemma_queue_weight_add(queue.drop_first(), step.pushed, max_depth);
        let rest = queue.drop_first();
        let rest_regions = queue_regions.drop_first();
        let next = rest + step.pushed;
        let next_regions = rest_regions + regions.pushed;
        let next_emitted = emitted + step.emitted;
        let next_emitted_regions = emitted_regions + regions.emitted;
        assert forall|c: int| 0 <= c < next.len() implies walk_cell_fits::<V>(
            store,
            #[trigger] next[c],
            next_regions[c],
            old,
            new_keys,
        ) by {
            if c < rest.len() {
                assert(next[c] == queue[c + 1]);
                assert(next_regions[c] == queue_regions[c + 1]);
            } else {
                assert(next[c] == step.pushed[c - rest.len()]);
                assert(next_regions[c] == regions.pushed[c - rest.len()]);
            }
        }
        assert forall|x: int| 0 <= x < next_emitted.len() implies kept_fits::<V>(
            store,
            #[trigger] next_emitted[x],
            next_emitted_regions[x],
            old,
            new_keys,
        ) by {
            if x < emitted.len() {
                assert(next_emitted[x] == emitted[x]);
                assert(next_emitted_regions[x] == emitted_regions[x]);
            } else {
                assert(next_emitted[x] == step.emitted[x - emitted.len()]);
                assert(next_emitted_regions[x] == regions.emitted[x - emitted.len()]);
            }
        }
        assert forall|i: int, j: int|
            0 <= i < next_regions.len() && 0 <= j < next_regions.len() && i != j implies disjoint(
            #[trigger] next_regions[i],
            #[trigger] next_regions[j],
        ) by {
            if i < rest.len() && j < rest.len() {
                assert(next_regions[i] == queue_regions[i + 1]);
                assert(next_regions[j] == queue_regions[j + 1]);
            } else if i < rest.len() {
                assert(next_regions[i] == queue_regions[i + 1]);
                assert(next_regions[j] == regions.pushed[j - rest.len()]);
                assert(disjoint(queue_regions[i + 1], queue_regions[0]));
                lemma_apart_inside(next_regions[i], next_regions[j], r);
            } else if j < rest.len() {
                assert(next_regions[j] == queue_regions[j + 1]);
                assert(next_regions[i] == regions.pushed[i - rest.len()]);
                assert(disjoint(queue_regions[j + 1], queue_regions[0]));
                lemma_apart_inside(next_regions[j], next_regions[i], r);
            } else {
                assert(next_regions[i] == regions.pushed[i - rest.len()]);
                assert(next_regions[j] == regions.pushed[j - rest.len()]);
            }
        }
        assert forall|i: int, j: int|
            0 <= i < next_emitted_regions.len() && 0 <= j < next_emitted_regions.len() && i
                != j implies disjoint(
            #[trigger] next_emitted_regions[i],
            #[trigger] next_emitted_regions[j],
        ) by {
            let n = emitted_regions.len();
            if i < n && j < n {
                assert(next_emitted_regions[i] == emitted_regions[i]);
                assert(next_emitted_regions[j] == emitted_regions[j]);
            } else if i < n {
                assert(next_emitted_regions[i] == emitted_regions[i]);
                assert(next_emitted_regions[j] == regions.emitted[j - n]);
                assert(disjoint(emitted_regions[i], queue_regions[0]));
                lemma_apart_inside(next_emitted_regions[i], next_emitted_regions[j], r);
            } else if j < n {
                assert(next_emitted_regions[j] == emitted_regions[j]);
                assert(next_emitted_regions[i] == regions.emitted[i - n]);
                assert(disjoint(emitted_regions[j], queue_regions[0]));
                lemma_apart_inside(next_emitted_regions[j], next_emitted_regions[i], r);
            } else {
                assert(next_emitted_regions[i] == regions.emitted[i - n]);
                assert(next_emitted_regions[j] == regions.emitted[j - n]);
            }
        }
        assert forall|i: int, j: int|
            0 <= i < next_emitted_regions.len() && 0 <= j < next_regions.len() implies disjoint(
            #[trigger] next_emitted_regions[i],
            #[trigger] next_regions[j],
        ) by {
            let n = emitted_regions.len();
            if i < n && j < rest.len() {
                assert(next_emitted_regions[i] == emitted_regions[i]);
                assert(next_regions[j] == queue_regions[j + 1]);
            } else if i < n {
                assert(next_emitted_regions[i] == emitted_regions[i]);
                assert(next_regions[j] == regions.pushed[j - rest.len()]);
                assert(disjoint(emitted_regions[i], queue_regions[0]));
                lemma_apart_inside(next_emitted_regions[i], next_regions[j], r);
            } else if j < rest.len() {
                assert(next_regions[j] == queue_regions[j + 1]);
                assert(next_emitted_regions[i] == regions.emitted[i - n]);
                assert(disjoint(queue_regions[j + 1], queue_regions[0]));
                lemma_apart_inside(next_regions[j], next_emitted_regions[i], r);
            } else {
                assert(next_emitted_regions[i] == regions.emitted[i - n]);
                assert(next_regions[j] == regions.pushed[j - rest.len()]);
            }
        }
        assert forall|q: Seq<u8>| #[trigger] old.contains_key(q) implies covered(
            store,
            q,
            next_regions,
            next_emitted,
        ) by {
            assert(covered(store, q, queue_regions, emitted));
            if exists|c: int| 0 <= c < queue_regions.len() && under(q, #[trigger] queue_regions[c]) {
                let c = choose|c: int|
                    0 <= c < queue_regions.len() && under(q, #[trigger] queue_regions[c]);
                if c == 0 {
                    assert(under(q, r));
                    assert(covered(store, q, regions.pushed, step.emitted));
                    lemma_covered_more(store, q, regions.pushed, step.emitted, rest_regions, emitted);
                } else {
                    assert(next_regions[c - 1] == queue_regions[c]);
                }
            } else {
                let x = choose|x: int|
                    0 <= x < emitted.len() && below(store, q, #[trigger] emitted[x]);
                assert(next_emitted[x] == emitted[x]);
            }
        }
        lemma_walk_run_keeps::<V>(
            store,
            step.store,
            next,
            next_regions,
            next_emitted,
            next_emitted_regions,
            old,
            new_keys,
            locations,
            max_depth,
            kept,
            counted,
        )
    }
}

} // verus!
