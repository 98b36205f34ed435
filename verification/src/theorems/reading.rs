//! What a lookup finds in a well-formed tree.

use vstd::prelude::*;

use crate::constants::KEY_LEN;
use crate::model::lookup::{
    child_cell, lemma_lookup_step_weight, lookup, lookup_run, lookup_step, with_hit,
};
use crate::theorems::bits::{
    lemma_prefix_symmetric, lemma_prefix_transitive, lemma_sorted_between, lemma_sorted_bit,
};
use crate::traits::{Decode, Exception};
use crate::tree::tree_node::{NodeKind, Store};
use crate::utils::key_order::{key_le, sorted};
use crate::utils::tree_cell::{lemma_queue_weight_add, queue_weight, CellModel};
use crate::utils::tree_utils::{
    bit_of, descendants, leading, lemma_leading_bounds, one_side, same_prefix, zero_side,
};

verus! {

/// The part of the key space below one side of a branch: the keys that
/// agree with `key` before `split` and whose bit at `split` is `side`. A
/// negative `split` stands for the whole key space. `height` bounds the
/// number of branches on the way down to a leaf.
pub struct Region {
    pub key: Seq<u8>,
    pub split: int,
    pub side: bool,
    pub height: nat,
}

/// `k` lies in the region `r`.
pub open spec fn under(k: Seq<u8>, r: Region) -> bool {
    r.split < 0 || (same_prefix(k, r.key, r.split) && bit_of(k, r.split) == r.side)
}

/// The whole key space, for trees of at most `height` levels of branches.
pub open spec fn all_keys(height: nat) -> Region {
    Region { key: Seq::empty(), split: -1, side: false, height }
}

/// The region below the `side` of a branch with key `key` and split
/// index `split`, in a region of height `height`.
pub open spec fn side_region(key: Seq<u8>, split: u8, side: bool, height: nat) -> Region {
    Region { key, split: split as int, side, height: (height - 1) as nat }
}

/// The subtree at `location` is well-formed for the region `r`: its
/// leaves carry keys of `r` and have data nodes that can be decoded, its
/// branches part at later bits than `r` does and carry keys of `r`, and
/// the two sides of each branch are well-formed for the two regions
/// below the branch.
pub open spec fn sound<V: Decode>(store: Store, location: Seq<u8>, r: Region) -> bool
    decreases r.height,
{
    store.contains_key(location) && match store[location].kind {
        NodeKind::Data { value } => false,
        NodeKind::Leaf { key, data } => {
            &&& key.len() == KEY_LEN
            &&& under(key, r)
            &&& store.contains_key(data)
            &&& store[data].kind matches NodeKind::Data { value } && V::decoding(value) is Some
        },
        NodeKind::Branch { count, zero, one, split_index, key } => {
            &&& r.height > 0
            &&& r.split < split_index
            &&& key.len() == KEY_LEN
            &&& under(key, r)
            &&& sound::<V>(store, zero, side_region(key, split_index, false, r.height))
            &&& sound::<V>(store, one, side_region(key, split_index, true, r.height))
        },
    }
}

/// The value under `q` in the subtree at `location`: the way down goes
/// by the bits of `q` at the split indices of the branches, as long as
/// `q` agrees with the keys of the branches.
pub open spec fn find<V: Decode>(store: Store, location: Seq<u8>, q: Seq<u8>, height: nat) -> Option<
    V::V,
>
    decreases height,
{
    match store[location].kind {
        NodeKind::Data { value } => None,
        NodeKind::Leaf { key, data } => if key == q {
            match store[data].kind {
                NodeKind::Data { value } => V::decoding(value),
                _ => None,
            }
        } else {
            None
        },
        NodeKind::Branch { count, zero, one, split_index, key } => if height == 0 || !same_prefix(
            q,
            key,
            split_index as int,
        ) {
            None
        } else if bit_of(q, split_index as int) {
            find::<V>(store, one, q, (height - 1) as nat)
        } else {
            find::<V>(store, zero, q, (height - 1) as nat)
        },
    }
}

/// What `target` holds under `q`.
pub open spec fn option_of<T>(target: Map<Seq<u8>, T>, q: Seq<u8>) -> Option<T> {
    if target.contains_key(q) {
        Some(target[q])
    } else {
        None
    }
}

/// The subtree at `location` holds in the region `r` what `target` holds.
pub open spec fn agrees<V: Decode>(
    store: Store,
    location: Seq<u8>,
    r: Region,
    target: Map<Seq<u8>, V::V>,
) -> bool {
    forall|q: Seq<u8>|
        q.len() == KEY_LEN && under(q, r) ==> #[trigger] find::<V>(store, location, q, r.height)
            == option_of(target, q)
}

/// The keys of a cell are sorted keys of the region `r` that are looked
/// for.
pub open spec fn keys_fit(keys: Seq<Seq<u8>>, r: Region, queried: Seq<Seq<u8>>) -> bool {
    &&& sorted(keys)
    &&& forall|i: int|
        0 <= i < keys.len() ==> (#[trigger] keys[i]).len() == KEY_LEN && queried.contains(keys[i])
            && under(keys[i], r)
}

/// The cell stands at a well-formed subtree that holds what `target`
/// holds, not too deep for the walk to reach its leaves, with keys of
/// its region.
pub open spec fn cell_fits<V: Decode>(
    store: Store,
    cell: CellModel,
    r: Region,
    queried: Seq<Seq<u8>>,
    target: Map<Seq<u8>, V::V>,
    max_depth: nat,
) -> bool {
    &&& store.contains_key(cell.location)
    &&& cell.node == store[cell.location]
    &&& sound::<V>(store, cell.location, r)
    &&& cell.depth + r.height <= max_depth
    &&& keys_fit(cell.keys, r, queried)
    &&& agrees::<V>(store, cell.location, r, target)
}

/// Each cell of the queue fits its region.
pub open spec fn queue_fits<V: Decode>(
    store: Store,
    queue: Seq<CellModel>,
    regions: Seq<Region>,
    queried: Seq<Seq<u8>>,
    target: Map<Seq<u8>, V::V>,
    max_depth: nat,
) -> bool {
    &&& regions.len() == queue.len()
    &&& forall|c: int|
        0 <= c < queue.len() ==> cell_fits::<V>(
            store,
            #[trigger] queue[c],
            regions[c],
            queried,
            target,
            max_depth,
        )
}

/// `found` holds values of `target` under keys that are looked for.
pub open spec fn found_fits<T>(
    found: Map<Seq<u8>, T>,
    queried: Seq<Seq<u8>>,
    target: Map<Seq<u8>, T>,
) -> bool {
    forall|q: Seq<u8>| #[trigger]
        found.contains_key(q) ==> queried.contains(q) && target.contains_key(q) && found[q]
            == target[q]
}

/// The keys of a sorted list that can lie below a branch are the keys
/// from `places.0` up to `places.1`.
pub proof fn lemma_descendants_sorted(keys: Seq<Seq<u8>>, branch_key: Seq<u8>, split: int) -> (places:
    (int, int))
    requires
        sorted(keys),
    ensures
        0 <= places.0 <= places.1 <= keys.len(),
        descendants(keys, branch_key, split) == keys.subrange(places.0, places.1),
        forall|i: int|
            0 <= i < keys.len() ==> (places.0 <= i < places.1 <==> same_prefix(
                #[trigger] keys[i],
                branch_key,
                split,
            )),
{
    let stranger = |k: Seq<u8>| !same_prefix(k, branch_key, split);
    let below = |k: Seq<u8>| same_prefix(k, branch_key, split);
    lemma_leading_bounds(keys, stranger);
    let start = leading(keys, stranger) as int;
    let rest = keys.subrange(start, keys.len() as int);
    lemma_leading_bounds(rest, below);
    let taken = leading(rest, below) as int;
    let end = start + taken;
    assert(rest.subrange(0, taken) =~= keys.subrange(start, end));
    assert forall|i: int| 0 <= i < keys.len() implies (start <= i < end <==> same_prefix(
        #[trigger] keys[i],
        branch_key,
        split,
    )) by {
        if i < start {
            assert(stranger(keys[i]));
        } else if i < end {
            assert(rest[i - start] == keys[i]);
            assert(below(rest[i - start]));
        } else {
            if taken == 0 {
                if start < keys.len() {
                    assert(rest[0] == keys[start]);
                    assert(!stranger(keys[start]));
                }
            } else {
                assert(rest[0] == keys[start]);
                assert(below(rest[0]));
                assert(rest[taken] == keys[end]);
                assert(!below(rest[taken]));
                if same_prefix(keys[i], branch_key, split) {
                    lemma_sorted_between(keys, branch_key, split, start, end, i);
                }
            }
        }
    }
    (start, end)
}

/// A sorted list of keys that agree with `branch_key` before `split`
/// has the keys with a clear bit at `split` before the place `m` and the
/// keys with a set bit from there.
pub proof fn lemma_sides_sorted(keys: Seq<Seq<u8>>, branch_key: Seq<u8>, split: int) -> (m: int)
    requires
        sorted(keys),
        0 <= split,
        forall|i: int| 0 <= i < keys.len() ==> same_prefix(#[trigger] keys[i], branch_key, split),
    ensures
        0 <= m <= keys.len(),
        zero_side(keys, split) == keys.subrange(0, m),
        one_side(keys, split) == keys.subrange(m, keys.len() as int),
        forall|i: int| 0 <= i < m ==> !bit_of(#[trigger] keys[i], split),
        forall|i: int| m <= i < keys.len() ==> bit_of(#[trigger] keys[i], split),
{
    let clear = |k: Seq<u8>| !bit_of(k, split);
    lemma_leading_bounds(keys, clear);
    let m = leading(keys, clear) as int;
    assert forall|i: int| 0 <= i < m implies !bit_of(#[trigger] keys[i], split) by {
        assert(clear(keys[i]));
    }
    assert forall|i: int| m <= i < keys.len() implies bit_of(#[trigger] keys[i], split) by {
        assert(!clear(keys[m]));
        lemma_prefix_symmetric(keys[i], branch_key, split);
        lemma_prefix_transitive(keys[m], branch_key, keys[i], split);
        lemma_sorted_bit(keys, split, m, i);
    }
    m
}

/// A part of a sorted list is sorted.
pub proof fn lemma_sorted_part(keys: Seq<Seq<u8>>, from: int, to: int)
    requires
        sorted(keys),
        0 <= from <= to <= keys.len(),
    ensures
        sorted(keys.subrange(from, to)),
{
    let part = keys.subrange(from, to);
    assert forall|i: int, j: int| 0 <= i < j < part.len() implies key_le(
        #[trigger] part[i],
        #[trigger] part[j],
    ) by {
        assert(part[i] == keys[from + i] && part[j] == keys[from + j]);
    }
}

/// The region below one side of a branch lies in the region of the
/// branch.
pub proof fn lemma_side_in_region(q: Seq<u8>, key: Seq<u8>, split: u8, side: bool, r: Region)
    requires
        r.split < split,
        under(key, r),
        under(q, side_region(key, split, side, r.height)),
    ensures
        under(q, r),
{
    if r.split >= 0 {
        assert(bit_of(q, r.split) == bit_of(key, r.split));
        assert forall|i: int| 0 <= i < r.split implies #[trigger] bit_of(q, i) == bit_of(
            r.key,
            i,
        ) by {
            assert(bit_of(q, i) == bit_of(key, i));
            assert(bit_of(key, i) == bit_of(r.key, i));
        }
    }
}

/// The cell for one side of a branch fits the region below that side.
proof fn lemma_child_fits<V: Decode>(
    store: Store,
    cell: CellModel,
    r: Region,
    queried: Seq<Seq<u8>>,
    target: Map<Seq<u8>, V::V>,
    max_depth: nat,
    side: bool,
    keys: Seq<Seq<u8>>,
)
    requires
        cell_fits::<V>(store, cell, r, queried, target, max_depth),
        cell.node.kind is Branch,
        cell.depth <= max_depth,
        sorted(keys),
        keys.len() > 0,
        forall|i: int|
            0 <= i < keys.len() ==> (#[trigger] keys[i]).len() == KEY_LEN && queried.contains(
                keys[i],
            ) && same_prefix(keys[i], cell.node.kind->Branch_key, cell.node.kind->split_index as int)
                && bit_of(keys[i], cell.node.kind->split_index as int) == side,
    ensures
        ({
            let location = if side {
                cell.node.kind->one
            } else {
                cell.node.kind->zero
            };
            let region = side_region(
                cell.node.kind->Branch_key,
                cell.node.kind->split_index,
                side,
                r.height,
            );
            &&& child_cell(store, location, keys, cell.depth + 1).len() == 1
            &&& child_cell(store, location, keys, cell.depth + 1)[0].keys == keys
            &&& cell_fits::<V>(
                store,
                child_cell(store, location, keys, cell.depth + 1)[0],
                region,
                queried,
                target,
                max_depth,
            )
        }),
{
    let key = cell.node.kind->Branch_key;
    let split = cell.node.kind->split_index;
    let location = if side {
        cell.node.kind->one
    } else {
        cell.node.kind->zero
    };
    let region = side_region(key, split, side, r.height);
    assert(sound::<V>(store, cell.location, r));
    assert(sound::<V>(store, location, region));
    assert forall|q: Seq<u8>| q.len() == KEY_LEN && under(q, region) implies #[trigger] find::<V>(
        store,
        location,
        q,
        region.height,
    ) == option_of(target, q) by {
        lemma_side_in_region(q, key, split, side, r);
        assert(find::<V>(store, cell.location, q, r.height) == option_of(target, q));
    }
}

/// A step of a lookup at a cell that fits its region does not fail. The
/// cells that it puts in the queue fit the regions `regions`, a hit is a
/// value of `target`, and each key of the cell under which `target`
/// holds a value is the key of the hit or a key of a cell in the queue.
pub proof fn lemma_lookup_step_fits<V: Decode>(
    store: Store,
    cell: CellModel,
    r: Region,
    found: Map<Seq<u8>, V::V>,
    queried: Seq<Seq<u8>>,
    target: Map<Seq<u8>, V::V>,
    max_depth: nat,
) -> (regions: Seq<Region>)
    requires
        cell_fits::<V>(store, cell, r, queried, target, max_depth),
        found_fits(found, queried, target),
    ensures
        lookup_step::<V>(store, cell, queried, max_depth).error is None,
        queue_fits::<V>(
            store,
            lookup_step::<V>(store, cell, queried, max_depth).pushed,
            regions,
            queried,
            target,
            max_depth,
        ),
        found_fits(
            with_hit(found, lookup_step::<V>(store, cell, queried, max_depth).hit),
            queried,
            target,
        ),
        forall|i: int|
            0 <= i < cell.keys.len() && target.contains_key(#[trigger] cell.keys[i]) ==> with_hit(
                found,
                lookup_step::<V>(store, cell, queried, max_depth).hit,
            ).contains_key(cell.keys[i]) || exists|c: int|
                0 <= c < lookup_step::<V>(store, cell, queried, max_depth).pushed.len() && (
                #[trigger] lookup_step::<V>(store, cell, queried, max_depth).pushed[c]).keys.contains(
                    cell.keys[i],
                ),
{
    let step = lookup_step::<V>(store, cell, queried, max_depth);
    assert(sound::<V>(store, cell.location, r));
    match cell.node.kind {
        NodeKind::Data { value } => {
            Seq::empty()
        },
        NodeKind::Leaf { key, data } => {
            assert(step.pushed =~= Seq::<CellModel>::empty());
            assert(find::<V>(store, cell.location, key, r.height) == option_of(target, key));
            assert forall|i: int|
                0 <= i < cell.keys.len() && target.contains_key(
                    #[trigger] cell.keys[i],
                ) implies with_hit(found, step.hit).contains_key(cell.keys[i]) by {
                let q = cell.keys[i];
                assert(find::<V>(store, cell.location, q, r.height) == option_of(target, q));
            }
            Seq::empty()
        },
        NodeKind::Branch { count, zero, one, split_index, key } => {
            let split = split_index as int;
            let (lo, hi) = lemma_descendants_sorted(cell.keys, key, split);
            let below = cell.keys.subrange(lo, hi);
            lemma_sorted_part(cell.keys, lo, hi);
            assert forall|i: int| 0 <= i < below.len() implies same_prefix(
                #[trigger] below[i],
                key,
                split,
            ) by {
                assert(below[i] == cell.keys[lo + i]);
            }
            let m = lemma_sides_sorted(below, key, split);
            let zeros = below.subrange(0, m);
            let ones = below.subrange(m, below.len() as int);
            lemma_sorted_part(below, 0, m);
            lemma_sorted_part(below, m, below.len() as int);
            let one_cells = child_cell(store, one, ones, cell.depth + 1);
            let zero_cells = child_cell(store, zero, zeros, cell.depth + 1);
            assert(step.pushed == one_cells + zero_cells);
            let one_region = side_region(key, split_index, true, r.height);
            let zero_region = side_region(key, split_index, false, r.height);
            if ones.len() > 0 {
                assert forall|i: int| 0 <= i < ones.len() implies (#[trigger] ones[i]).len()
                    == KEY_LEN && queried.contains(ones[i]) && same_prefix(ones[i], key, split)
                    && bit_of(ones[i], split) == true by {
                    assert(ones[i] == below[m + i]);
                    assert(below[m + i] == cell.keys[lo + m + i]);
                }
                lemma_child_fits::<V>(store, cell, r, queried, target, max_depth, true, ones);
            }
            if zeros.len() > 0 {
                assert forall|i: int| 0 <= i < zeros.len() implies (#[trigger] zeros[i]).len()
                    == KEY_LEN && queried.contains(zeros[i]) && same_prefix(zeros[i], key, split)
                    && bit_of(zeros[i], split) == false by {
                    assert(zeros[i] == below[i]);
                    assert(below[i] == cell.keys[lo + i]);
                }
                lemma_child_fits::<V>(store, cell, r, queried, target, max_depth, false, zeros);
            }
            let one_regions = if ones.len() > 0 {
                seq![one_region]
            } else {
                Seq::empty()
            };
            let zero_regions = if zeros.len() > 0 {
                seq![zero_region]
            } else {
                Seq::empty()
            };
            let regions = one_regions + zero_regions;
            assert forall|c: int| 0 <= c < step.pushed.len() implies cell_fits::<V>(
                store,
                #[trigger] step.pushed[c],
                regions[c],
                queried,
                target,
                max_depth,
            ) by {
                if c < one_cells.len() {
                    assert(step.pushed[c] == one_cells[0]);
                    assert(regions[c] == one_region);
                } else {
                    assert(step.pushed[c] == zero_cells[0]);
                    assert(regions[c] == zero_region);
                }
            }
            assert forall|i: int|
                0 <= i < cell.keys.len() && target.contains_key(
                    #[trigger] cell.keys[i],
                ) implies exists|c: int|
                0 <= c < step.pushed.len() && (#[trigger] step.pushed[c]).keys.contains(
                    cell.keys[i],
                ) by {
                let q = cell.keys[i];
                assert(find::<V>(store, cell.location, q, r.height) == option_of(target, q));
                assert(same_prefix(q, key, split));
                assert(lo <= i < hi);
                assert(below[i - lo] == q);
                if i - lo < m {
                    assert(zeros[i - lo] == q);
                    assert(zero_cells[0].keys.contains(q));
                    assert(step.pushed[one_cells.len() as int] == zero_cells[0]);
                } else {
                    assert(ones[i - lo - m] == q);
                    assert(one_cells[0].keys.contains(q));
                    assert(step.pushed[0] == one_cells[0]);
                }
            }
            regions
        },
    }
}

/// A lookup from a queue of cells that fit their regions does not fail.
/// It finds values of `target` only, under keys that are looked for, it
/// keeps what it has found, and it finds the value of each key of a
/// cell under which `target` holds one.
pub proof fn lemma_lookup_run_fits<V: Decode>(
    store: Store,
    queue: Seq<CellModel>,
    regions: Seq<Region>,
    found: Map<Seq<u8>, V::V>,
    queried: Seq<Seq<u8>>,
    target: Map<Seq<u8>, V::V>,
    max_depth: nat,
)
    requires
        queue_fits::<V>(store, queue, regions, queried, target, max_depth),
        found_fits(found, queried, target),
    ensures
        lookup_run::<V>(store, queue, found, queried, max_depth) is Ok,
        found_fits(lookup_run::<V>(store, queue, found, queried, max_depth)->Ok_0, queried, target),
        forall|q: Seq<u8>| #[trigger]
            found.contains_key(q) ==> lookup_run::<V>(
                store,
                queue,
                found,
                queried,
                max_depth,
            )->Ok_0.contains_key(q),
        forall|c: int, i: int|
            0 <= c < queue.len() && 0 <= i < queue[c].keys.len() && target.contains_key(
                #[trigger] queue[c].keys[i],
            ) ==> lookup_run::<V>(store, queue, found, queried, max_depth)->Ok_0.contains_key(
                queue[c].keys[i],
            ),
    decreases queue_weight(queue, max_depth),
{
    if queue.len() != 0 {
        let cell = queue[0];
        let step = lookup_step::<V>(store, cell, queried, max_depth);
        let pushed_regions = lemma_lookup_step_fits::<V>(
            store,
            cell,
            regions[0],
            found,
            queried,
            target,
            max_depth,
        );
        lemma_lookup_step_weight::<V>(store, cell, queried, max_depth);
        lemma_queue_weight_add(queue.drop_first(), step.pushed, max_depth);
        let next = queue.drop_first() + step.pushed;
        let next_regions = regions.drop_first() + pushed_regions;
        let next_found = with_hit(found, step.hit);
        assert forall|c: int| 0 <= c < next.len() implies cell_fits::<V>(
            store,
            #[trigger] next[c],
            next_regions[c],
            queried,
            target,
            max_depth,
        ) by {
            if c < queue.len() - 1 {
                assert(next[c] == queue[c + 1]);
                assert(next_regions[c] == regions[c + 1]);
            } else {
                assert(next[c] == step.pushed[c - (queue.len() - 1)]);
                assert(next_regions[c] == pushed_regions[c - (queue.len() - 1)]);
            }
        }
        lemma_lookup_run_fits::<V>(store, next, next_regions, next_found, queried, target, max_depth);
        let result = lookup_run::<V>(store, next, next_found, queried, max_depth)->Ok_0;
        assert forall|c: int, i: int|
            0 <= c < queue.len() && 0 <= i < queue[c].keys.len() && target.contains_key(
                #[trigger] queue[c].keys[i],
            ) implies result.contains_key(queue[c].keys[i]) by {
            let q = queue[c].keys[i];
            if c > 0 {
                assert(next[c - 1] == queue[c]);
                assert(next[c - 1].keys[i] == q);
            } else {
                assert(cell.keys[i] == q);
                if !next_found.contains_key(q) {
                    let p = choose|p: int|
                        0 <= p < step.pushed.len() && (#[trigger] step.pushed[p]).keys.contains(q);
                    let at = queue.len() - 1 + p;
                    assert(next[at] == step.pushed[p]);
                    let k = choose|k: int| 0 <= k < next[at].keys.len() && next[at].keys[k] == q;
                    assert(next[at].keys[k] == q);
                }
            }
        }
    }
}

/// The values under `queried` keys in `target`.
pub open spec fn answers<T>(target: Map<Seq<u8>, T>, queried: Seq<Seq<u8>>) -> Map<Seq<u8>, T> {
    target.restrict(Set::new(|q: Seq<u8>| queried.contains(q)))
}

/// A lookup in a well-formed tree finds what the tree holds under the
/// keys that are looked for: where the tree at `root` is well-formed, not
/// higher than the maximum depth, and holds `target`, a lookup of sorted
/// keys of full length finds the values that `target` holds under them.
pub proof fn lemma_lookup_in_sound_tree<V: Decode>(
    store: Store,
    root: Seq<u8>,
    height: nat,
    target: Map<Seq<u8>, V::V>,
    queried: Seq<Seq<u8>>,
    max_depth: nat,
)
    requires
        sound::<V>(store, root, all_keys(height)),
        agrees::<V>(store, root, all_keys(height), target),
        height <= max_depth,
        sorted(queried),
        forall|i: int| 0 <= i < queried.len() ==> (#[trigger] queried[i]).len() == KEY_LEN,
    ensures
        lookup::<V>(store, root, queried, max_depth) == Ok::<Map<Seq<u8>, V::V>, Exception>(
            answers(target, queried),
        ),
{
    let region = all_keys(height);
    let wanted = answers(target, queried);
    if queried.len() > 0 {
        let cell = CellModel { location: root, keys: queried, node: store[root], depth: 0 };
        assert(keys_fit(queried, region, queried)) by {
            assert forall|i: int| 0 <= i < queried.len() implies (#[trigger] queried[i]).len()
                == KEY_LEN && queried.contains(queried[i]) && under(queried[i], region) by {}
        }
        assert(cell_fits::<V>(store, cell, region, queried, target, max_depth));
        let queue = seq![cell];
        let nothing = Map::<Seq<u8>, V::V>::empty();
        lemma_lookup_run_fits::<V>(store, queue, seq![region], nothing, queried, target, max_depth);
        let found = lookup_run::<V>(store, queue, nothing, queried, max_depth)->Ok_0;
        assert(lookup::<V>(store, root, queried, max_depth) == lookup_run::<V>(
            store,
            queue,
            nothing,
            queried,
            max_depth,
        ));
        assert forall|q: Seq<u8>| found.contains_key(q) <==> wanted.contains_key(q) by {
            if wanted.contains_key(q) {
                let i = choose|i: int| 0 <= i < queried.len() && queried[i] == q;
                assert(queue[0].keys[i] == q);
            }
        }
        assert(found =~= wanted);
    } else {
        assert(wanted =~= Map::<Seq<u8>, V::V>::empty());
    }
}

} // verus!
