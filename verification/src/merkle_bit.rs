//! The tree engine: lookup, insertion and removal on a store of nodes.

use std::collections::{HashMap, VecDeque};
use std::marker::PhantomData;
use std::path::PathBuf;
use vstd::prelude::*;

use crate::constants::KEY_LEN;
use crate::model::collect::{addresses, collect_run, collect_step, lemma_collect_step};
use crate::model::insert::{
    batch_sorted, insert_leaves_behind, insert_yields, new_refs, plant_yields,
};
use crate::model::leaves::{
    address, fresh_references, leaves_run, leaves_written, lemma_leaves_run_fails,
    lemma_leaves_run_len, lemma_written_before_failure, BRANCH_TAG, DATA_TAG, LEAF_TAG,
};
use crate::model::lookup::{lookup, lookup_run, lookup_step};
use crate::model::merge::{
    buildable, done, lemma_first_look, lemma_join, lemma_next_look, lemma_pair_runs,
    lemma_same_done, lemma_slots_initial, on_the_way, slots_ok,
};
use crate::model::trie::{
    branch_at, built, has_twins, key_sorted_perm, lemma_first_difference, lemma_pairs_at, merged,
    order_down_to, pairs_at, ref_keys, run_high, run_low, split_bits, twins_at,
};
use crate::model::walk::{
    bumped, lemma_walk_counts, lemma_walk_run_writes, walk, walk_child, walk_run,
    walk_run_writes, walk_step, walk_writes,
};
use crate::traits::{Database, Decode, Encode, Exception, Hasher, NodeVariant};
use crate::tree::tree_branch::TreeBranch;
use crate::tree::tree_data::TreeData;
use crate::tree::tree_leaf::TreeLeaf;
use crate::tree::tree_node::{Store, TreeNode};
use crate::utils::key_order::{
    dedup_adjacent, entry_keys, find_entry, find_last_key, generate_leaf_map, lemma_dedup_adjacent,
    pair_keys, pair_models, sort_keys, sort_pairs, sort_tree_refs, sorted, strictly_sorted,
};
use crate::utils::tree_ref::{ref_models, RefModel, TreeRef};
use crate::utils::tree_cell::{cell_models, queue_weight, CellModel, TreeCell};
use crate::utils::tree_utils::{
    calc_min_split_index, check_descendants, key_views, lemma_all_below, location_views,
    split_bit, split_pairs,
};

verus! {

/// The result of an operation on a `MerkleBIT`.
pub type BinaryMerkleTreeResult<T> = Result<T, Exception>;

/// A value that may be there, as a plain value.
pub open spec fn value_view<V: View>(value: Option<V>) -> Option<V::V> {
    match value {
        Some(v) => Some(v@),
        None => None,
    }
}

/// What `found` holds under `key`.
pub open spec fn found_value<T>(found: Map<Seq<u8>, T>, key: Seq<u8>) -> Option<T> {
    if found.contains_key(key) {
        Some(found[key])
    } else {
        None
    }
}

/// The deepest level that a walk may reach when the tree was made with
/// `depth`: `depth` itself, but for the largest number, which stands for
/// the one before it.
pub open spec fn depth_limit(depth: usize) -> nat {
    if depth == usize::MAX {
        (usize::MAX - 1) as nat
    } else {
        depth as nat
    }
}

/// A Merkle tree over the nodes of a store.
///
/// * `DatabaseType` is the store of the nodes.
/// * `HasherType` computes the addresses of the nodes.
/// * `ValueType` is the type of the values kept under the keys.
pub struct MerkleBIT<DatabaseType, HasherType, ValueType> where
    DatabaseType: Database,
    HasherType: Hasher,
    ValueType: Decode + Encode,
 {
    /// The store of the nodes.
    db: DatabaseType,
    /// The maximum permitted depth of the tree.
    depth: usize,
    /// Marker for `HasherType`.
    hasher: PhantomData<HasherType>,
    /// Marker for `ValueType`.
    value: PhantomData<ValueType>,
}

impl<DatabaseType, HasherType, ValueType> View for MerkleBIT<
    DatabaseType,
    HasherType,
    ValueType,
> where DatabaseType: Database, HasherType: Hasher, ValueType: Decode + Encode {
    type V = Store;

    /// The nodes in the store of the tree.
    closed spec fn view(&self) -> Store {
        self.db@
    }
}

impl<DatabaseType, HasherType, ValueType> MerkleBIT<DatabaseType, HasherType, ValueType> where
    DatabaseType: Database,
    HasherType: Hasher,
    ValueType: Decode + Encode,
 {
    /// The deepest level that a walk through this tree may reach.
    pub closed spec fn max_depth(&self) -> nat {
        depth_limit(self.depth)
    }

    /// Whether the store of this tree never fails.
    pub closed spec fn reliable(&self) -> bool {
        self.db.reliable()
    }

    /// The contents of the store of this tree once its writes are
    /// published.
    pub closed spec fn pending(&self) -> Store {
        self.db.pending()
    }

    /// Whether all writes to the store of this tree are published.
    pub open spec fn flushed(&self) -> bool {
        self.pending() == self@
    }

    /// Create a new `MerkleBIT` from a saved database.
    pub fn new(path: &PathBuf, depth: usize) -> (r: BinaryMerkleTreeResult<Self>)
        ensures
            match r {
                Ok(tree) => tree.max_depth() == depth_limit(depth) && tree.flushed(),
                Err(e) => e == Exception::StoreFailure,
            },
            r matches Ok(tree) ==> exists|db: DatabaseType|
                {
                    &&& call_ensures(
                        DatabaseType::open,
                        (path,),
                        Ok::<DatabaseType, Exception>(db),
                    )
                    &&& tree@ == db@
                    &&& tree.pending() == db.pending()
                    &&& tree.reliable() == db.reliable()
                },
    {
        match DatabaseType::open(path) {
            Ok(db) => {
                proof {
                    assert(call_ensures(
                        DatabaseType::open,
                        (path,),
                        Ok::<DatabaseType, Exception>(db),
                    ));
                }
                Ok(Self { db, depth, hasher: PhantomData, value: PhantomData })
            },
            Err(e) => Err(e),
        }
    }

    /// Create a new `MerkleBIT` from an already opened database.
    pub fn from_db(db: DatabaseType, depth: usize) -> (r: BinaryMerkleTreeResult<Self>)
        ensures
            r matches Ok(tree) && tree@ == db@ && tree.pending() == db.pending()
                && tree.max_depth() == depth_limit(depth) && tree.reliable() == db.reliable(),
    {
        Ok(Self { db, depth, hasher: PhantomData, value: PhantomData })
    }

    /// The store of the tree.
    pub fn db(&self) -> (r: &DatabaseType)
        ensures
            r@ == self@,
            r.pending() == self.pending(),
            r.reliable() == self.reliable(),
    {
        &self.db
    }

    /// The limit of the depth as a number that leaves room for one more step.
    fn limit(&self) -> (r: usize)
        ensures
            r == self.max_depth(),
            r < usize::MAX,
    {
        if self.depth == usize::MAX {
            usize::MAX - 1
        } else {
            self.depth
        }
    }

    /// Get items from the `MerkleBIT`. Sorts `keys` and returns one entry
    /// for each distinct key, in the order of the keys, with the value
    /// found under the key or `None`.
    pub fn get<'a>(&self, root_hash: &[u8; KEY_LEN], keys: &mut [&'a [u8; KEY_LEN]]) -> (r:
        BinaryMerkleTreeResult<Vec<(&'a [u8; KEY_LEN], Option<ValueType>)>>)
        ensures
            key_views(final(keys)@).to_multiset() == key_views(old(keys)@).to_multiset(),
            final(keys)@.len() == old(keys)@.len(),
            sorted(key_views(final(keys)@)),
            old(keys)@.len() == 0 ==> r is Ok,
            match r {
                Ok(entries) => {
                    let outcome = lookup::<ValueType>(
                        self@,
                        root_hash@,
                        key_views(final(keys)@),
                        self.max_depth(),
                    );
                    &&& outcome is Ok
                    &&& entry_keys(entries@) == dedup_adjacent(key_views(final(keys)@))
                    &&& forall|i: int|
                        0 <= i < entries@.len() ==> value_view((#[trigger] entries@[i]).1)
                            == found_value(outcome->Ok_0, entries@[i].0@)
                },
                Err(e) => lookup::<ValueType>(
                    self@,
                    root_hash@,
                    key_views(final(keys)@),
                    self.max_depth(),
                ) == Err::<Map<Seq<u8>, ValueType::V>, Exception>(e) || (e
                    == Exception::StoreFailure && !self.reliable()),
            },
    {
        sort_keys(keys);
        let ghost queried = key_views(keys@);
        let sorted_keys: &[&'a [u8; KEY_LEN]] = keys;
        let ghost store = self.db@;
        let ghost max_depth = self.max_depth();
        let mut leaf_map = generate_leaf_map::<ValueType>(sorted_keys);
        proof {
            lemma_dedup_adjacent(queried);
        }
        if sorted_keys.len() == 0 {
            return Ok(leaf_map);
        }
        let root_node = match self.db.get_node(root_hash) {
            Ok(Some(n)) => n,
            Ok(None) => {
                return Ok(leaf_map);
            },
            Err(e) => {
                return Err(e);
            },
        };
        let limit = self.limit();
        let mut cell_queue: VecDeque<TreeCell> = VecDeque::new();
        let root_cell = TreeCell::new(*root_hash, sorted_keys, root_node, 0);
        cell_queue.push_back(root_cell);
        let ghost mut found: Map<Seq<u8>, ValueType::V> = Map::empty();
        proof {
            assert(cell_models(cell_queue@) =~= seq![
                CellModel { location: root_hash@, keys: queried, node: store[root_hash@], depth: 0 },
            ]);
        }
        while cell_queue.len() > 0
            invariant
                queried == key_views(keys@),
                queried.to_multiset() == key_views(old(keys)@).to_multiset(),
                keys@.len() == old(keys)@.len(),
                keys@.len() > 0,
                sorted(queried),
                store == self.db@,
                max_depth == self.max_depth(),
                limit == max_depth,
                limit < usize::MAX,
                entry_keys(leaf_map@) == dedup_adjacent(queried),
                strictly_sorted(entry_keys(leaf_map@)),
                forall|k: Seq<u8>| dedup_adjacent(queried).contains(k) <==> queried.contains(k),
                forall|i: int|
                    0 <= i < leaf_map@.len() ==> value_view((#[trigger] leaf_map@[i]).1)
                        == found_value(found, leaf_map@[i].0@),
                lookup_run::<ValueType>(store, cell_models(cell_queue@), found, queried, max_depth)
                    == lookup::<ValueType>(store, root_hash@, queried, max_depth),
            decreases queue_weight(cell_models(cell_queue@), max_depth),
        {
            let ghost queue_before = cell_models(cell_queue@);
            let tree_cell = cell_queue.pop_front().unwrap();
            let ghost rest = cell_models(cell_queue@);
            let ghost cell = tree_cell@;
            let ghost step = lookup_step::<ValueType>(store, cell, queried, max_depth);
            proof {
                assert(queue_before[0] == cell);
                assert(rest =~= queue_before.drop_first());
                if step.error is None {
                    crate::model::lookup::lemma_lookup_step_weight::<ValueType>(
                        store,
                        cell,
                        queried,
                        max_depth,
                    );
                    crate::utils::tree_cell::lemma_queue_weight_add(rest, step.pushed, max_depth);
                }
            }
            if tree_cell.depth > limit {
                return Err(Exception::DepthExceeded);
            }
            let TreeCell { location, keys: cell_keys, node, depth } = tree_cell;
            match node.get_variant() {
                NodeVariant::Branch(branch) => {
                    let (_, zero, one, branch_split_index, branch_key) = branch.deconstruct();
                    let min_split_index = calc_min_split_index(cell_keys, &branch_key);
                    let below = if min_split_index < branch_split_index {
                        check_descendants(cell_keys, branch_split_index, &branch_key)
                    } else {
                        proof {
                            lemma_all_below(cell.keys, branch_key@, branch_split_index as int);
                        }
                        cell_keys
                    };
                    let (zeros, ones) = split_pairs(below, branch_split_index);
                    let ghost before_push = cell_queue@;
                    match self.db.get_node(&one) {
                        Ok(Some(one_node)) => {
                            if ones.len() > 0 {
                                cell_queue.push_back(TreeCell::new(one, ones, one_node, depth + 1));
                            }
                        },
                        Ok(None) => {},
                        Err(e) => {
                            return Err(e);
                        },
                    }
                    let ghost middle = cell_queue@;
                    match self.db.get_node(&zero) {
                        Ok(Some(zero_node)) => {
                            if zeros.len() > 0 {
                                cell_queue.push_back(
                                    TreeCell::new(zero, zeros, zero_node, depth + 1),
                                );
                            }
                        },
                        Ok(None) => {},
                        Err(e) => {
                            return Err(e);
                        },
                    }
                    proof {
                        assert(cell_models(cell_queue@) =~= rest + step.pushed);
                    }
                },
                NodeVariant::Leaf(leaf) => {
                    let data_node = match self.db.get_node(leaf.get_data()) {
                        Ok(Some(d)) => d,
                        Ok(None) => {
                            return Err(Exception::CorruptTree);
                        },
                        Err(e) => {
                            return Err(e);
                        },
                    };
                    let data = match data_node.get_variant() {
                        NodeVariant::Data(data) => data,
                        _ => {
                            return Err(Exception::CorruptTree);
                        },
                    };
                    let value = match ValueType::decode(data.get_value()) {
                        Ok(v) => v,
                        Err(e) => {
                            return Err(e);
                        },
                    };
                    let ghost value_model = value@;
                    match find_entry(&leaf_map, leaf.get_key()) {
                        Some(index) => {
                            let key = leaf_map[index].0;
                            let ghost before = leaf_map@;
                            leaf_map[index] = (key, Some(value));
                            proof {
                                assert(entry_keys(before)[index as int] == leaf.key@);
                                assert(queried.contains(leaf.key@));
                                assert(entry_keys(leaf_map@) =~= entry_keys(before));
                                found = found.insert(leaf.key@, value_model);
                                assert forall|i: int| 0 <= i < leaf_map@.len() implies value_view(
                                    (#[trigger] leaf_map@[i]).1,
                                ) == found_value(found, leaf_map@[i].0@) by {
                                    if i != index {
                                        assert(leaf_map@[i] == before[i]);
                                        assert(entry_keys(before)[i] == before[i].0@);
                                        crate::utils::key_order::lemma_key_lt_irreflexive(
                                            leaf.key@,
                                        );
                                    }
                                }
                            }
                        },
                        None => {},
                    }
                    proof {
                        assert(step.pushed =~= Seq::<CellModel>::empty());
                        assert(cell_models(cell_queue@) =~= rest + step.pushed);
                    }
                },
                NodeVariant::Data(_) => {
                    return Err(Exception::CorruptTree);
                },
            }
        }
        Ok(leaf_map)
    }

    /// Deals with the child at `location` of a branch on the walk through
    /// an earlier tree: a child for which keys are left gives a cell, any
    /// other child is taken over as it is.
    fn take_child<'a>(
        &mut self,
        location: [u8; KEY_LEN],
        side: &'a [&'a [u8; KEY_LEN]],
        depth: usize,
        cell_queue: &mut VecDeque<TreeCell<'a>>,
        proof_nodes: &mut Vec<TreeRef>,
    ) -> (r: BinaryMerkleTreeResult<()>)
        ensures
            final(self).max_depth() == old(self).max_depth(),
            final(self).reliable() == old(self).reliable(),
            final(self)@ == old(self)@,
            ({
                let step = walk_child(
                    old(self)@,
                    old(self).pending(),
                    location@,
                    key_views(side@),
                    depth as nat,
                );
                match r {
                    Ok(()) => {
                        &&& step.error is None
                        &&& final(self).pending() == step.store
                        &&& cell_models(final(cell_queue)@) == cell_models(old(cell_queue)@)
                            + step.pushed
                        &&& ref_models(final(proof_nodes)@) == ref_models(old(proof_nodes)@)
                            + step.emitted
                    },
                    Err(e) => (step.error == Some(e) && final(self).pending() == step.store) || (e
                        == Exception::StoreFailure && !old(self).reliable()),
                }
            }),
    {
        let ghost step = walk_child(
            self@,
            self.pending(),
            location@,
            key_views(side@),
            depth as nat,
        );
        let child = match self.db.get_node(&location) {
            Ok(Some(n)) => n,
            Ok(None) => {
                proof {
                    assert(cell_models(cell_queue@) =~= cell_models(cell_queue@) + step.pushed);
                    assert(ref_models(proof_nodes@) =~= ref_models(proof_nodes@) + step.emitted);
                }
                return Ok(());
            },
            Err(e) => {
                return Err(e);
            },
        };
        if side.len() > 0 {
            let ghost queue_before = cell_queue@;
            cell_queue.push_back(TreeCell::new(location, side, child, depth));
            proof {
                assert(cell_models(cell_queue@) =~= cell_models(queue_before) + step.pushed);
                assert(ref_models(proof_nodes@) =~= ref_models(proof_nodes@) + step.emitted);
            }
            return Ok(());
        }
        let other_key;
        let count;
        match &child.node {
            NodeVariant::Branch(b) => {
                count = b.get_count();
                other_key = *b.get_key();
            },
            NodeVariant::Leaf(l) => {
                count = 1;
                other_key = *l.get_key();
            },
            NodeVariant::Data(_) => {
                return Err(Exception::CorruptTree);
            },
        }
        match self.db.insert(location, bump(child)) {
            Ok(()) => {},
            Err(e) => {
                return Err(e);
            },
        }
        let ghost refs_before = proof_nodes@;
        proof_nodes.push(TreeRef::new(other_key, location, count, 1));
        proof {
            assert(cell_models(cell_queue@) =~= cell_models(cell_queue@) + step.pushed);
            assert(ref_models(proof_nodes@) =~= ref_models(refs_before) + step.emitted);
        }
        Ok(())
    }

    /// Walks the tree at `root` and finds the nodes that the sorted new
    /// keys `keys` do not touch. Each of them gets one more reference and
    /// a descriptor. `locations` holds the addresses of the new leaves,
    /// in the order of `keys`.
    fn generate_treerefs(
        &mut self,
        root: &[u8; KEY_LEN],
        keys: &[&[u8; KEY_LEN]],
        locations: &Vec<[u8; KEY_LEN]>,
    ) -> (r: BinaryMerkleTreeResult<Vec<TreeRef>>)
        requires
            sorted(key_views(keys@)),
        ensures
            final(self).max_depth() == old(self).max_depth(),
            final(self).reliable() == old(self).reliable(),
            final(self)@ == old(self)@,
            ({
                let outcome = walk(
                    old(self)@,
                    old(self).pending(),
                    root@,
                    key_views(keys@),
                    location_views(locations@),
                    old(self).max_depth(),
                );
                match r {
                    Ok(refs) => outcome == Ok::<(Seq<RefModel>, Store), Exception>(
                        (ref_models(refs@), final(self).pending()),
                    ),
                    Err(e) => (outcome is Err && outcome->Err_0 == e && final(self).pending()
                        == walk_writes(
                        old(self)@,
                        old(self).pending(),
                        root@,
                        key_views(keys@),
                        location_views(locations@),
                        old(self).max_depth(),
                    )) || (e == Exception::StoreFailure && !old(self).reliable()),
                }
            }),
    {
        let ghost new_keys = key_views(keys@);
        let ghost new_locations = location_views(locations@);
        let ghost max_depth = self.max_depth();
        let ghost outcome = walk(self@, self.pending(), root@, new_keys, new_locations, max_depth);
        let ghost written = walk_writes(
            self@,
            self.pending(),
            root@,
            new_keys,
            new_locations,
            max_depth,
        );
        let mut proof_nodes: Vec<TreeRef> = Vec::new();
        let root_node = match self.db.get_node(root) {
            Ok(Some(n)) => n,
            Ok(None) => {
                return Err(Exception::CorruptTree);
            },
            Err(e) => {
                return Err(e);
            },
        };
        let limit = self.limit();
        let mut cell_queue: VecDeque<TreeCell> = VecDeque::new();
        cell_queue.push_back(TreeCell::new(*root, keys, root_node, 0));
        proof {
            assert(cell_models(cell_queue@) =~= seq![
                CellModel { location: root@, keys: new_keys, node: self@[root@], depth: 0 },
            ]);
            assert(ref_models(proof_nodes@) =~= Seq::<RefModel>::empty());
        }
        while cell_queue.len() > 0
            invariant
                new_keys == key_views(keys@),
                new_locations == location_views(locations@),
                sorted(new_keys),
                max_depth == self.max_depth(),
                max_depth == old(self).max_depth(),
                self.reliable() == old(self).reliable(),
                limit == max_depth,
                limit < usize::MAX,
                outcome == walk(
                    old(self)@,
                    old(self).pending(),
                    root@,
                    new_keys,
                    new_locations,
                    max_depth,
                ),
                self@ == old(self)@,
                walk_run(
                    self@,
                    self.pending(),
                    cell_models(cell_queue@),
                    ref_models(proof_nodes@),
                    new_keys,
                    new_locations,
                    max_depth,
                ) == outcome,
                walk_run_writes(
                    self@,
                    self.pending(),
                    cell_models(cell_queue@),
                    new_keys,
                    new_locations,
                    max_depth,
                ) == written,
                written == walk_writes(
                    old(self)@,
                    old(self).pending(),
                    root@,
                    new_keys,
                    new_locations,
                    max_depth,
                ),
            decreases queue_weight(cell_models(cell_queue@), max_depth),
        {
            let ghost queue_before = cell_models(cell_queue@);
            let ghost store = self@;
            let ghost waiting = self.pending();
            let ghost refs_before = ref_models(proof_nodes@);
            let tree_cell = cell_queue.pop_front().unwrap();
            let ghost rest = cell_models(cell_queue@);
            let ghost cell = tree_cell@;
            let ghost step = walk_step(store, waiting, cell, new_keys, new_locations, max_depth);
            proof {
                assert(queue_before[0] == cell);
                assert(rest =~= queue_before.drop_first());
                assert(written == if step.error is Some {
                    step.store
                } else {
                    walk_run_writes(
                        store,
                        step.store,
                        rest + step.pushed,
                        new_keys,
                        new_locations,
                        max_depth,
                    )
                });
                if step.error is None {
                    crate::model::walk::lemma_walk_step_weight(
                        store,
                        waiting,
                        cell,
                        new_keys,
                        new_locations,
                        max_depth,
                    );
                    crate::utils::tree_cell::lemma_queue_weight_add(rest, step.pushed, max_depth);
                }
            }
            if tree_cell.depth > limit {
                return Err(Exception::DepthExceeded);
            }
            let TreeCell { location, keys: cell_keys, node, depth } = tree_cell;
            let refs = node.get_references();
            let branch = match node.get_variant() {
                NodeVariant::Branch(n) => n,
                NodeVariant::Leaf(n) => {
                    let key = n.get_key();
                    // A leaf whose key is new is passed over: its new leaf is written
                    match find_last_key(keys, key) {
                        Some(place) => {
                            if place < locations.len() {
                                proof {
                                    assert(ref_models(proof_nodes@) =~= refs_before + step.emitted);
                                    assert(rest =~= rest + step.pushed);
                                }
                                continue ;
                            }
                        },
                        None => {},
                    }
                    match self.db.get_node(&location) {
                        Ok(Some(l)) => {
                            match self.db.insert(location, bump(l)) {
                                Ok(()) => {},
                                Err(e) => {
                                    return Err(e);
                                },
                            }
                        },
                        Ok(None) => {
                            return Err(Exception::CorruptTree);
                        },
                        Err(e) => {
                            return Err(e);
                        },
                    }
                    proof_nodes.push(TreeRef::new(*key, location, 1, 1));
                    proof {
                        assert(ref_models(proof_nodes@) =~= refs_before + step.emitted);
                        assert(rest =~= rest + step.pushed);
                    }
                    continue ;
                },
                NodeVariant::Data(_) => {
                    return Err(Exception::CorruptTree);
                },
            };
            let (branch_count, branch_zero, branch_one, branch_split_index, branch_key) =
                branch.deconstruct();
            let min_split_index = calc_min_split_index(cell_keys, &branch_key);
            let mut below = cell_keys;
            if min_split_index < branch_split_index {
                below = check_descendants(cell_keys, branch_split_index, &branch_key);
                if below.len() == 0 {
                    let tree_ref = TreeRef::new(branch_key, location, branch_count, 1);
                    let mut new_node = TreeNode::new(NodeVariant::Branch(branch));
                    new_node.set_references(refs.saturating_add(1));
                    match self.db.insert(location, new_node) {
                        Ok(()) => {},
                        Err(e) => {
                            return Err(e);
                        },
                    }
                    proof_nodes.push(tree_ref);
                    proof {
                        assert(ref_models(proof_nodes@) =~= refs_before + step.emitted);
                        assert(rest =~= rest + step.pushed);
                    }
                    continue ;
                }
            } else {
                proof {
                    lemma_all_below(cell.keys, branch_key@, branch_split_index as int);
                }
            }
            let (zeros, ones) = split_pairs(below, branch_split_index);
            let ghost first = walk_child(
                store,
                waiting,
                branch_one@,
                key_views(ones@),
                depth as nat + 1,
            );
            match self.take_child(branch_one, ones, depth + 1, &mut cell_queue, &mut proof_nodes) {
                Ok(()) => {},
                Err(e) => {
                    return Err(e);
                },
            }
            let ghost second = walk_child(
                store,
                first.store,
                branch_zero@,
                key_views(zeros@),
                depth as nat + 1,
            );
            match self.take_child(branch_zero, zeros, depth + 1, &mut cell_queue, &mut proof_nodes) {
                Ok(()) => {},
                Err(e) => {
                    return Err(e);
                },
            }
            proof {
                assert(cell_models(cell_queue@) =~= rest + step.pushed);
                assert(ref_models(proof_nodes@) =~= refs_before + step.emitted);
            }
        }
        Ok(proof_nodes)
    }

    /// The number of references for a node that is written anew at
    /// `location`.
    fn references_at(&self, location: &[u8; KEY_LEN]) -> (r: BinaryMerkleTreeResult<u64>)
        ensures
            match r {
                Ok(n) => n == fresh_references(self@, location@),
                Err(e) => e == Exception::StoreFailure && !self.reliable(),
            },
    {
        match self.db.get_node(location) {
            Ok(Some(n)) => Ok(n.get_references().saturating_add(1)),
            Ok(None) => Ok(1),
            Err(e) => Err(e),
        }
    }

    /// Inserts all the new leaves into the database, with their data
    /// nodes, and returns the addresses of the leaves in the order of
    /// `pairs`. A node that is in the store already gets one more
    /// reference.
    fn insert_leaves(&mut self, pairs: &Vec<(&[u8; KEY_LEN], &ValueType)>) -> (r:
        BinaryMerkleTreeResult<Vec<[u8; KEY_LEN]>>)
        ensures
            final(self).max_depth() == old(self).max_depth(),
            final(self).reliable() == old(self).reliable(),
            final(self)@ == old(self)@,
            ({
                let outcome = leaves_run::<HasherType, ValueType>(
                    old(self)@,
                    old(self).pending(),
                    pair_models(pairs@),
                );
                match r {
                    Ok(nodes) => outcome == Ok::<(Seq<Seq<u8>>, Store), Exception>(
                        (location_views(nodes@), final(self).pending()),
                    ),
                    Err(e) => (outcome is Err && outcome->Err_0 == e && final(self).pending()
                        == leaves_written::<HasherType, ValueType>(
                        old(self)@,
                        old(self).pending(),
                        pair_models(pairs@),
                    )) || (e == Exception::StoreFailure && !old(self).reliable()),
                }
            }),
    {
        let ghost all = pair_models(pairs@);
        let mut nodes: Vec<[u8; KEY_LEN]> = Vec::new();
        let mut i: usize = 0;
        proof {
            assert(all.subrange(0, 0) =~= Seq::<(Seq<u8>, ValueType::V)>::empty());
            assert(location_views(nodes@) =~= Seq::<Seq<u8>>::empty());
        }
        while i < pairs.len()
            invariant
                i <= pairs@.len(),
                all == pair_models(pairs@),
                self.max_depth() == old(self).max_depth(),
                self.reliable() == old(self).reliable(),
                self@ == old(self)@,
                leaves_run::<HasherType, ValueType>(
                    old(self)@,
                    old(self).pending(),
                    all.subrange(0, i as int),
                ) == Ok::<(Seq<Seq<u8>>, Store), Exception>(
                    (location_views(nodes@), self.pending()),
                ),
            decreases pairs@.len() - i,
        {
            let key: &[u8; KEY_LEN] = pairs[i].0;
            let ghost upto = all.subrange(0, i + 1);
            proof {
                assert(upto.drop_last() =~= all.subrange(0, i as int));
                assert(upto.last() == (key@, pairs@[i as int].1@));
            }
            // Create data node
            let encoded = match pairs[i].1.encode() {
                Ok(bytes) => bytes,
                Err(e) => {
                    proof {
                        lemma_leaves_run_fails::<HasherType, ValueType>(
                            old(self)@,
                            old(self).pending(),
                            all,
                            i + 1,
                        );
                        lemma_written_before_failure::<HasherType, ValueType>(
                            old(self)@,
                            old(self).pending(),
                            all,
                            i as int,
                        );
                    }
                    return Err(e);
                },
            };
            let mut data = TreeData::new();
            data.set_value(encoded.as_slice());
            let data_node_location = node_address::<HasherType>(
                DATA_TAG,
                key.as_slice(),
                data.get_value(),
            );
            let mut data_node = TreeNode::new(NodeVariant::Data(data));
            // Create leaf node
            let mut leaf = TreeLeaf::new();
            leaf.set_data(data_node_location);
            leaf.set_key(*key);
            let leaf_node_location = node_address::<HasherType>(
                LEAF_TAG,
                key.as_slice(),
                leaf.get_data().as_slice(),
            );
            let mut leaf_node = TreeNode::new(NodeVariant::Leaf(leaf));
            match self.references_at(&data_node_location) {
                Ok(n) => {
                    data_node.set_references(n);
                },
                Err(e) => {
                    return Err(e);
                },
            }
            match self.references_at(&leaf_node_location) {
                Ok(n) => {
                    leaf_node.set_references(n);
                },
                Err(e) => {
                    return Err(e);
                },
            }
            match self.db.insert(data_node_location, data_node) {
                Ok(()) => {},
                Err(e) => {
                    return Err(e);
                },
            }
            match self.db.insert(leaf_node_location, leaf_node) {
                Ok(()) => {},
                Err(e) => {
                    return Err(e);
                },
            }
            let ghost before = location_views(nodes@);
            nodes.push(leaf_node_location);
            proof {
                assert(location_views(nodes@) =~= before.push(leaf_node_location@));
            }
            i = i + 1;
        }
        proof {
            assert(all.subrange(0, i as int) =~= all);
        }
        Ok(nodes)
    }

    /// Generates the worklists for the building of a tree over
    /// `tree_refs`: for each bit at which two neighbours part, the pairs
    /// of neighbours whose keys part at that bit.
    fn generate_tree_ref_queue(tree_refs: &Vec<TreeRef>) -> (r: BinaryMerkleTreeResult<
        HashMap<u8, Vec<usize>>,
    >)
        requires
            tree_refs@.len() > 0,
        ensures
            match r {
                Ok(levels) => !has_twins(ref_models(tree_refs@)) && worklists(
                    levels@,
                    split_bits(ref_models(tree_refs@)),
                ),
                Err(e) => e == Exception::DuplicateKey && has_twins(ref_models(tree_refs@)),
            },
    {
        let ghost refs = ref_models(tree_refs@);
        let ghost splits = split_bits(refs);
        let mut levels: HashMap<u8, Vec<usize>> = HashMap::new();
        let mut i: usize = 0;
        while i < tree_refs.len() - 1
            invariant
                i <= tree_refs@.len() - 1,
                refs == ref_models(tree_refs@),
                splits == split_bits(refs),
                forall|b: u8| #[trigger] worklist(levels@, b) == pairs_at(splits, b as int, i as int),
                forall|q: int| 0 <= q < i ==> !twins_at(refs, q),
            decreases tree_refs@.len() - i,
        {
            assert(refs[i as int] == tree_refs@[i as int]@);
            assert(refs[i + 1] == tree_refs@[i + 1]@);
            match split_bit(&tree_refs[i].key, &tree_refs[i + 1].key) {
                None => {
                    proof {
                        assert(twins_at(refs, i as int));
                    }
                    return Err(Exception::DuplicateKey);
                },
                Some(split) => {
                    proof {
                        lemma_first_difference(refs[i as int].key, refs[i + 1].key, split as int);
                        assert(splits[i as int] == split);
                    }
                    let ghost before = levels@;
                    let mut level = match levels.remove(&split) {
                        Some(level) => level,
                        None => Vec::new(),
                    };
                    let ghost had = level@;
                    level.push(i);
                    levels.insert(split, level);
                    proof {
                        assert(as_ints(had) =~= worklist(before, split));
                        assert forall|b: u8| #[trigger]
                            worklist(levels@, b) == pairs_at(splits, b as int, i + 1) by {
                            if b == split {
                                assert(worklist(levels@, b) =~= worklist(before, b).push(i as int));
                            } else {
                                assert(worklist(levels@, b) == worklist(before, b));
                            }
                        }
                    }
                },
            }
            i = i + 1;
        }
        proof {
            if has_twins(refs) {
                let q = choose|q: int| twins_at(refs, q);
                assert(!twins_at(refs, q));
            }
        }
        Ok(levels)
    }

    /// Joins the pairs of one worklist: the pairs of neighbours whose
    /// keys part at `split_index`, when all pairs that part deeper are
    /// joined. Each join writes a branch and puts what stands for the
    /// joined run in the place of the last subtree of the run and in the
    /// place of the first subtree of the pair.
    fn merge_nodes(
        &mut self,
        tree_refs: &mut Vec<TreeRef>,
        level: &Vec<usize>,
        split_index: u8,
        Ghost(refs): Ghost<Seq<RefModel>>,
        Ghost(splits): Ghost<Seq<u8>>,
        Ghost(store): Ghost<Store>,
        Ghost(order): Ghost<Seq<int>>,
    ) -> (r: BinaryMerkleTreeResult<()>)
        requires
            buildable(refs, splits),
            as_ints(level@) == pairs_at(splits, split_index as int, splits.len() as int),
            slots_ok::<HasherType>(refs, splits, ref_models(old(tree_refs)@), split_index as int, 0),
            old(self).pending() == built::<HasherType>(store, refs, splits, order),
        ensures
            final(self).max_depth() == old(self).max_depth(),
            final(self).reliable() == old(self).reliable(),
            final(self)@ == old(self)@,
            match r {
                Ok(()) => {
                    &&& slots_ok::<HasherType>(
                        refs,
                        splits,
                        ref_models(final(tree_refs)@),
                        split_index as int,
                        splits.len() as int,
                    )
                    &&& final(self).pending() == built::<HasherType>(
                        store,
                        refs,
                        splits,
                        order + as_ints(level@),
                    )
                },
                Err(e) => e == Exception::StoreFailure && !old(self).reliable(),
            },
    {
        let ghost bit = split_index as int;
        let ghost end = splits.len() as int;
        let ghost pairs = as_ints(level@);
        let ghost mut from: int = 0;
        let mut j: usize = 0;
        proof {
            lemma_pairs_at(splits, bit, end);
            assert(order + pairs.subrange(0, 0) =~= order);
        }
        while j < level.len()
            invariant
                j <= level@.len(),
                buildable(refs, splits),
                bit == split_index,
                end == splits.len(),
                pairs == as_ints(level@),
                pairs == pairs_at(splits, bit, end),
                from == (if j == 0 {
                    0
                } else {
                    level@[j - 1] + 1
                }),
                slots_ok::<HasherType>(refs, splits, ref_models(tree_refs@), bit, from),
                self@ == old(self)@,
                self.pending() == built::<HasherType>(
                    store,
                    refs,
                    splits,
                    order + pairs.subrange(0, j as int),
                ),
                self.max_depth() == old(self).max_depth(),
                self.reliable() == old(self).reliable(),
            decreases level@.len() - j,
        {
            let index = level[j];
            let ghost i = index as int;
            let ghost slots = ref_models(tree_refs@);
            let ghost high = run_high(splits, i);
            proof {
                lemma_pairs_at(splits, bit, end);
                assert(pairs[j as int] == i);
                if j > 0 {
                    assert(pairs[j - 1] == level@[j - 1]);
                }
                assert forall|q: int| 0 <= q < end implies done(splits, bit, from, q) == done(
                    splits,
                    bit,
                    i,
                    q,
                ) by {
                    if splits[q] == bit && from <= q < i {
                        assert(pairs.contains(q));
                        let k = choose|k: int| 0 <= k < pairs.len() && pairs[k] == q;
                        if k < j {
                            if k < j - 1 {
                                assert(pairs[k] < pairs[j - 1]);
                            }
                        } else if k > j {
                            assert(pairs[j as int] < pairs[k]);
                        }
                    }
                }
                lemma_same_done::<HasherType>(refs, splits, slots, bit, from, bit, i);
                lemma_pair_runs::<HasherType>(refs, splits, slots, i);
                lemma_first_look::<HasherType>(refs, splits, slots, i);
                assert(slots[i] == tree_refs@[i]@);
                assert(slots[i + 1] == tree_refs@[i + 1]@);
            }
            let left = tree_refs[index];
            // Find the rightmost edge of the adjacent subtree
            let mut count_ = tree_refs[index + 1].count;
            let mut look: usize = index + 1;
            let mut lookahead_count = count_;
            if count_ > 1 {
                // Look ahead by the count from our position
                look = index + count_;
                proof {
                    crate::model::trie::lemma_run_high(splits, i);
                    assert(slots[look as int] == tree_refs@[look as int]@);
                }
                lookahead_count = tree_refs[look].count;
                while lookahead_count > count_
                    invariant
                        buildable(refs, splits),
                        0 <= i < splits.len(),
                        i == index,
                        bit == splits[i],
                        slots == ref_models(tree_refs@),
                        slots_ok::<HasherType>(refs, splits, slots, bit, i),
                        on_the_way(splits, i, look as int),
                        high == run_high(splits, i),
                        high < refs.len(),
                        count_ == look - index,
                        lookahead_count == slots[look as int].count,
                    decreases high - look,
                {
                    proof {
                        lemma_next_look::<HasherType>(refs, splits, slots, i, look as int);
                    }
                    count_ = lookahead_count;
                    look = index + count_;
                    proof {
                        assert(slots[look as int] == tree_refs@[look as int]@);
                    }
                    lookahead_count = tree_refs[look].count;
                }
                proof {
                    lemma_next_look::<HasherType>(refs, splits, slots, i, look as int);
                }
            }
            proof {
                assert(look == high);
                assert(slots[high] == tree_refs@[high]@);
                lemma_join::<HasherType>(refs, splits, slots, i);
            }
            let right = tree_refs[look];
            let count = left.node_count.saturating_add(right.node_count);
            let branch_node_location = node_address::<HasherType>(
                BRANCH_TAG,
                left.location.as_slice(),
                right.location.as_slice(),
            );
            let mut branch = TreeBranch::new();
            branch.set_zero(left.location);
            branch.set_one(right.location);
            branch.set_count(count);
            branch.set_split_index(split_index);
            branch.set_key(left.key);
            let mut branch_node = TreeNode::new(NodeVariant::Branch(branch));
            branch_node.set_references(1);
            proof {
                assert(branch_node@ == branch_at::<HasherType>(refs, splits, i).1);
            }
            match self.db.insert(branch_node_location, branch_node) {
                Ok(()) => {},
                Err(e) => {
                    return Err(e);
                },
            }
            let merged_ref = TreeRef::new(
                left.key,
                branch_node_location,
                count,
                lookahead_count + left.count,
            );
            tree_refs[look] = merged_ref;
            tree_refs[index] = merged_ref;
            proof {
                let joined = merged::<HasherType>(refs, splits, run_low(splits, i), high);
                assert(merged_ref@ == joined);
                assert(ref_models(tree_refs@) =~= slots.update(high, joined).update(i, joined));
                from = i + 1;
                let sofar = order + pairs.subrange(0, j as int);
                assert(order + pairs.subrange(0, j + 1) =~= sofar.push(i));
                assert(sofar.push(i).drop_last() =~= sofar);
            }
            j = j + 1;
        }
        proof {
            let slots = ref_models(tree_refs@);
            lemma_pairs_at(splits, bit, end);
            assert forall|q: int| 0 <= q < end implies done(splits, bit, from, q) == done(
                splits,
                bit,
                end,
                q,
            ) by {
                if splits[q] == bit && from <= q {
                    assert(pairs.contains(q));
                    let k = choose|k: int| 0 <= k < pairs.len() && pairs[k] == q;
                    if j > 0 && k < j - 1 {
                        assert(pairs[k] < pairs[j - 1]);
                    }
                }
            }
            lemma_same_done::<HasherType>(refs, splits, slots, bit, from, bit, end);
            assert(pairs.subrange(0, j as int) =~= pairs);
        }
        Ok(())
    }

    /// Builds a tree over the subtrees `tree_refs` and returns the
    /// address of its root.
    fn create_tree(&mut self, tree_refs: Vec<TreeRef>) -> (r: BinaryMerkleTreeResult<
        [u8; KEY_LEN],
    >)
        requires
            tree_refs@.len() > 0,
            forall|i: int| 0 <= i < tree_refs@.len() ==> (#[trigger] tree_refs@[i]).count == 1,
        ensures
            final(self).max_depth() == old(self).max_depth(),
            final(self).reliable() == old(self).reliable(),
            r is Ok ==> final(self).flushed(),
            r is Err ==> final(self)@ == old(self)@,
            match r {
                Ok(root) => plant_yields::<HasherType>(
                    old(self).pending(),
                    ref_models(tree_refs@),
                    Ok((root@, final(self)@)),
                ),
                Err(e) => (plant_yields::<HasherType>(
                    old(self).pending(),
                    ref_models(tree_refs@),
                    Err(e),
                ) && final(self).pending() == old(self).pending()) || (e
                    == Exception::StoreFailure && !old(self).reliable()),
            },
    {
        let ghost given = ref_models(tree_refs@);
        let ghost store = self.pending();
        let mut tree_refs = tree_refs;
        if tree_refs.len() == 1 {
            match self.db.batch_write() {
                Ok(()) => {},
                Err(e) => {
                    return Err(e);
                },
            }
            proof {
                assert(ref_keys(given).len() == 1);
                assert(key_sorted_perm(given, given));
            }
            return Ok(tree_refs[0].location);
        }
        sort_tree_refs(&mut tree_refs);
        let ghost refs = ref_models(tree_refs@);
        let ghost splits = split_bits(refs);
        proof {
            assert(ref_keys(refs) =~= Seq::new(tree_refs@.len(), |i: int| tree_refs@[i].key@));
            assert(key_sorted_perm(refs, given));
            refs.to_multiset_ensures();
            given.to_multiset_ensures();
            assert forall|x: int| 0 <= x < refs.len() implies (#[trigger] refs[x]).count == 1 by {
                assert(refs.contains(refs[x]));
                assert(given.to_multiset().count(refs[x]) > 0);
                assert(given.contains(refs[x]));
                let k = choose|k: int| 0 <= k < given.len() && given[k] == refs[x];
            }
        }
        let levels = match Self::generate_tree_ref_queue(&tree_refs) {
            Ok(levels) => levels,
            Err(e) => {
                return Err(e);
            },
        };
        proof {
            lemma_slots_initial::<HasherType>(refs, splits);
        }
        let none: Vec<usize> = Vec::new();
        let mut bit: usize = 256;
        while bit > 0
            invariant
                bit <= 256,
                none@.len() == 0,
                buildable(refs, splits),
                worklists(levels@, splits),
                slots_ok::<HasherType>(refs, splits, ref_models(tree_refs@), bit as int - 1, 0),
                self@ == old(self)@,
                self.pending() == built::<HasherType>(
                    store,
                    refs,
                    splits,
                    order_down_to(splits, bit as int),
                ),
                self.max_depth() == old(self).max_depth(),
                self.reliable() == old(self).reliable(),
            decreases bit,
        {
            bit = bit - 1;
            let ghost order = order_down_to(splits, bit as int + 1);
            let split_index = bit as u8;
            let level = match levels.get(&split_index) {
                Some(level) => level,
                None => &none,
            };
            assert(as_ints(level@) =~= worklist(levels@, split_index));
            match self.merge_nodes(
                &mut tree_refs,
                level,
                split_index,
                Ghost(refs),
                Ghost(splits),
                Ghost(store),
                Ghost(order),
            ) {
                Ok(()) => {},
                Err(e) => {
                    return Err(e);
                },
            }
            proof {
                lemma_same_done::<HasherType>(
                    refs,
                    splits,
                    ref_models(tree_refs@),
                    bit as int,
                    splits.len() as int,
                    bit as int - 1,
                    0,
                );
            }
        }
        match self.db.batch_write() {
            Ok(()) => {},
            Err(e) => {
                return Err(e);
            },
        }
        let last = tree_refs.len() - 1;
        proof {
            let slots = ref_models(tree_refs@);
            assert(crate::model::merge::slot_ok::<HasherType>(refs, splits, slots, -1, 0, last as int));
            crate::model::merge::lemma_run_start_is(splits, -1, 0, last as int, 0);
            assert(slots[last as int] == tree_refs@[last as int]@);
        }
        Ok(tree_refs[last].location)
    }

    /// Insert items into the `MerkleBIT`. Sorts `keys` and returns the
    /// address of the root of the new tree, which holds the items and
    /// what the tree at `previous_root` held under other keys.
    pub fn insert<'a>(
        &mut self,
        previous_root: Option<&[u8; KEY_LEN]>,
        keys: &mut [&'a [u8; KEY_LEN]],
        values: &mut [&ValueType],
    ) -> (r: BinaryMerkleTreeResult<[u8; KEY_LEN]>)
        ensures
            final(self).max_depth() == old(self).max_depth(),
            final(self).reliable() == old(self).reliable(),
            final(values)@ == old(values)@,
            final(keys)@.len() == old(keys)@.len(),
            r is Ok ==> final(self).flushed(),
            r is Err ==> final(self)@ == old(self)@,
            old(keys)@.len() != old(values)@.len() || old(keys)@.len() == 0 ==> r == Err::<
                [u8; KEY_LEN],
                Exception,
            >(Exception::ArgumentMismatch) && final(keys)@ == old(keys)@ && final(self)@ == old(
                self,
            )@ && final(self).pending() == old(self).pending(),
            old(keys)@.len() == old(values)@.len() && old(keys)@.len() > 0 ==> exists|
                pairs: Seq<(Seq<u8>, ValueType::V)>,
            |
                {
                    &&& #[trigger] batch_sorted(pairs, zip_models(old(keys)@, old(values)@))
                    &&& key_views(final(keys)@) == pair_keys(pairs)
                    &&& match r {
                        Ok(root) => insert_yields::<HasherType, ValueType>(
                            old(self)@,
                            old(self).pending(),
                            location_option(previous_root),
                            pairs,
                            old(self).max_depth(),
                            Ok((root@, final(self)@)),
                        ),
                        Err(e) => (insert_yields::<HasherType, ValueType>(
                            old(self)@,
                            old(self).pending(),
                            location_option(previous_root),
                            pairs,
                            old(self).max_depth(),
                            Err(e),
                        ) && final(self).pending() == insert_leaves_behind::<
                            HasherType,
                            ValueType,
                        >(
                            old(self)@,
                            old(self).pending(),
                            location_option(previous_root),
                            pairs,
                            old(self).max_depth(),
                        )) || (e == Exception::StoreFailure && !old(self).reliable()),
                    }
                },
    {
        if keys.len() != values.len() {
            return Err(Exception::ArgumentMismatch);
        }
        if keys.len() == 0 {
            return Err(Exception::ArgumentMismatch);
        }
        let ghost batch = zip_models(keys@, values@);
        let ghost store = self@;
        let ghost waiting = self.pending();
        let ghost max_depth = self.max_depth();
        let mut batch_pairs: Vec<(&'a [u8; KEY_LEN], &ValueType)> = Vec::new();
        let mut i: usize = 0;
        while i < keys.len()
            invariant
                i <= keys@.len(),
                keys@ == old(keys)@,
                values@ == old(values)@,
                keys@.len() == values@.len(),
                batch_pairs@.len() == i,
                forall|j: int|
                    0 <= j < i ==> (#[trigger] batch_pairs@[j]).0 == keys@[j] && batch_pairs@[j].1
                        == values@[j],
            decreases keys@.len() - i,
        {
            batch_pairs.push((keys[i], values[i]));
            i = i + 1;
        }
        proof {
            assert(pair_models(batch_pairs@) =~= batch);
        }
        sort_pairs(&mut batch_pairs);
        let ghost pairs = pair_models(batch_pairs@);
        proof {
            assert(batch_sorted(pairs, batch));
        }
        let mut i: usize = 0;
        while i < keys.len()
            invariant
                i <= keys@.len(),
                keys@.len() == old(keys)@.len(),
                batch_pairs@.len() == keys@.len(),
                forall|j: int| 0 <= j < i ==> (#[trigger] keys@[j]) == batch_pairs@[j].0,
            decreases keys@.len() - i,
        {
            keys[i] = batch_pairs[i].0;
            i = i + 1;
        }
        proof {
            assert(key_views(keys@) =~= pair_keys(pairs));
        }
        let nodes = match self.insert_leaves(&batch_pairs) {
            Ok(nodes) => nodes,
            Err(e) => {
                return Err(e);
            },
        };
        let ghost locations = location_views(nodes@);
        let ghost with_leaves = self.pending();
        let ghost fresh = new_refs(pair_keys(pairs), locations);
        proof {
            lemma_leaves_run_len::<HasherType, ValueType>(store, waiting, pairs);
        }
        let mut tree_refs: Vec<TreeRef> = Vec::new();
        let mut i: usize = 0;
        while i < nodes.len()
            invariant
                i <= nodes@.len(),
                nodes@.len() == keys@.len(),
                key_views(keys@) == pair_keys(pairs),
                locations == location_views(nodes@),
                fresh == new_refs(pair_keys(pairs), locations),
                tree_refs@.len() == i,
                forall|j: int| 0 <= j < i ==> (#[trigger] tree_refs@[j])@ == fresh[j],
            decreases nodes@.len() - i,
        {
            assert(key_views(keys@)[i as int] == keys@[i as int]@);
            tree_refs.push(TreeRef::new(*keys[i], nodes[i], 1, 1));
            i = i + 1;
        }
        proof {
            assert(ref_models(tree_refs@) =~= fresh);
        }
        match previous_root {
            Some(root) => {
                let mut proof_nodes = match self.generate_treerefs(root, keys, &nodes) {
                    Ok(refs) => refs,
                    Err(e) => {
                        return Err(e);
                    },
                };
                let ghost kept = ref_models(proof_nodes@);
                proof {
                    lemma_walk_run_writes(
                        store,
                        with_leaves,
                        seq![
                            CellModel {
                                location: root@,
                                keys: pair_keys(pairs),
                                node: store[root@],
                                depth: 0,
                            },
                        ],
                        Seq::empty(),
                        pair_keys(pairs),
                        locations,
                        max_depth,
                    );
                    lemma_walk_counts(
                        store,
                        with_leaves,
                        root@,
                        pair_keys(pairs),
                        locations,
                        max_depth,
                        kept,
                        self.pending(),
                    );
                }
                tree_refs.append(&mut proof_nodes);
                proof {
                    assert(ref_models(tree_refs@) =~= fresh + kept);
                    assert forall|j: int| 0 <= j < tree_refs@.len() implies (
                    #[trigger] tree_refs@[j]).count == 1 by {
                        assert(ref_models(tree_refs@)[j] == tree_refs@[j]@);
                        if j < fresh.len() {
                            assert((fresh + kept)[j] == fresh[j]);
                        } else {
                            assert((fresh + kept)[j] == kept[j - fresh.len()]);
                            assert(kept[j - fresh.len()].count == 1);
                        }
                    }
                }
            },
            None => {
                proof {
                    assert forall|j: int| 0 <= j < tree_refs@.len() implies (
                    #[trigger] tree_refs@[j]).count == 1 by {
                        assert(ref_models(tree_refs@)[j] == tree_refs@[j]@);
                    }
                }
            },
        }
        self.create_tree(tree_refs)
    }

    /// Gives up one reference to each node of the tree at `root_hash`
    /// and drops the nodes that nothing refers to any more.
    pub fn remove(&mut self, root_hash: &[u8; KEY_LEN]) -> (r: BinaryMerkleTreeResult<()>)
        ensures
            final(self).max_depth() == old(self).max_depth(),
            final(self).reliable() == old(self).reliable(),
            final(self)@.dom().subset_of(addresses(old(self)@, old(self).pending())),
            match r {
                Ok(()) => final(self).flushed() && final(self)@ == collect_run(
                    old(self)@,
                    old(self).pending(),
                    seq![root_hash@],
                ),
                Err(e) => e == Exception::StoreFailure && !old(self).reliable(),
            },
    {
        let mut nodes: VecDeque<[u8; KEY_LEN]> = VecDeque::new();
        nodes.push_back(*root_hash);
        proof {
            assert(location_views(nodes@) =~= seq![root_hash@]);
        }
        while nodes.len() > 0
            invariant
                self.max_depth() == old(self).max_depth(),
                self.reliable() == old(self).reliable(),
                addresses(self@, self.pending()).subset_of(
                    addresses(old(self)@, old(self).pending()),
                ),
                nodes@.len() == 0 ==> self@.dom().finite() && self.pending().dom().finite(),
                collect_run(self@, self.pending(), location_views(nodes@)) == collect_run(
                    old(self)@,
                    old(self).pending(),
                    seq![root_hash@],
                ),
            decreases addresses(self@, self.pending()).len(), nodes@.len(),
        {
            let ghost store = self@;
            let ghost waiting = self.pending();
            let ghost queue_before = location_views(nodes@);
            let node_location = nodes.pop_front().unwrap();
            let ghost rest = location_views(nodes@);
            let ghost step = collect_step(store, waiting, node_location@);
            let found = match self.db.get_node(&node_location) {
                Ok(found) => found,
                Err(e) => {
                    return Err(e);
                },
            };
            proof {
                assert(queue_before[0] == node_location@);
                assert(rest =~= queue_before.drop_first());
                lemma_collect_step(store, waiting, node_location@);
            }
            let node = match found {
                Some(n) => n,
                None => {
                    proof {
                        assert(rest =~= rest + step.pushed);
                    }
                    continue ;
                },
            };
            let mut refs = node.get_references();
            if refs > 0 {
                refs = refs - 1;
            }
            if refs == 0 {
                match &node.node {
                    NodeVariant::Branch(b) => {
                        nodes.push_back(*b.get_zero());
                        nodes.push_back(*b.get_one());
                    },
                    NodeVariant::Leaf(l) => {
                        nodes.push_back(*l.get_data());
                    },
                    NodeVariant::Data(_) => {},
                }
                match self.db.remove(&node_location) {
                    Ok(()) => {},
                    Err(e) => {
                        return Err(e);
                    },
                }
            } else {
                let mut new_node = node;
                new_node.set_references(refs);
                match self.db.insert(node_location, new_node) {
                    Ok(()) => {},
                    Err(e) => {
                        return Err(e);
                    },
                }
            }
            proof {
                assert(location_views(nodes@) =~= rest + step.pushed);
            }
        }
        let ghost waiting = self.pending();
        match self.db.batch_write() {
            Ok(()) => {
                proof {
                    assert(self@.dom().subset_of(addresses(old(self)@, old(self).pending())));
                }
                Ok(())
            },
            Err(e) => Err(e),
        }
    }
}

/// The pairs of the keys and values of a batch as plain values.
pub open spec fn zip_models<V: View>(keys: Seq<&[u8; KEY_LEN]>, values: Seq<&V>) -> Seq<
    (Seq<u8>, V::V),
> {
    Seq::new(keys.len(), |i: int| (keys[i]@, values[i]@))
}

/// The address of a node with the given tag and content.
fn node_address<HasherType: Hasher>(tag: u8, first: &[u8], second: &[u8]) -> (r: [u8; KEY_LEN])
    ensures
        r@ == address::<HasherType>(tag, first@, second@),
{
    let mut hasher = HasherType::new(KEY_LEN);
    let tag_piece: [u8; 1] = [tag];
    hasher.update(tag_piece.as_slice());
    hasher.update(first);
    hasher.update(second);
    proof {
        assert(tag_piece@ =~= seq![tag]);
        assert(hasher.pieces() =~= seq![seq![tag], first@, second@]);
    }
    hasher.finalize()
}

/// The numbers of a list as integers.
pub open spec fn as_ints(numbers: Seq<usize>) -> Seq<int> {
    Seq::new(numbers.len(), |i: int| numbers[i] as int)
}

/// The pairs on the worklist of `bit`: none where the map has no list
/// for that bit.
pub open spec fn worklist(levels: Map<u8, Vec<usize>>, bit: u8) -> Seq<int> {
    if levels.contains_key(bit) {
        as_ints(levels[bit]@)
    } else {
        Seq::empty()
    }
}

/// The worklists of a list of subtrees: for each bit the pairs that part
/// there, from the front.
pub open spec fn worklists(levels: Map<u8, Vec<usize>>, splits: Seq<u8>) -> bool {
    forall|bit: u8| #[trigger]
        worklist(levels, bit) == pairs_at(splits, bit as int, splits.len() as int)
}

/// An address that may be there, as a byte string.
pub open spec fn location_option(location: Option<&[u8; KEY_LEN]>) -> Option<Seq<u8>> {
    match location {
        Some(l) => Some(l@),
        None => None,
    }
}

/// `node` with one more reference.
fn bump(node: TreeNode) -> (r: TreeNode)
    ensures
        r@ == bumped(node@),
{
    let references = node.get_references().saturating_add(1);
    let mut node = node;
    node.set_references(references);
    node
}

} // verus!
