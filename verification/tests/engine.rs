use std::collections::HashMap;
use std::path::PathBuf;

use merkle_bit::constants::KEY_LEN;
use merkle_bit::merkle_bit::MerkleBIT;
use merkle_bit::traits::{Database, Exception, Hasher, NodeVariant};
use merkle_bit::tree::tree_branch::TreeBranch;
use merkle_bit::tree::tree_data::TreeData;
use merkle_bit::tree::tree_hasher::TreeHasher;
use merkle_bit::tree::tree_leaf::TreeLeaf;
use merkle_bit::tree::tree_node::TreeNode;
use merkle_bit::tree_db::hash_db::HashDB;

type Tree = MerkleBIT<HashDB, TreeHasher, Vec<u8>>;

fn new_tree() -> Tree {
    Tree::from_db(HashDB::new(HashMap::new()), 160).unwrap()
}

fn key_of(seed: u8, second: u8) -> [u8; KEY_LEN] {
    let mut key = [0u8; KEY_LEN];
    key[0] = seed;
    key[1] = second;
    key[KEY_LEN - 1] = seed.wrapping_mul(31).wrapping_add(second);
    key
}

fn value_at<'a>(
    entries: &'a [(&[u8; KEY_LEN], Option<Vec<u8>>)],
    key: &[u8; KEY_LEN],
) -> &'a Option<Vec<u8>> {
    let found: Vec<_> = entries.iter().filter(|e| e.0 == key).collect();
    assert_eq!(found.len(), 1);
    &found[0].1
}

#[test]
fn it_reads_back_a_single_pair() {
    let mut tree = new_tree();
    let key = key_of(0xAA, 0);
    let value = vec![0xFFu8];
    let root = tree.insert(None, &mut [&key], &mut [&value]).unwrap();
    let entries = tree.get(&root, &mut [&key]).unwrap();
    assert_eq!(entries.len(), 1);
    assert_eq!(entries[0].0, &key);
    assert_eq!(entries[0].1, Some(vec![0xFFu8]));
}

#[test]
fn it_reads_back_every_pair_of_a_batch() {
    let mut tree = new_tree();
    let keys: Vec<[u8; KEY_LEN]> = (0..200u16).map(|i| key_of((i * 7 % 256) as u8, (i / 3) as u8)).collect();
    let values: Vec<Vec<u8>> = (0..200u16).map(|i| vec![i as u8, (i >> 8) as u8, 7]).collect();
    let mut key_refs: Vec<&[u8; KEY_LEN]> = keys.iter().collect();
    let mut value_refs: Vec<&Vec<u8>> = values.iter().collect();
    let root = tree.insert(None, &mut key_refs, &mut value_refs).unwrap();
    let mut query: Vec<&[u8; KEY_LEN]> = keys.iter().collect();
    let entries = tree.get(&root, &mut query).unwrap();
    assert_eq!(entries.len(), 200);
    for (key, value) in keys.iter().zip(values.iter()) {
        assert_eq!(value_at(&entries, key), &Some(value.clone()));
    }
}

#[test]
fn it_keeps_the_old_values_after_a_second_batch() {
    let mut tree = new_tree();
    let old_keys: Vec<[u8; KEY_LEN]> = (0..50u8).map(|i| key_of(i, 1)).collect();
    let old_values: Vec<Vec<u8>> = (0..50u8).map(|i| vec![i, 1]).collect();
    let new_keys: Vec<[u8; KEY_LEN]> = (0..50u8).map(|i| key_of(i.wrapping_mul(5), 2)).collect();
    let new_values: Vec<Vec<u8>> = (0..50u8).map(|i| vec![i, 2]).collect();
    let mut refs: Vec<&[u8; KEY_LEN]> = old_keys.iter().collect();
    let mut vals: Vec<&Vec<u8>> = old_values.iter().collect();
    let first = tree.insert(None, &mut refs, &mut vals).unwrap();
    let mut refs: Vec<&[u8; KEY_LEN]> = new_keys.iter().collect();
    let mut vals: Vec<&Vec<u8>> = new_values.iter().collect();
    let second = tree.insert(Some(&first), &mut refs, &mut vals).unwrap();
    assert_ne!(first, second);
    let mut query: Vec<&[u8; KEY_LEN]> = old_keys.iter().chain(new_keys.iter()).collect();
    let entries = tree.get(&second, &mut query).unwrap();
    assert_eq!(entries.len(), 100);
    for (key, value) in old_keys.iter().zip(old_values.iter()) {
        assert_eq!(value_at(&entries, key), &Some(value.clone()));
    }
    for (key, value) in new_keys.iter().zip(new_values.iter()) {
        assert_eq!(value_at(&entries, key), &Some(value.clone()));
    }
    let mut query: Vec<&[u8; KEY_LEN]> = old_keys.iter().chain(new_keys.iter()).collect();
    let entries = tree.get(&first, &mut query).unwrap();
    for (key, value) in old_keys.iter().zip(old_values.iter()) {
        assert_eq!(value_at(&entries, key), &Some(value.clone()));
    }
    for key in new_keys.iter() {
        assert_eq!(value_at(&entries, key), &None);
    }
}

#[test]
fn it_rejects_two_identical_keys_in_one_batch() {
    let mut tree = new_tree();
    let key = key_of(1, 2);
    let other = key_of(3, 4);
    let a = vec![1u8];
    let b = vec![2u8];
    let c = vec![3u8];
    let r = tree.insert(None, &mut [&key, &other, &key], &mut [&a, &b, &c]);
    assert_eq!(r, Err(Exception::DuplicateKey));
}

#[test]
fn it_rejects_a_batch_whose_keys_and_values_differ_in_number() {
    let mut tree = new_tree();
    let key = key_of(1, 2);
    let a = vec![1u8];
    let b = vec![2u8];
    assert_eq!(tree.insert(None, &mut [&key], &mut [&a, &b]), Err(Exception::ArgumentMismatch));
    assert_eq!(tree.insert(None, &mut [], &mut []), Err(Exception::ArgumentMismatch));
}

#[test]
fn it_finds_nothing_under_a_root_that_is_not_there() {
    let tree = new_tree();
    let key = key_of(1, 2);
    let other = key_of(3, 4);
    let entries = tree.get(&[0x11; KEY_LEN], &mut [&other, &key, &other]).unwrap();
    assert_eq!(entries.len(), 2);
    assert_eq!(entries[0], (&key, None));
    assert_eq!(entries[1], (&other, None));
}

#[test]
fn it_drops_a_tree_that_nothing_else_refers_to() {
    let mut tree = new_tree();
    let keys: Vec<[u8; KEY_LEN]> = (0..20u8).map(|i| key_of(i, 9)).collect();
    let values: Vec<Vec<u8>> = (0..20u8).map(|i| vec![i]).collect();
    let mut refs: Vec<&[u8; KEY_LEN]> = keys.iter().collect();
    let mut vals: Vec<&Vec<u8>> = values.iter().collect();
    let root = tree.insert(None, &mut refs, &mut vals).unwrap();
    tree.remove(&root).unwrap();
    let mut query: Vec<&[u8; KEY_LEN]> = keys.iter().collect();
    let entries = tree.get(&root, &mut query).unwrap();
    assert_eq!(entries.len(), 20);
    for e in entries.iter() {
        assert_eq!(e.1, None);
    }
}

#[test]
fn it_keeps_what_another_root_shares_after_a_removal() {
    let mut tree = new_tree();
    let old_keys: Vec<[u8; KEY_LEN]> = (0..30u8).map(|i| key_of(i, 1)).collect();
    let old_values: Vec<Vec<u8>> = (0..30u8).map(|i| vec![i, 1]).collect();
    let new_keys: Vec<[u8; KEY_LEN]> = (0..30u8).map(|i| key_of(i.wrapping_mul(9), 2)).collect();
    let new_values: Vec<Vec<u8>> = (0..30u8).map(|i| vec![i, 2]).collect();
    let mut refs: Vec<&[u8; KEY_LEN]> = old_keys.iter().collect();
    let mut vals: Vec<&Vec<u8>> = old_values.iter().collect();
    let first = tree.insert(None, &mut refs, &mut vals).unwrap();
    let mut refs: Vec<&[u8; KEY_LEN]> = new_keys.iter().collect();
    let mut vals: Vec<&Vec<u8>> = new_values.iter().collect();
    let second = tree.insert(Some(&first), &mut refs, &mut vals).unwrap();
    tree.remove(&first).unwrap();
    let mut query: Vec<&[u8; KEY_LEN]> = old_keys.iter().chain(new_keys.iter()).collect();
    let entries = tree.get(&second, &mut query).unwrap();
    for (key, value) in old_keys.iter().zip(old_values.iter()) {
        assert_eq!(value_at(&entries, key), &Some(value.clone()));
    }
    for (key, value) in new_keys.iter().zip(new_values.iter()) {
        assert_eq!(value_at(&entries, key), &Some(value.clone()));
    }
    let mut query: Vec<&[u8; KEY_LEN]> = old_keys.iter().collect();
    let entries = tree.get(&first, &mut query).unwrap();
    for e in entries.iter() {
        assert_eq!(e.1, None);
    }
}

fn sorted_copy(keys: &[[u8; KEY_LEN]]) -> Vec<[u8; KEY_LEN]> {
    let mut sorted = keys.to_vec();
    sorted.sort();
    sorted
}

#[test]
fn it_sorts_the_keys_of_a_lookup() {
    let tree = new_tree();
    let keys = vec![key_of(9, 1), key_of(3, 7), key_of(200, 0), key_of(3, 2), key_of(0, 0)];
    let mut query: Vec<&[u8; KEY_LEN]> = keys.iter().collect();
    let entries = tree.get(&[0; KEY_LEN], &mut query).unwrap();
    let expected = sorted_copy(&keys);
    assert_eq!(query.iter().map(|k| **k).collect::<Vec<_>>(), expected);
    assert_eq!(entries.iter().map(|e| *e.0).collect::<Vec<_>>(), expected);
}

#[test]
fn it_gives_one_entry_for_a_key_that_is_asked_for_twice() {
    let mut tree = new_tree();
    let key = key_of(5, 5);
    let other = key_of(6, 6);
    let value = vec![1u8, 2, 3];
    let root = tree.insert(None, &mut [&key], &mut [&value]).unwrap();
    let entries = tree.get(&root, &mut [&other, &key, &key, &other, &key]).unwrap();
    assert_eq!(entries.len(), 2);
    assert_eq!(entries[0], (&key, Some(vec![1u8, 2, 3])));
    assert_eq!(entries[1], (&other, None));
}

#[test]
fn it_sorts_the_keys_of_an_insertion_and_builds_the_same_tree_in_any_order() {
    let keys = vec![key_of(9, 1), key_of(3, 7), key_of(200, 0), key_of(3, 2), key_of(0, 0)];
    let values: Vec<Vec<u8>> = (0..5u8).map(|i| vec![i; 3]).collect();
    let mut tree = new_tree();
    let mut refs: Vec<&[u8; KEY_LEN]> = keys.iter().collect();
    let mut vals: Vec<&Vec<u8>> = values.iter().collect();
    let root = tree.insert(None, &mut refs, &mut vals).unwrap();
    assert_eq!(refs.iter().map(|k| **k).collect::<Vec<_>>(), sorted_copy(&keys));
    let mut other = new_tree();
    let mut refs: Vec<&[u8; KEY_LEN]> = keys.iter().rev().collect();
    let mut vals: Vec<&Vec<u8>> = values.iter().rev().collect();
    let other_root = other.insert(None, &mut refs, &mut vals).unwrap();
    assert_eq!(root, other_root);
    let mut query: Vec<&[u8; KEY_LEN]> = keys.iter().collect();
    let entries = other.get(&other_root, &mut query).unwrap();
    for (key, value) in keys.iter().zip(values.iter()) {
        assert_eq!(value_at(&entries, key), &Some(value.clone()));
    }
}

#[test]
fn the_root_of_a_single_pair_is_its_leaf() {
    let mut tree = new_tree();
    let key = key_of(1, 1);
    let value = vec![7u8, 7];
    let root = tree.insert(None, &mut [&key], &mut [&value]).unwrap();
    assert_eq!(tree.db().len(), 2);
    let leaf = tree.db().get_node(&root).unwrap().unwrap();
    assert_eq!(leaf.references, 1);
    match leaf.node {
        NodeVariant::Leaf(l) => {
            assert_eq!(l.key, key);
            let data = tree.db().get_node(&l.data).unwrap().unwrap();
            assert_eq!(data.references, 1);
            match data.node {
                NodeVariant::Data(d) => assert_eq!(d.value, vec![7u8, 7]),
                _ => panic!("the leaf must point at a data node"),
            }
        }
        _ => panic!("the root must be a leaf"),
    }
}

#[test]
fn a_branch_joins_two_leaves_at_the_bit_where_their_keys_part() {
    let mut tree = new_tree();
    let mut low = [0u8; KEY_LEN];
    low[2] = 0x04;
    let mut high = [0u8; KEY_LEN];
    high[2] = 0x06;
    let a = vec![1u8];
    let b = vec![2u8];
    let root = tree.insert(None, &mut [&high, &low], &mut [&b, &a]).unwrap();
    assert_eq!(tree.db().len(), 5);
    let node = tree.db().get_node(&root).unwrap().unwrap();
    assert_eq!(node.references, 1);
    match node.node {
        NodeVariant::Branch(branch) => {
            assert_eq!(branch.split_index, 22);
            assert_eq!(branch.count, 2);
            assert_eq!(branch.key, low);
            match tree.db().get_node(&branch.zero).unwrap().unwrap().node {
                NodeVariant::Leaf(l) => assert_eq!(l.key, low),
                _ => panic!("the zero side must be a leaf"),
            }
            match tree.db().get_node(&branch.one).unwrap().unwrap().node {
                NodeVariant::Leaf(l) => assert_eq!(l.key, high),
                _ => panic!("the one side must be a leaf"),
            }
        }
        _ => panic!("the root must be a branch"),
    }
}

#[test]
fn inserting_the_same_pair_again_counts_references_and_adds_no_node() {
    let mut tree = new_tree();
    let key = key_of(4, 4);
    let value = vec![9u8; 10];
    let first = tree.insert(None, &mut [&key], &mut [&value]).unwrap();
    assert_eq!(tree.db().len(), 2);
    let second = tree.insert(Some(&first), &mut [&key], &mut [&value]).unwrap();
    assert_eq!(first, second);
    assert_eq!(tree.db().len(), 2);
    let leaf = tree.db().get_node(&first).unwrap().unwrap();
    assert_eq!(leaf.references, 2);
    let data_address = match &leaf.node {
        NodeVariant::Leaf(l) => l.data,
        _ => panic!("the root must be a leaf"),
    };
    assert_eq!(tree.db().get_node(&data_address).unwrap().unwrap().references, 2);
    let third = tree.insert(None, &mut [&key], &mut [&value]).unwrap();
    assert_eq!(first, third);
    assert_eq!(tree.db().len(), 2);
    assert_eq!(tree.db().get_node(&first).unwrap().unwrap().references, 3);
    assert_eq!(tree.db().get_node(&data_address).unwrap().unwrap().references, 3);
}

#[test]
fn inserting_a_batch_again_adds_no_leaf_and_no_data_node() {
    let mut tree = new_tree();
    let keys: Vec<[u8; KEY_LEN]> = (0..10u8).map(|i| key_of(i, 3)).collect();
    let values: Vec<Vec<u8>> = (0..10u8).map(|i| vec![i]).collect();
    let mut refs: Vec<&[u8; KEY_LEN]> = keys.iter().collect();
    let mut vals: Vec<&Vec<u8>> = values.iter().collect();
    let first = tree.insert(None, &mut refs, &mut vals).unwrap();
    let nodes = tree.db().len();
    assert_eq!(nodes, 10 + 10 + 9);
    let second = tree.insert(Some(&first), &mut refs, &mut vals).unwrap();
    assert_eq!(first, second);
    assert_eq!(tree.db().len(), nodes);
    match tree.db().get_node(&first).unwrap().unwrap().node {
        NodeVariant::Branch(b) => assert_eq!(b.count, 10),
        _ => panic!("the root must be a branch"),
    }
}

#[test]
fn a_removal_gives_up_one_reference_at_a_time() {
    let mut tree = new_tree();
    let key = key_of(4, 4);
    let value = vec![9u8; 10];
    let root = tree.insert(None, &mut [&key], &mut [&value]).unwrap();
    tree.insert(None, &mut [&key], &mut [&value]).unwrap();
    assert_eq!(tree.db().get_node(&root).unwrap().unwrap().references, 2);
    tree.remove(&root).unwrap();
    assert_eq!(tree.db().len(), 2);
    assert_eq!(tree.db().get_node(&root).unwrap().unwrap().references, 1);
    assert_eq!(tree.get(&root, &mut [&key]).unwrap()[0].1, Some(vec![9u8; 10]));
    tree.remove(&root).unwrap();
    assert_eq!(tree.db().len(), 1);
    assert_eq!(tree.get(&root, &mut [&key]).unwrap()[0].1, None);
    tree.remove(&root).unwrap();
    assert_eq!(tree.db().len(), 1);
}

#[test]
fn a_removal_drops_every_node_of_a_tree_that_stands_alone() {
    let mut tree = new_tree();
    let keys: Vec<[u8; KEY_LEN]> = (0..40u8).map(|i| key_of(i.wrapping_mul(13), i)).collect();
    let values: Vec<Vec<u8>> = (0..40u8).map(|i| vec![i]).collect();
    let mut refs: Vec<&[u8; KEY_LEN]> = keys.iter().collect();
    let mut vals: Vec<&Vec<u8>> = values.iter().collect();
    let root = tree.insert(None, &mut refs, &mut vals).unwrap();
    assert_eq!(tree.db().len(), 40 + 40 + 39);
    tree.remove(&root).unwrap();
    assert_eq!(tree.db().len(), 0);
    tree.remove(&root).unwrap();
    assert_eq!(tree.db().len(), 0);
}

#[test]
fn a_lookup_deeper_than_the_maximum_depth_fails() {
    let mut tree = Tree::from_db(HashDB::new(HashMap::new()), 0).unwrap();
    let low = key_of(0, 1);
    let high = key_of(0x80, 1);
    let a = vec![1u8];
    let b = vec![2u8];
    let root = tree.insert(None, &mut [&low, &high], &mut [&a, &b]).unwrap();
    assert_eq!(tree.get(&root, &mut [&low]), Err(Exception::DepthExceeded));
    let c = vec![3u8];
    let other = key_of(0x40, 1);
    assert_eq!(tree.insert(Some(&root), &mut [&other], &mut [&c]), Err(Exception::DepthExceeded));
}

#[test]
fn a_lookup_in_a_tree_that_runs_in_a_circle_fails_at_the_maximum_depth() {
    let mut db = HashDB::new(HashMap::new());
    let address = [0x33u8; KEY_LEN];
    let branch = TreeBranch {
        count: 2,
        zero: address,
        one: address,
        split_index: 255,
        key: [0u8; KEY_LEN],
    };
    db.insert(address, TreeNode { references: 1, node: NodeVariant::Branch(branch) }).unwrap();
    db.batch_write().unwrap();
    let mut tree = Tree::from_db(db, 12).unwrap();
    let zero = [0u8; KEY_LEN];
    let mut one = [0u8; KEY_LEN];
    one[KEY_LEN - 1] = 1;
    assert_eq!(tree.get(&address, &mut [&zero, &one]), Err(Exception::DepthExceeded));
    let value = vec![1u8];
    assert_eq!(
        tree.insert(Some(&address), &mut [&one], &mut [&value]),
        Err(Exception::DepthExceeded)
    );
}

#[test]
fn a_removal_of_a_tree_that_runs_in_a_circle_comes_to_an_end() {
    let mut db = HashDB::new(HashMap::new());
    let address = [0x33u8; KEY_LEN];
    let branch = TreeBranch {
        count: 2,
        zero: address,
        one: address,
        split_index: 255,
        key: [0u8; KEY_LEN],
    };
    db.insert(address, TreeNode { references: 2, node: NodeVariant::Branch(branch) }).unwrap();
    db.batch_write().unwrap();
    let mut tree = Tree::from_db(db, 12).unwrap();
    tree.remove(&address).unwrap();
    assert_eq!(tree.db().len(), 1);
    assert_eq!(tree.db().get_node(&address).unwrap().unwrap().references, 1);
    tree.remove(&address).unwrap();
    assert_eq!(tree.db().len(), 0);
}

#[test]
fn a_data_node_in_the_place_of_a_root_is_a_corrupt_tree() {
    let mut db = HashDB::new(HashMap::new());
    let address = [0x44u8; KEY_LEN];
    let data = TreeData { value: vec![1, 2, 3] };
    db.insert(address, TreeNode { references: 1, node: NodeVariant::Data(data) }).unwrap();
    db.batch_write().unwrap();
    let mut tree = Tree::from_db(db, 12).unwrap();
    let key = key_of(1, 1);
    assert_eq!(tree.get(&address, &mut [&key]), Err(Exception::CorruptTree));
    let value = vec![1u8];
    assert_eq!(
        tree.insert(Some(&address), &mut [&key], &mut [&value]),
        Err(Exception::CorruptTree)
    );
}

#[test]
fn a_leaf_without_its_data_node_is_a_corrupt_tree() {
    let mut db = HashDB::new(HashMap::new());
    let address = [0x55u8; KEY_LEN];
    let key = key_of(1, 1);
    let leaf = TreeLeaf { key, data: [0x66u8; KEY_LEN] };
    db.insert(address, TreeNode { references: 1, node: NodeVariant::Leaf(leaf) }).unwrap();
    db.batch_write().unwrap();
    let tree = Tree::from_db(db, 12).unwrap();
    assert_eq!(tree.get(&address, &mut [&key]), Err(Exception::CorruptTree));
}

#[test]
fn an_insertion_on_a_root_that_is_not_there_is_a_corrupt_tree() {
    let mut tree = new_tree();
    let key = key_of(1, 1);
    let value = vec![1u8];
    assert_eq!(
        tree.insert(Some(&[0x77u8; KEY_LEN]), &mut [&key], &mut [&value]),
        Err(Exception::CorruptTree)
    );
}

#[test]
fn a_value_that_cannot_be_decoded_is_a_codec_failure() {
    let mut bytes = Tree::from_db(HashDB::new(HashMap::new()), 12).unwrap();
    let key = key_of(1, 1);
    let short = vec![1u8, 2, 3];
    let root = bytes.insert(None, &mut [&key], &mut [&short]).unwrap();
    let leaf = bytes.db().get_node(&root).unwrap().unwrap();
    let data_address = match &leaf.node {
        NodeVariant::Leaf(l) => l.data,
        _ => panic!("the root must be a leaf"),
    };
    let data = bytes.db().get_node(&data_address).unwrap().unwrap();
    let mut db = HashDB::new(HashMap::new());
    db.insert(root, leaf).unwrap();
    db.insert(data_address, data).unwrap();
    db.batch_write().unwrap();
    let numbers: MerkleBIT<HashDB, TreeHasher, u64> = MerkleBIT::from_db(db, 12).unwrap();
    assert_eq!(numbers.get(&root, &mut [&key]), Err(Exception::CodecFailure));
}

#[test]
fn numbers_are_read_back_as_they_were_inserted() {
    let mut tree: MerkleBIT<HashDB, TreeHasher, u64> =
        MerkleBIT::from_db(HashDB::new(HashMap::new()), 160).unwrap();
    let keys: Vec<[u8; KEY_LEN]> = (0..16u8).map(|i| key_of(i, i)).collect();
    let values: Vec<u64> = (0..16u64).map(|i| i.wrapping_mul(0x0123_4567_89AB_CDEF)).collect();
    let mut refs: Vec<&[u8; KEY_LEN]> = keys.iter().collect();
    let mut vals: Vec<&u64> = values.iter().collect();
    let root = tree.insert(None, &mut refs, &mut vals).unwrap();
    let mut query: Vec<&[u8; KEY_LEN]> = keys.iter().collect();
    let entries = tree.get(&root, &mut query).unwrap();
    for (i, entry) in entries.iter().enumerate() {
        assert_eq!(entry.0, &keys[i]);
        assert_eq!(entry.1, Some(values[i]));
    }
}

#[test]
fn a_new_value_under_an_old_key_takes_the_place_of_the_old_value() {
    let mut tree = new_tree();
    let keys: Vec<[u8; KEY_LEN]> = (0..8u8).map(|i| key_of(i, 0)).collect();
    let values: Vec<Vec<u8>> = (0..8u8).map(|i| vec![i]).collect();
    let mut refs: Vec<&[u8; KEY_LEN]> = keys.iter().collect();
    let mut vals: Vec<&Vec<u8>> = values.iter().collect();
    let first = tree.insert(None, &mut refs, &mut vals).unwrap();
    let changed = vec![0xEEu8, 0xFF];
    let second = tree.insert(Some(&first), &mut [&keys[3]], &mut [&changed]).unwrap();
    let mut query: Vec<&[u8; KEY_LEN]> = keys.iter().collect();
    let entries = tree.get(&second, &mut query).unwrap();
    for (i, key) in keys.iter().enumerate() {
        if i == 3 {
            assert_eq!(value_at(&entries, key), &Some(changed.clone()));
        } else {
            assert_eq!(value_at(&entries, key), &Some(values[i].clone()));
        }
    }
    let mut query: Vec<&[u8; KEY_LEN]> = keys.iter().collect();
    let entries = tree.get(&first, &mut query).unwrap();
    assert_eq!(value_at(&entries, &keys[3]), &Some(values[3].clone()));
}

#[test]
fn a_new_tree_opens_an_empty_store() {
    let mut tree = Tree::new(&PathBuf::from("unused"), 160).unwrap();
    assert_eq!(tree.db().len(), 0);
    let key = key_of(1, 1);
    let value = vec![1u8];
    let root = tree.insert(None, &mut [&key], &mut [&value]).unwrap();
    assert_eq!(tree.get(&root, &mut [&key]).unwrap()[0].1, Some(vec![1u8]));
}

fn digest_of(tag: u8, first: &[u8], second: &[u8]) -> [u8; KEY_LEN] {
    let mut hasher = <TreeHasher as Hasher>::new(KEY_LEN);
    Hasher::update(&mut hasher, &[tag]);
    Hasher::update(&mut hasher, first);
    Hasher::update(&mut hasher, second);
    Hasher::finalize(hasher)
}

#[test]
fn the_addresses_are_the_digests_of_tag_and_content() {
    let mut tree = new_tree();
    let low = key_of(1, 0);
    let high = key_of(0x81, 0);
    let a = vec![1u8, 2, 3];
    let b = vec![4u8];
    let root = tree.insert(None, &mut [&low, &high], &mut [&a, &b]).unwrap();
    let low_data = digest_of(b'd', &low, &a);
    let low_leaf = digest_of(b'l', &low, &low_data);
    let high_data = digest_of(b'd', &high, &b);
    let high_leaf = digest_of(b'l', &high, &high_data);
    assert_eq!(root, digest_of(b'b', &low_leaf, &high_leaf));
    assert!(tree.db().get_node(&low_data).unwrap().is_some());
    assert!(tree.db().get_node(&high_data).unwrap().is_some());
    match tree.db().get_node(&root).unwrap().unwrap().node {
        NodeVariant::Branch(branch) => {
            assert_eq!(branch.zero, low_leaf);
            assert_eq!(branch.one, high_leaf);
            assert_eq!(branch.split_index, 0);
        }
        _ => panic!("the root must be a branch"),
    }
}

#[test]
fn the_largest_depth_is_taken_as_a_depth() {
    let mut tree = Tree::from_db(HashDB::new(HashMap::new()), usize::MAX).unwrap();
    let keys: Vec<[u8; KEY_LEN]> = (0..12u8).map(|i| key_of(i, i)).collect();
    let values: Vec<Vec<u8>> = (0..12u8).map(|i| vec![i]).collect();
    let mut refs: Vec<&[u8; KEY_LEN]> = keys.iter().collect();
    let mut vals: Vec<&Vec<u8>> = values.iter().collect();
    let root = tree.insert(None, &mut refs, &mut vals).unwrap();
    let entries = tree.get(&root, &mut refs).unwrap();
    for (i, entry) in entries.iter().enumerate() {
        assert_eq!(entry.1, Some(values[i].clone()));
    }
}

#[test]
fn many_batches_on_top_of_each_other_keep_every_value() {
    let mut tree = new_tree();
    let mut root: Option<[u8; KEY_LEN]> = None;
    let mut all: Vec<([u8; KEY_LEN], Vec<u8>)> = Vec::new();
    for round in 0..12u8 {
        let keys: Vec<[u8; KEY_LEN]> =
            (0..17u8).map(|i| key_of(i.wrapping_mul(29).wrapping_add(round), round)).collect();
        let values: Vec<Vec<u8>> = (0..17u8).map(|i| vec![round, i]).collect();
        let mut refs: Vec<&[u8; KEY_LEN]> = keys.iter().collect();
        let mut vals: Vec<&Vec<u8>> = values.iter().collect();
        let next = tree.insert(root.as_ref(), &mut refs, &mut vals).unwrap();
        root = Some(next);
        all.extend(keys.into_iter().zip(values.into_iter()));
        let mut query: Vec<&[u8; KEY_LEN]> = all.iter().map(|p| &p.0).collect();
        let entries = tree.get(&next, &mut query).unwrap();
        assert_eq!(entries.len(), all.len());
        for (key, value) in all.iter() {
            assert_eq!(value_at(&entries, key), &Some(value.clone()));
        }
    }
}

#[test]
fn a_failed_insertion_publishes_nothing() {
    let mut tree = new_tree();
    let key = key_of(1, 2);
    let other = key_of(3, 4);
    let a = vec![1u8];
    let b = vec![2u8];
    let c = vec![3u8];
    let r = tree.insert(None, &mut [&key, &other, &key], &mut [&a, &b, &c]);
    assert_eq!(r, Err(Exception::DuplicateKey));
    assert_eq!(tree.db().len(), 0);
    let missing = tree.insert(Some(&[0x77u8; KEY_LEN]), &mut [&key], &mut [&a]);
    assert_eq!(missing, Err(Exception::CorruptTree));
    assert_eq!(tree.db().len(), 0);
    let root = tree.insert(None, &mut [&other], &mut [&b]).unwrap();
    assert_eq!(tree.get(&root, &mut [&other]).unwrap()[0].1, Some(vec![2u8]));
}

#[test]
fn a_lookup_of_no_keys_gives_no_entries() {
    let tree = new_tree();
    let entries = tree.get(&[5u8; KEY_LEN], &mut []).unwrap();
    assert_eq!(entries.len(), 0);
}

#[test]
fn the_leaves_of_a_failed_insertion_wait_for_the_next_one() {
    let key = key_of(1, 2);
    let other = key_of(3, 4);
    let a = vec![1u8];
    let b = vec![2u8];
    let mut first = new_tree();
    let leaf = first.insert(None, &mut [&key], &mut [&a]).unwrap();
    let mut tree = new_tree();
    let missing = tree.insert(Some(&[0x77u8; KEY_LEN]), &mut [&key], &mut [&a]);
    assert_eq!(missing, Err(Exception::CorruptTree));
    assert_eq!(tree.db().get_node(&leaf), Ok(None));
    tree.insert(None, &mut [&other], &mut [&b]).unwrap();
    let waiting = tree.db().get_node(&leaf).unwrap().unwrap();
    assert_eq!(waiting.get_references(), 1);
    assert_eq!(tree.db().len(), 4);
    assert_eq!(tree.get(&leaf, &mut [&key]).unwrap()[0].1, Some(vec![1u8]));
}

#[test]
fn it_keeps_the_earlier_tree_when_the_later_one_is_removed() {
    let mut tree = new_tree();
    let old_keys: Vec<[u8; KEY_LEN]> = (0..30u8).map(|i| key_of(i, 1)).collect();
    let old_values: Vec<Vec<u8>> = (0..30u8).map(|i| vec![i, 1]).collect();
    let new_keys: Vec<[u8; KEY_LEN]> = (0..30u8).map(|i| key_of(i.wrapping_mul(9), 2)).collect();
    let new_values: Vec<Vec<u8>> = (0..30u8).map(|i| vec![i, 2]).collect();
    let mut refs: Vec<&[u8; KEY_LEN]> = old_keys.iter().collect();
    let mut vals: Vec<&Vec<u8>> = old_values.iter().collect();
    let first = tree.insert(None, &mut refs, &mut vals).unwrap();
    let nodes_of_first = tree.db().len();
    let mut refs: Vec<&[u8; KEY_LEN]> = new_keys.iter().collect();
    let mut vals: Vec<&Vec<u8>> = new_values.iter().collect();
    let second = tree.insert(Some(&first), &mut refs, &mut vals).unwrap();
    tree.remove(&second).unwrap();
    assert_eq!(tree.db().len(), nodes_of_first);
    let mut query: Vec<&[u8; KEY_LEN]> = old_keys.iter().chain(new_keys.iter()).collect();
    let entries = tree.get(&first, &mut query).unwrap();
    for (key, value) in old_keys.iter().zip(old_values.iter()) {
        assert_eq!(value_at(&entries, key), &Some(value.clone()));
    }
    for key in new_keys.iter() {
        assert_eq!(value_at(&entries, key), &None);
    }
    let mut query: Vec<&[u8; KEY_LEN]> = new_keys.iter().collect();
    let entries = tree.get(&second, &mut query).unwrap();
    for e in entries.iter() {
        assert_eq!(e.1, None);
    }
}
