use std::collections::HashMap;
use std::path::PathBuf;

use merkle_bit::constants::KEY_LEN;
use merkle_bit::traits::{Codec, Database, Decode, Encode, Exception, Hasher, NodeVariant};
use merkle_bit::tree::tree_branch::TreeBranch;
use merkle_bit::tree::tree_data::TreeData;
use merkle_bit::tree::tree_hasher::TreeHasher;
use merkle_bit::tree::tree_leaf::TreeLeaf;
use merkle_bit::tree::tree_node::TreeNode;
use merkle_bit::tree_db::hash_db::{from_record, to_record, HashDB};
use merkle_bit::utils::tree_cell::TreeCell;
use merkle_bit::utils::tree_ref::TreeRef;

fn needs_codec<T: Codec>() {}

#[test]
fn a_new_node_has_no_references() {
    let node = TreeNode::new(NodeVariant::Data(TreeData::new()));
    assert_eq!(node.get_references(), 0);
    assert_eq!(node.get_variant(), NodeVariant::Data(TreeData { value: vec![] }));
}

#[test]
fn a_node_takes_a_new_count_and_a_new_record() {
    let mut node = TreeNode::new(NodeVariant::Data(TreeData::new()));
    node.set_references(17);
    assert_eq!(node.get_references(), 17);
    let mut leaf = TreeLeaf::new();
    leaf.set_key([1; KEY_LEN]);
    leaf.set_data([2; KEY_LEN]);
    node.set_leaf(leaf);
    assert_eq!(node.get_references(), 17);
    assert_eq!(node.node, NodeVariant::Leaf(TreeLeaf { key: [1; KEY_LEN], data: [2; KEY_LEN] }));
    let mut branch = TreeBranch::new();
    branch.set_count(5);
    branch.set_zero([3; KEY_LEN]);
    branch.set_one([4; KEY_LEN]);
    branch.set_split_index(77);
    branch.set_key([5; KEY_LEN]);
    node.set_branch(branch);
    assert_eq!(
        node.node,
        NodeVariant::Branch(TreeBranch {
            count: 5,
            zero: [3; KEY_LEN],
            one: [4; KEY_LEN],
            split_index: 77,
            key: [5; KEY_LEN],
        })
    );
    let mut data = TreeData::new();
    data.set_value(&[9, 8, 7]);
    node.set_data(data);
    assert_eq!(node.node, NodeVariant::Data(TreeData { value: vec![9, 8, 7] }));
    let copy = node.duplicate();
    assert_eq!(copy, node);
}

#[test]
fn the_records_give_back_their_fields() {
    let branch = TreeBranch {
        count: 5,
        zero: [3; KEY_LEN],
        one: [4; KEY_LEN],
        split_index: 77,
        key: [5; KEY_LEN],
    };
    assert_eq!(branch.get_count(), 5);
    assert_eq!(branch.get_zero(), &[3; KEY_LEN]);
    assert_eq!(branch.get_one(), &[4; KEY_LEN]);
    assert_eq!(branch.get_split_index(), 77);
    assert_eq!(branch.get_key(), &[5; KEY_LEN]);
    assert_eq!(branch.deconstruct(), (5, [3; KEY_LEN], [4; KEY_LEN], 77, [5; KEY_LEN]));
    let fresh = TreeBranch::new();
    assert_eq!(fresh.deconstruct(), (0, [0; KEY_LEN], [0; KEY_LEN], 0, [0; KEY_LEN]));
    let leaf = TreeLeaf { key: [1; KEY_LEN], data: [2; KEY_LEN] };
    assert_eq!(leaf.get_key(), &[1; KEY_LEN]);
    assert_eq!(leaf.get_data(), &[2; KEY_LEN]);
    assert_eq!(leaf.deconstruct(), ([1; KEY_LEN], [2; KEY_LEN]));
    let data = TreeData { value: vec![1, 2] };
    assert_eq!(data.get_value(), &[1, 2]);
    assert_eq!(data.duplicate(), data);
    let tree_ref = TreeRef::new([1; KEY_LEN], [2; KEY_LEN], 3, 4);
    assert_eq!(
        tree_ref,
        TreeRef { key: [1; KEY_LEN], location: [2; KEY_LEN], node_count: 3, count: 4 }
    );
    let key = [7u8; KEY_LEN];
    let keys = [&key];
    let cell = TreeCell::new([9; KEY_LEN], &keys, TreeNode::new(NodeVariant::Leaf(leaf)), 3);
    assert_eq!(cell.location, [9; KEY_LEN]);
    assert_eq!(cell.keys.len(), 1);
    assert_eq!(cell.depth, 3);
    assert_eq!(cell.node.references, 0);
}

#[test]
fn the_store_shows_a_node_once_it_is_published() {
    let mut db = HashDB::new(HashMap::new());
    assert_eq!(db.len(), 0);
    let a = [1u8; KEY_LEN];
    let b = [2u8; KEY_LEN];
    assert_eq!(db.get_node(&a), Ok(None));
    let mut node = TreeNode::new(NodeVariant::Data(TreeData { value: vec![1] }));
    db.insert(a, node.duplicate()).unwrap();
    assert_eq!(db.get_node(&a), Ok(None));
    assert_eq!(db.len(), 0);
    db.batch_write().unwrap();
    assert_eq!(db.len(), 1);
    assert_eq!(db.get_node(&a), Ok(Some(node.duplicate())));
    assert_eq!(db.get_node(&b), Ok(None));
    node.set_references(4);
    db.insert(a, node.duplicate()).unwrap();
    db.insert(b, TreeNode::new(NodeVariant::Leaf(TreeLeaf::new()))).unwrap();
    assert_eq!(db.get_node(&a).unwrap().unwrap().references, 0);
    assert_eq!(db.get_node(&b), Ok(None));
    db.batch_write().unwrap();
    assert_eq!(db.len(), 2);
    assert_eq!(db.get_node(&a).unwrap().unwrap().references, 4);
    assert_eq!(db.get_node(&b), Ok(Some(TreeNode::new(NodeVariant::Leaf(TreeLeaf::new())))));
}

#[test]
fn a_removal_from_the_store_publishes_what_is_pending() {
    let mut db = HashDB::new(HashMap::new());
    let a = [1u8; KEY_LEN];
    let b = [2u8; KEY_LEN];
    let c = [3u8; KEY_LEN];
    let node = TreeNode::new(NodeVariant::Data(TreeData { value: vec![7, 8] }));
    db.insert(a, node.duplicate()).unwrap();
    db.insert(b, node.duplicate()).unwrap();
    db.remove(&c).unwrap();
    assert_eq!(db.len(), 2);
    db.insert(c, node.duplicate()).unwrap();
    db.remove(&a).unwrap();
    assert_eq!(db.len(), 2);
    assert_eq!(db.get_node(&a), Ok(None));
    assert_eq!(db.get_node(&b), Ok(Some(node.duplicate())));
    assert_eq!(db.get_node(&c), Ok(Some(node.duplicate())));
    db.remove(&a).unwrap();
    assert_eq!(db.len(), 2);
}

#[test]
fn a_record_stands_for_its_node() {
    let branch = TreeNode {
        references: 9,
        node: NodeVariant::Branch(TreeBranch {
            count: 5,
            zero: [3; KEY_LEN],
            one: [4; KEY_LEN],
            split_index: 77,
            key: [5; KEY_LEN],
        }),
    };
    let leaf = TreeNode {
        references: 2,
        node: NodeVariant::Leaf(TreeLeaf { key: [1; KEY_LEN], data: [2; KEY_LEN] }),
    };
    let data = TreeNode { references: 1, node: NodeVariant::Data(TreeData { value: vec![6, 7] }) };
    assert_eq!(to_record(branch.duplicate()).1, 0);
    assert_eq!(to_record(leaf.duplicate()).1, 1);
    assert_eq!(to_record(data.duplicate()).7, vec![6u8, 7]);
    assert_eq!(from_record(to_record(branch.duplicate())), branch);
    assert_eq!(from_record(to_record(leaf.duplicate())), leaf);
    assert_eq!(from_record(to_record(data.duplicate())), data);
}

#[test]
fn the_default_hasher_fills_eight_bytes_and_depends_on_every_piece() {
    let digest = |pieces: &[&[u8]]| {
        let mut hasher = <TreeHasher as Hasher>::new(KEY_LEN);
        for piece in pieces {
            Hasher::update(&mut hasher, piece);
        }
        Hasher::finalize(hasher)
    };
    let first = digest(&[b"l", &[1, 2, 3]]);
    assert_eq!(first, digest(&[b"l", &[1, 2, 3]]));
    assert_ne!(first, digest(&[b"d", &[1, 2, 3]]));
    assert_ne!(first, digest(&[b"l", &[1, 2, 4]]));
    assert_eq!(&first[8..], &[0u8; KEY_LEN - 8][..]);
    assert_ne!(&first[..8], &[0u8; 8][..]);
}

#[test]
fn bytes_and_numbers_are_encoded_and_decoded() {
    needs_codec::<Vec<u8>>();
    needs_codec::<u64>();
    let bytes = vec![1u8, 2, 3];
    assert_eq!(bytes.encode(), Ok(vec![1u8, 2, 3]));
    assert_eq!(<Vec<u8> as Decode>::decode(&[4, 5]), Ok(vec![4u8, 5]));
    let number: u64 = 0x0102_0304_0506_0708;
    assert_eq!(number.encode(), Ok(vec![8u8, 7, 6, 5, 4, 3, 2, 1]));
    assert_eq!(<u64 as Decode>::decode(&[8, 7, 6, 5, 4, 3, 2, 1]), Ok(number));
    assert_eq!(<u64 as Decode>::decode(&[8, 7, 6]), Err(Exception::CodecFailure));
    assert_eq!(<u64 as Decode>::decode(&[0; 9]), Err(Exception::CodecFailure));
}

#[test]
fn an_opened_store_is_empty_whatever_the_path() {
    let db = <HashDB as Database>::open(&PathBuf::from("some/place")).unwrap();
    assert_eq!(db.len(), 0);
    assert_eq!(db.get_node(&[1u8; KEY_LEN]), Ok(None));
    let other = <HashDB as Database>::open(&PathBuf::new()).unwrap();
    assert_eq!(other.len(), 0);
}

#[test]
fn a_new_store_does_not_read_the_map_handed_in() {
    let mut map = HashMap::new();
    map.insert([1u8; KEY_LEN], TreeNode::new(NodeVariant::Data(TreeData::new())));
    let mut db = HashDB::new(map);
    db.batch_write().unwrap();
    assert_eq!(db.len(), 0);
    assert_eq!(db.get_node(&[1u8; KEY_LEN]), Ok(None));
}
