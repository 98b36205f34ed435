//! A store that keeps its nodes in memory, in a map that readers can
//! read while a writer prepares the next state.

use evmap::handles::{ReadHandle, WriteHandle};
use parking_lot::Mutex;
use std::collections::HashMap;
use std::path::PathBuf;
use vstd::prelude::*;

use crate::constants::KEY_LEN;
use crate::traits::{Database, Exception, NodeVariant};
use crate::tree::tree_branch::TreeBranch;
use crate::tree::tree_data::TreeData;
use crate::tree::tree_leaf::TreeLeaf;
use crate::tree::tree_node::{NodeKind, NodeModel, Store, TreeNode};

verus! {

/// A node as the map keeps it: the reference count, a tag for the kind
/// of record (0 for a branch, 1 for a leaf, anything else for data), and
/// the fields of the records: the leaf count, the address of the zero
/// side or of the data node, the address of the one side, the split
/// index, the key, and the encoded value.
pub type Record = (u64, u8, u64, [u8; KEY_LEN], [u8; KEY_LEN], u8, [u8; KEY_LEN], Vec<u8>);

/// The node that a record stands for.
pub open spec fn record_model(r: Record) -> NodeModel {
    NodeModel {
        references: r.0,
        kind: if r.1 == 0 {
            NodeKind::Branch { count: r.2, zero: r.3@, one: r.4@, split_index: r.5, key: r.6@ }
        } else if r.1 == 1 {
            NodeKind::Leaf { key: r.6@, data: r.3@ }
        } else {
            NodeKind::Data { value: r.7@ }
        },
    }
}

/// The record that stands for `node`.
pub fn to_record(node: TreeNode) -> (r: Record)
    ensures
        record_model(r) == node@,
{
    let references = node.references;
    match node.node {
        NodeVariant::Branch(b) => (
            references,
            0,
            b.count,
            b.zero,
            b.one,
            b.split_index,
            b.key,
            Vec::new(),
        ),
        NodeVariant::Leaf(l) => (
            references,
            1,
            0,
            l.data,
            [0u8; KEY_LEN],
            0,
            l.key,
            Vec::new(),
        ),
        NodeVariant::Data(d) => (
            references,
            2,
            0,
            [0u8; KEY_LEN],
            [0u8; KEY_LEN],
            0,
            [0u8; KEY_LEN],
            d.value,
        ),
    }
}

/// The node that `r` stands for.
pub fn from_record(r: Record) -> (node: TreeNode)
    ensures
        node@ == record_model(r),
{
    let (references, tag, count, first, second, split_index, key, value) = r;
    let node = if tag == 0 {
        NodeVariant::Branch(TreeBranch { count, zero: first, one: second, split_index, key })
    } else if tag == 1 {
        NodeVariant::Leaf(TreeLeaf { key, data: first })
    } else {
        NodeVariant::Data(TreeData { value })
    };
    TreeNode { references, node }
}

/// The two handles of an evmap map: the `ReadHandle`, and the
/// `WriteHandle` behind a `Mutex` of parking_lot. The handles share the
/// state of the map, so what the one shows changes when the other
/// publishes; Verus is given the two as one value, and sees nothing
/// inside it.
#[verifier::external_body]
pub struct Handles {
    read: ReadHandle<[u8; KEY_LEN], Record>,
    write: Mutex<WriteHandle<[u8; KEY_LEN], Record>>,
}

/// The nodes that the read handle shows: what the map held when the
/// write handle published last.
pub uninterp spec fn published_nodes(handles: Handles) -> Map<Seq<u8>, NodeModel>;

/// The nodes that the read handle will show once the write handle has
/// published: the published ones, changed by the writes made since.
pub uninterp spec fn pending_nodes(handles: Handles) -> Map<Seq<u8>, NodeModel>;

/// The contents of a store that holds nothing.
pub open spec fn no_nodes() -> Store {
    Map::empty()
}

/// Makes the map with `evmap::new` and puts the write handle behind a
/// `Mutex`. Trusted: the new map shows nothing, and nothing is pending.
#[verifier::external_body]
fn handles_new() -> (handles: Handles)
    ensures
        published_nodes(handles) == no_nodes(),
        pending_nodes(handles) == no_nodes(),
{
    let (write, read) = evmap::new();
    Handles { read, write: Mutex::new(write) }
}

/// Reads with `ReadHandle::get_one`. Trusted: it gives the record
/// published under the key, or nothing where none is published. Each key
/// has one record at most, because all writes go through `update`.
#[verifier::external_body]
fn handles_get(handles: &Handles, key: &[u8; KEY_LEN]) -> (r: Option<Record>)
    ensures
        r matches Some(record) ==> published_nodes(*handles).contains_key(key@)
            && published_nodes(*handles)[key@] == record_model(record),
        r is None ==> !published_nodes(*handles).contains_key(key@),
{
    match handles.read.get_one(key) {
        Some(record) => Some((*record).clone()),
        None => None,
    }
}

/// Counts with `ReadHandle::len`. Trusted: it gives the number of keys
/// under which a record is published.
#[verifier::external_body]
fn handles_len(handles: &Handles) -> (r: usize)
    ensures
        r == published_nodes(*handles).dom().len(),
{
    handles.read.len()
}

/// Writes with `WriteHandle::update`, which replaces what the key has,
/// under the lock that `Mutex::lock` takes. Trusted: the write is pending
/// and readers do not see it.
#[verifier::external_body]
fn handles_update(handles: &mut Handles, key: [u8; KEY_LEN], record: Record)
    ensures
        published_nodes(*final(handles)) == published_nodes(*old(handles)),
        pending_nodes(*final(handles)) == pending_nodes(*old(handles)).insert(
            key@,
            record_model(record),
        ),
    no_unwind
{
    handles.write.lock().update(key, record);
}

/// Drops with `WriteHandle::remove_entry`, under the lock. Trusted: the
/// drop is pending and readers do not see it.
#[verifier::external_body]
fn handles_remove_entry(handles: &mut Handles, key: [u8; KEY_LEN])
    ensures
        published_nodes(*final(handles)) == published_nodes(*old(handles)),
        pending_nodes(*final(handles)) == pending_nodes(*old(handles)).remove(key@),
    no_unwind
{
    handles.write.lock().remove_entry(key);
}

/// Publishes with `WriteHandle::publish`, under the lock. Trusted:
/// readers see what was pending, and the pending contents stay as they
/// are.
#[verifier::external_body]
fn handles_publish(handles: &mut Handles)
    ensures
        published_nodes(*final(handles)) == pending_nodes(*old(handles)),
        pending_nodes(*final(handles)) == pending_nodes(*old(handles)),
    no_unwind
{
    handles.write.lock().publish();
}

/// An in-memory store. It never fails.
pub struct HashDB {
    /// The handles of the map; it holds finitely many nodes.
    handles: Handles,
}

impl View for HashDB {
    type V = Store;

    closed spec fn view(&self) -> Store {
        published_nodes(self.handles)
    }
}

impl HashDB {
    #[verifier::type_invariant]
    spec fn well_formed(&self) -> bool {
        published_nodes(self.handles).dom().finite() && pending_nodes(self.handles).dom().finite()
    }

    /// The contents of the store once its writes are published.
    pub closed spec fn waiting(&self) -> Store {
        pending_nodes(self.handles)
    }

    /// An empty store. The map handed in is not read.
    pub fn new(_map: HashMap<[u8; KEY_LEN], TreeNode>) -> (r: Self)
        ensures
            r@ == Map::<Seq<u8>, NodeModel>::empty(),
            r.pending() == Map::<Seq<u8>, NodeModel>::empty(),
    {
        HashDB { handles: handles_new() }
    }

    /// The number of nodes that are published.
    pub fn len(&self) -> (r: usize)
        ensures
            r == self@.dom().len(),
    {
        handles_len(&self.handles)
    }
}

impl Database for HashDB {
    open spec fn reliable(&self) -> bool {
        true
    }

    open spec fn pending(&self) -> Store {
        self.waiting()
    }

    /// Opens an empty store. The store lives in memory, so the path is
    /// not read and nothing can fail.
    fn open(_path: &PathBuf) -> (r: Result<Self, Exception>)
        ensures
            r matches Ok(db) && db@ == Map::<Seq<u8>, NodeModel>::empty(),
    {
        Ok(HashDB { handles: handles_new() })
    }

    fn get_node(&self, key: &[u8; KEY_LEN]) -> (r: Result<Option<TreeNode>, Exception>) {
        proof {
            use_type_invariant(self);
        }
        match handles_get(&self.handles, key) {
            Some(record) => Ok(Some(from_record(record))),
            None => Ok(None),
        }
    }

    fn insert(&mut self, key: [u8; KEY_LEN], node: TreeNode) -> (r: Result<(), Exception>) {
        proof {
            use_type_invariant(&*self);
        }
        handles_update(&mut self.handles, key, to_record(node));
        Ok(())
    }

    fn remove(&mut self, key: &[u8; KEY_LEN]) -> (r: Result<(), Exception>) {
        proof {
            use_type_invariant(&*self);
        }
        handles_remove_entry(&mut self.handles, *key);
        handles_publish(&mut self.handles);
        Ok(())
    }

    fn batch_write(&mut self) -> (r: Result<(), Exception>) {
        proof {
            use_type_invariant(&*self);
        }
        handles_publish(&mut self.handles);
        Ok(())
    }
}

} // verus!
