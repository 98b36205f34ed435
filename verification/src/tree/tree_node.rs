//! The node kept in a store, and its mathematical model.

use vstd::prelude::*;

use crate::traits::NodeVariant;
use crate::tree::tree_branch::TreeBranch;
use crate::tree::tree_data::TreeData;
use crate::tree::tree_leaf::TreeLeaf;

verus! {

/// The record of a node as plain values.
pub enum NodeKind {
    /// A branch over `count` leaves that parts at `split_index`.
    Branch { count: u64, zero: Seq<u8>, one: Seq<u8>, split_index: u8, key: Seq<u8> },
    /// The leaf of `key`, whose value is stored at `data`.
    Leaf { key: Seq<u8>, data: Seq<u8> },
    /// An encoded value.
    Data { value: Seq<u8> },
}

/// A node as plain values: its record and its reference count.
pub struct NodeModel {
    pub references: u64,
    pub kind: NodeKind,
}

/// The contents of a store: the node kept at each address.
pub type Store = Map<Seq<u8>, NodeModel>;

/// The record that `variant` holds, as plain values.
pub open spec fn variant_model(variant: NodeVariant<TreeBranch, TreeLeaf, TreeData>) -> NodeKind {
    match variant {
        NodeVariant::Branch(b) => NodeKind::Branch {
            count: b.count,
            zero: b.zero@,
            one: b.one@,
            split_index: b.split_index,
            key: b.key@,
        },
        NodeVariant::Leaf(l) => NodeKind::Leaf { key: l.key@, data: l.data@ },
        NodeVariant::Data(d) => NodeKind::Data { value: d.value@ },
    }
}

/// A node in the tree.
#[derive(Clone, Debug, PartialEq, Eq)]
pub struct TreeNode {
    /// The number of references to this node.
    pub references: u64,
    /// The record of the node.
    pub node: NodeVariant<TreeBranch, TreeLeaf, TreeData>,
}

impl View for TreeNode {
    type V = NodeModel;

    open spec fn view(&self) -> NodeModel {
        NodeModel { references: self.references, kind: variant_model(self.node) }
    }
}

impl TreeNode {
    /// Creates a new `TreeNode` that nothing refers to yet.
    pub fn new(node_variant: NodeVariant<TreeBranch, TreeLeaf, TreeData>) -> (r: Self)
        ensures
            r.references == 0,
            r.node == node_variant,
    {
        Self { references: 0, node: node_variant }
    }

    /// Gets the number of references to the node.
    pub fn get_references(&self) -> (r: u64)
        ensures
            r == self.references,
    {
        self.references
    }

    /// Takes the record out of the node.
    pub fn get_variant(self) -> (r: NodeVariant<TreeBranch, TreeLeaf, TreeData>)
        ensures
            r == self.node,
    {
        self.node
    }

    /// Sets the number of references to the node.
    pub fn set_references(&mut self, references: u64)
        ensures
            final(self).references == references,
            final(self).node == old(self).node,
    {
        self.references = references;
    }

    /// Sets the node as a `NodeVariant::Branch`.
    pub fn set_branch(&mut self, branch: TreeBranch)
        ensures
            final(self).node == NodeVariant::<TreeBranch, TreeLeaf, TreeData>::Branch(branch),
            final(self).references == old(self).references,
    {
        self.node = NodeVariant::Branch(branch);
    }

    /// Sets the node as a `NodeVariant::Leaf`.
    pub fn set_leaf(&mut self, leaf: TreeLeaf)
        ensures
            final(self).node == NodeVariant::<TreeBranch, TreeLeaf, TreeData>::Leaf(leaf),
            final(self).references == old(self).references,
    {
        self.node = NodeVariant::Leaf(leaf);
    }

    /// Sets the node as a `NodeVariant::Data`.
    pub fn set_data(&mut self, data: TreeData)
        ensures
            final(self).node == NodeVariant::<TreeBranch, TreeLeaf, TreeData>::Data(data),
            final(self).references == old(self).references,
    {
        self.node = NodeVariant::Data(data);
    }

    /// A copy of this node.
    pub fn duplicate(&self) -> (r: Self)
        ensures
            r@ == self@,
    {
        let node = match &self.node {
            NodeVariant::Branch(b) => NodeVariant::Branch(*b),
            NodeVariant::Leaf(l) => NodeVariant::Leaf(*l),
            NodeVariant::Data(d) => NodeVariant::Data(d.duplicate()),
        };
        Self { references: self.references, node }
    }
}

} // verus!
