//! The descriptor of a subtree that is about to be joined into a new tree.

use vstd::prelude::*;

use crate::constants::KEY_LEN;

verus! {

/// A subtree that takes part in the building of a new tree: a new leaf, a
/// node taken over from an earlier tree, or the result of a merge.
#[derive(Clone, Copy, Debug, PartialEq, Eq)]
pub struct TreeRef {
    /// A key that stands for the subtree: its own key for a leaf, the
    /// representative key for a branch.
    pub key: [u8; KEY_LEN],
    /// The address of the root of the subtree.
    pub location: [u8; KEY_LEN],
    /// The number of leaves in the subtree.
    pub node_count: u64,
    /// The number of descriptors merged into this one.
    pub count: usize,
}

/// A `TreeRef` as plain values.
pub struct RefModel {
    pub key: Seq<u8>,
    pub location: Seq<u8>,
    pub node_count: u64,
    pub count: usize,
}

impl View for TreeRef {
    type V = RefModel;

    open spec fn view(&self) -> RefModel {
        RefModel {
            key: self.key@,
            location: self.location@,
            node_count: self.node_count,
            count: self.count,
        }
    }
}

/// The descriptors of a list as plain values.
pub open spec fn ref_models(refs: Seq<TreeRef>) -> Seq<RefModel> {
    Seq::new(refs.len(), |i: int| refs[i]@)
}

impl TreeRef {
    /// A descriptor with the given fields.
    pub fn new(key: [u8; KEY_LEN], location: [u8; KEY_LEN], node_count: u64, count: usize) -> (r:
        Self)
        ensures
            r == (TreeRef { key, location, node_count, count }),
    {
        TreeRef { key, location, node_count, count }
    }
}

} // verus!
