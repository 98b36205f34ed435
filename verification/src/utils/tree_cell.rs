//! The descriptor of one step of a walk through a tree.

use vstd::prelude::*;

use crate::constants::KEY_LEN;
use crate::tree::tree_node::{NodeModel, TreeNode};
use crate::utils::tree_utils::key_views;

verus! {

/// A node met on a walk, with the keys that are still looked for below it.
pub struct TreeCell<'a> {
    /// The address of the node.
    pub location: [u8; KEY_LEN],
    /// The keys that may lie below the node.
    pub keys: &'a [&'a [u8; KEY_LEN]],
    /// The node, as it was read from the store.
    pub node: TreeNode,
    /// The number of steps from the root to the node.
    pub depth: usize,
}

/// A `TreeCell` as plain values.
pub struct CellModel {
    pub location: Seq<u8>,
    pub keys: Seq<Seq<u8>>,
    pub node: NodeModel,
    pub depth: nat,
}

impl<'a> View for TreeCell<'a> {
    type V = CellModel;

    open spec fn view(&self) -> CellModel {
        CellModel {
            location: self.location@,
            keys: key_views(self.keys@),
            node: self.node@,
            depth: self.depth as nat,
        }
    }
}

impl<'a> TreeCell<'a> {
    /// A cell with the given fields.
    pub fn new(
        location: [u8; KEY_LEN],
        keys: &'a [&'a [u8; KEY_LEN]],
        node: TreeNode,
        depth: usize,
    ) -> (r: Self)
        ensures
            r.location == location,
            r.keys == keys,
            r.node == node,
            r.depth == depth,
    {
        TreeCell { location, keys, node, depth }
    }
}

/// The cells of a queue as plain values.
pub open spec fn cell_models(cells: Seq<TreeCell>) -> Seq<CellModel> {
    Seq::new(cells.len(), |i: int| cells[i]@)
}

/// The weight of a cell on a walk that goes no deeper than `max_depth`:
/// it bounds the number of steps that the cell can still cause.
pub open spec fn cell_weight(cell: CellModel, max_depth: nat) -> nat {
    if cell.depth <= max_depth + 1 {
        1 + cell.keys.len() * ((max_depth + 2 - cell.depth) as nat)
    } else {
        1
    }
}

/// The weight of all cells of a queue.
pub open spec fn queue_weight(queue: Seq<CellModel>, max_depth: nat) -> nat
    decreases queue.len(),
{
    if queue.len() == 0 {
        0
    } else {
        cell_weight(queue[0], max_depth) + queue_weight(queue.drop_first(), max_depth)
    }
}

/// The weight of two queues in a row is the sum of their weights.
pub proof fn lemma_queue_weight_add(a: Seq<CellModel>, b: Seq<CellModel>, max_depth: nat)
    ensures
        queue_weight(a + b, max_depth) == queue_weight(a, max_depth) + queue_weight(b, max_depth),
    decreases a.len(),
{
    if a.len() == 0 {
        assert(a + b =~= b);
    } else {
        assert((a + b).drop_first() =~= a.drop_first() + b);
        lemma_queue_weight_add(a.drop_first(), b, max_depth);
    }
}

/// A child cell weighs less than its parent by at least the number of
/// keys that the parent has and the child has not, and by one more.
pub proof fn lemma_children_weigh_less(
    parent: CellModel,
    first: Seq<Seq<u8>>,
    second: Seq<Seq<u8>>,
    pushed: Seq<CellModel>,
    max_depth: nat,
)
    requires
        parent.depth <= max_depth,
        first.len() + second.len() <= parent.keys.len(),
        pushed.len() <= 2,
        forall|i: int|
            0 <= i < pushed.len() ==> (#[trigger] pushed[i]).depth == parent.depth + 1
                && pushed[i].keys.len() > 0,
        pushed.len() == 1 ==> pushed[0].keys == first || pushed[0].keys == second,
        pushed.len() == 2 ==> pushed[0].keys == first && pushed[1].keys == second,
    ensures
        queue_weight(pushed, max_depth) < cell_weight(parent, max_depth),
{
    let m = (max_depth + 1 - parent.depth) as nat;
    let k = parent.keys.len();
    assert(cell_weight(parent, max_depth) == 1 + k * (m + 1));
    assert(queue_weight(Seq::<CellModel>::empty(), max_depth) == 0);
    if pushed.len() == 1 {
        assert(pushed.drop_first() =~= Seq::<CellModel>::empty());
        let c = pushed[0].keys.len();
        assert(queue_weight(pushed, max_depth) == 1 + c * m);
        assert(1 + c * m < 1 + k * (m + 1)) by (nonlinear_arith)
            requires
                0 < c <= k,
                m >= 1,
        ;
    } else if pushed.len() == 2 {
        let rest = pushed.drop_first();
        assert(rest.drop_first() =~= Seq::<CellModel>::empty());
        assert(rest[0] == pushed[1]);
        let c = pushed[0].keys.len();
        let d = pushed[1].keys.len();
        assert(queue_weight(rest, max_depth) == 1 + d * m);
        assert(queue_weight(pushed, max_depth) == 1 + c * m + 1 + d * m);
        assert(1 + c * m + 1 + d * m < 1 + k * (m + 1)) by (nonlinear_arith)
            requires
                0 < c,
                0 < d,
                c + d <= k,
                m >= 1,
        ;
    } else {
        assert(pushed =~= Seq::<CellModel>::empty());
    }
}

} // verus!
