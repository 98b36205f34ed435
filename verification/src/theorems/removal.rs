//! What a removal leaves of a tree.

use vstd::prelude::*;

use crate::constants::KEY_LEN;
use crate::model::collect::{addresses, collect_run, collect_step, lemma_collect_step};
use crate::model::insert::insert_yields;
use crate::model::lookup::lookup;
use crate::theorems::branching::key_splits;
use crate::theorems::planting::run_height;
use crate::theorems::round_trip::{lemma_first_tree_is_sound, unmistakable};
use crate::traits::{Codec, Decode, Exception, Hasher};
use crate::tree::tree_node::Store;
use crate::utils::key_order::{pair_keys, strictly_sorted};

verus! {

/// A removal adds no node to the store: what it leaves was published or
/// pending before.
pub proof fn lemma_removal_adds_nothing(published: Store, pending: Store, queue: Seq<Seq<u8>>)
    requires
        published.dom().finite(),
        pending.dom().finite(),
    ensures
        collect_run(published, pending, queue).dom().subset_of(addresses(published, pending)),
        collect_run(published, pending, queue).dom().finite(),
    decreases addresses(published, pending).len(), queue.len(),
{
    if queue.len() != 0 {
        lemma_collect_step(published, pending, queue[0]);
        let step = collect_step(published, pending, queue[0]);
        if step.pushed.len() == 0 {
            assert(queue.drop_first() + step.pushed =~= queue.drop_first());
        }
        lemma_removal_adds_nothing(step.published, step.pending, queue.drop_first() + step.pushed);
    }
}

/// The removal of a tree whose root has no reference but the one given
/// up drops the root. A root that is not published must not be pending.
pub proof fn lemma_removal_drops_root(published: Store, pending: Store, root: Seq<u8>)
    requires
        published.dom().finite(),
        pending.dom().finite(),
        published.contains_key(root) ==> published[root].references <= 1,
        !published.contains_key(root) ==> !pending.contains_key(root),
    ensures
        !collect_run(published, pending, seq![root]).contains_key(root),
{
    let queue = seq![root];
    lemma_collect_step(published, pending, root);
    let step = collect_step(published, pending, root);
    assert(queue[0] == root);
    assert(!addresses(step.published, step.pending).contains(root));
    lemma_removal_adds_nothing(step.published, step.pending, queue.drop_first() + step.pushed);
}

/// After the removal of a tree whose root has no reference but the one
/// given up, a lookup under that root finds nothing.
pub proof fn lemma_lookup_after_removal<V: Decode>(
    published: Store,
    pending: Store,
    root: Seq<u8>,
    queried: Seq<Seq<u8>>,
    max_depth: nat,
)
    requires
        published.dom().finite(),
        pending.dom().finite(),
        published.contains_key(root) ==> published[root].references <= 1,
        !published.contains_key(root) ==> !pending.contains_key(root),
    ensures
        lookup::<V>(collect_run(published, pending, seq![root]), root, queried, max_depth) == Ok::<
            Map<Seq<u8>, V::V>,
            Exception,
        >(Map::empty()),
{
    lemma_removal_drops_root(published, pending, root);
}

/// After a tree is inserted under no previous root and removed again,
/// a lookup under its root finds nothing, whatever the keys.
///
/// This holds of pairs with keys of full length, sorted without repeats,
/// whose values the codec can encode and decodes as they were; of a hash
/// function that gives each node of the new tree an address of its own;
/// and of a store in which nothing else refers to the root: a tree of a
/// single pair has its leaf as root, which must not be published before.
pub proof fn lemma_first_tree_is_removed<H: Hasher, V: Codec>(
    published: Store,
    pending: Store,
    pairs: Seq<(Seq<u8>, V::V)>,
    max_depth: nat,
    root: Seq<u8>,
    after: Store,
    queried: Seq<Seq<u8>>,
)
    requires
        after.dom().finite(),
        pairs.len() > 0,
        strictly_sorted(pair_keys(pairs)),
        forall|i: int| 0 <= i < pairs.len() ==> (#[trigger] pairs[i]).0.len() == KEY_LEN,
        forall|i: int| 0 <= i < pairs.len() ==> V::encoding((#[trigger] pairs[i]).1) is Some,
        unmistakable::<H, V>(pairs),
        pairs.len() == 1 ==> !published.contains_key(root),
        insert_yields::<H, V>(
            published,
            pending,
            None,
            pairs,
            max_depth,
            Ok::<(Seq<u8>, Store), Exception>((root, after)),
        ),
    ensures
        lookup::<V>(collect_run(after, after, seq![root]), root, queried, max_depth) == Ok::<
            Map<Seq<u8>, V::V>,
            Exception,
        >(Map::empty()),
{
    let height = run_height(key_splits(pair_keys(pairs)), 0, pairs.len() - 1);
    lemma_first_tree_is_sound::<H, V>(published, pending, pairs, max_depth, root, after, height);
    lemma_lookup_after_removal::<V>(after, after, root, queried, max_depth);
}

} // verus!
