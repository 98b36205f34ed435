//! What a removal leaves of the trees that are retained.

use vstd::prelude::*;

use crate::model::collect::{addresses, collect_run, collect_step, lemma_collect_step, released};
use crate::theorems::reading::{find, side_region, sound, Region};
use crate::traits::Decode;
use crate::tree::tree_node::{NodeKind, Store};

verus! {

/// The node at `parent` refers to the node at `x`: as its child on the
/// zero side or, for `side`, on the one side, or as the data node of a
/// leaf.
pub open spec fn refers(store: Store, parent: Seq<u8>, side: bool, x: Seq<u8>) -> bool {
    store.contains_key(parent) && match store[parent].kind {
        NodeKind::Branch { count, zero, one, split_index, key } => if side {
            one == x
        } else {
            zero == x
        },
        NodeKind::Leaf { key, data } => !side && data == x,
        NodeKind::Data { value } => false,
    }
}

/// The references to the node at `x` from nodes that are not retained.
pub open spec fn outside_references(store: Store, retained: Set<Seq<u8>>, x: Seq<u8>) -> Set<
    (Seq<u8>, bool),
> {
    Set::new(|e: (Seq<u8>, bool)| !retained.contains(e.0) && refers(store, e.0, e.1, x))
}

/// The number of times that `x` occurs in the queue.
pub open spec fn times(queue: Seq<Seq<u8>>, x: Seq<u8>) -> nat
    decreases queue.len(),
{
    if queue.len() == 0 {
        0
    } else if queue[0] == x {
        1 + times(queue.drop_first(), x)
    } else {
        times(queue.drop_first(), x)
    }
}

/// The pending contents hold nodes at the addresses at which nodes are
/// published, with the same records.
pub open spec fn aligned(published: Store, pending: Store) -> bool {
    &&& pending.dom() == published.dom()
    &&& forall|a: Seq<u8>| #[trigger]
        published.contains_key(a) ==> pending[a].kind == published[a].kind
}

/// The number of references that the removal can still give up for the
/// node at `x`: the times it stands in the queue and the references to it
/// from nodes that are not retained.
pub open spec fn owed(store: Store, queue: Seq<Seq<u8>>, retained: Set<Seq<u8>>, x: Seq<u8>) -> nat {
    times(queue, x) + outside_references(store, retained, x).len()
}

/// Each retained node is in the store, published and pending, and it has
/// a reference more than the removal can give up for it.
pub open spec fn retained_hold(
    published: Store,
    pending: Store,
    queue: Seq<Seq<u8>>,
    retained: Set<Seq<u8>>,
) -> bool {
    &&& aligned(published, pending)
    &&& forall|x: Seq<u8>| #[trigger]
        retained.contains(x) ==> published.contains_key(x) && published[x].references >= 1 + owed(
            published,
            queue,
            retained,
            x,
        ) && pending[x].references >= 1 + owed(published, queue, retained, x)
}

/// What stands in two queues in a row stands in the one or in the other.
pub proof fn lemma_times_add(a: Seq<Seq<u8>>, b: Seq<Seq<u8>>, x: Seq<u8>)
    ensures
        times(a + b, x) == times(a, x) + times(b, x),
    decreases a.len(),
{
    if a.len() == 0 {
        assert(a + b =~= b);
    } else {
        assert((a + b).drop_first() =~= a.drop_first() + b);
        lemma_times_add(a.drop_first(), b, x);
    }
}

/// The times that `x` stands in a queue of up to two addresses.
pub proof fn lemma_times_few(a: Seq<u8>, b: Seq<u8>, x: Seq<u8>)
    ensures
        times(Seq::<Seq<u8>>::empty(), x) == 0,
        times(seq![a], x) == (if a == x {
            1nat
        } else {
            0nat
        }),
        times(seq![a, b], x) == (if a == x {
            1nat
        } else {
            0nat
        }) + (if b == x {
            1nat
        } else {
            0nat
        }),
{
    let none = Seq::<Seq<u8>>::empty();
    let first = seq![a];
    let one = seq![b];
    let two = seq![a, b];
    assert(times(none, x) == 0);
    assert(first.drop_first() =~= none);
    assert(first[0] == a);
    assert(times(first, x) == (if a == x {
        1nat
    } else {
        0nat
    }) + times(first.drop_first(), x));
    assert(one.drop_first() =~= none);
    assert(one[0] == b);
    assert(times(one, x) == (if b == x {
        1nat
    } else {
        0nat
    }) + times(one.drop_first(), x));
    assert(two.drop_first() =~= one);
    assert(two[0] == a);
    assert(times(two, x) == (if a == x {
        1nat
    } else {
        0nat
    }) + times(two.drop_first(), x));
}

/// A store with finitely many nodes has finitely many references to a
/// node.
pub proof fn lemma_references_finite(store: Store, retained: Set<Seq<u8>>, x: Seq<u8>)
    requires
        store.dom().finite(),
    ensures
        outside_references(store, retained, x).finite(),
{
    let zero_side = store.dom().map(|a: Seq<u8>| (a, false));
    let one_side = store.dom().map(|a: Seq<u8>| (a, true));
    store.dom().lemma_map_finite(|a: Seq<u8>| (a, false));
    store.dom().lemma_map_finite(|a: Seq<u8>| (a, true));
    let all = zero_side.union(one_side);
    let these = outside_references(store, retained, x);
    assert forall|e: (Seq<u8>, bool)| these.contains(e) implies all.contains(e) by {
        assert(store.dom().contains(e.0));
        if e.1 {
            assert(one_side.contains((e.0, true)));
        } else {
            assert(zero_side.contains((e.0, false)));
        }
    }
    vstd::set_lib::lemma_set_subset_finite(all, these);
}

/// A step of a removal leaves each retained node in the store, with a
/// reference more than the removal can still give up for it.
pub proof fn lemma_collect_step_holds(
    published: Store,
    pending: Store,
    queue: Seq<Seq<u8>>,
    retained: Set<Seq<u8>>,
)
    requires
        published.dom().finite(),
        queue.len() > 0,
        retained_hold(published, pending, queue, retained),
    ensures
        retained_hold(
            collect_step(published, pending, queue[0]).published,
            collect_step(published, pending, queue[0]).pending,
            queue.drop_first() + collect_step(published, pending, queue[0]).pushed,
            retained,
        ),
        forall|x: Seq<u8>| #[trigger]
            retained.contains(x) ==> collect_step(published, pending, queue[0]).pending[x].kind
                == published[x].kind && collect_step(
                published,
                pending,
                queue[0],
            ).published[x].kind == published[x].kind,
{
    let y = queue[0];
    let step = collect_step(published, pending, y);
    let next = queue.drop_first() + step.pushed;
    let rest = queue.drop_first();
    assert(aligned(step.published, step.pending)) by {
        if published.contains_key(y) {
            if released(published[y]) == 0 {
            } else {
                assert(step.pending.dom() =~= published.dom());
            }
        }
    }
    assert forall|x: Seq<u8>| #[trigger] retained.contains(x) implies step.published.contains_key(
        x,
    ) && step.published[x].references >= 1 + owed(step.published, next, retained, x)
        && step.pending[x].references >= 1 + owed(step.published, next, retained, x)
        && step.pending[x].kind == published[x].kind && step.published[x].kind
        == published[x].kind by {
        lemma_times_add(rest, step.pushed, x);
        lemma_references_finite(published, retained, x);
        lemma_times_few(y, y, x);
        let before = outside_references(published, retained, x);
        let after = outside_references(step.published, retained, x);
        assert(times(queue, x) == times(rest, x) + (if y == x {
            1nat
        } else {
            0nat
        }));
        assert(published.contains_key(x));
        if !published.contains_key(y) {
            assert(after =~= before);
            assert(step.pushed =~= Seq::<Seq<u8>>::empty());
        } else if released(published[y]) != 0 {
            assert(after =~= before);
            assert(step.pushed =~= Seq::<Seq<u8>>::empty());
        } else {
            // the node at `y` is dropped
            if retained.contains(y) {
                lemma_times_few(y, y, y);
                assert(times(queue, y) >= 1);
                assert(published[y].references >= 1 + times(queue, y));
            }
            assert(y != x);
            let without_zero = before.remove((y, false));
            assert(after =~= without_zero.remove((y, true)));
            assert(without_zero.len() == before.len() - (if before.contains((y, false)) {
                1nat
            } else {
                0nat
            }));
            assert(after.len() == without_zero.len() - (if without_zero.contains((y, true)) {
                1nat
            } else {
                0nat
            }));
            match published[y].kind {
                NodeKind::Branch { count, zero, one, split_index, key } => {
                    lemma_times_few(zero, one, x);
                    assert(step.pushed =~= seq![zero, one]);
                    assert(before.contains((y, false)) <==> zero == x);
                    assert(before.contains((y, true)) <==> one == x);
                },
                NodeKind::Leaf { key, data } => {
                    lemma_times_few(data, data, x);
                    assert(step.pushed =~= seq![data]);
                    assert(before.contains((y, false)) <==> data == x);
                    assert(!before.contains((y, true)));
                },
                NodeKind::Data { value } => {
                    assert(step.pushed =~= Seq::<Seq<u8>>::empty());
                    assert(!before.contains((y, false)));
                    assert(!before.contains((y, true)));
                },
            }
        }
    }
}

/// A removal drops no retained node and leaves the records of the
/// retained nodes as they are.
pub proof fn lemma_removal_keeps_retained(
    published: Store,
    pending: Store,
    queue: Seq<Seq<u8>>,
    retained: Set<Seq<u8>>,
)
    requires
        published.dom().finite(),
        retained_hold(published, pending, queue, retained),
    ensures
        forall|x: Seq<u8>| #[trigger]
            retained.contains(x) ==> collect_run(published, pending, queue).contains_key(x)
                && collect_run(published, pending, queue)[x].kind == published[x].kind,
    decreases addresses(published, pending).len(), queue.len(),
{
    assert(pending.dom().finite());
    if queue.len() != 0 {
        lemma_collect_step(published, pending, queue[0]);
        lemma_collect_step_holds(published, pending, queue, retained);
        let step = collect_step(published, pending, queue[0]);
        if step.pushed.len() == 0 {
            assert(queue.drop_first() + step.pushed =~= queue.drop_first());
        }
        lemma_removal_keeps_retained(
            step.published,
            step.pending,
            queue.drop_first() + step.pushed,
            retained,
        );
    }
}

/// The retained nodes refer to retained nodes only.
pub open spec fn retained_closed(store: Store, retained: Set<Seq<u8>>) -> bool {
    forall|x: Seq<u8>, side: bool, child: Seq<u8>|
        retained.contains(x) && #[trigger] refers(store, x, side, child) ==> retained.contains(
            child,
        )
}

/// A well-formed tree of retained nodes is well-formed in a store that
/// keeps the retained nodes with their records, and holds there what it
/// held.
pub proof fn lemma_retained_tree_stays<V: Decode>(
    store: Store,
    after: Store,
    retained: Set<Seq<u8>>,
    location: Seq<u8>,
    r: Region,
)
    requires
        sound::<V>(store, location, r),
        retained.contains(location),
        retained_closed(store, retained),
        forall|x: Seq<u8>| #[trigger]
            retained.contains(x) ==> after.contains_key(x) && after[x].kind == store[x].kind,
    ensures
        sound::<V>(after, location, r),
        forall|q: Seq<u8>| #[trigger]
            find::<V>(after, location, q, r.height) == find::<V>(store, location, q, r.height),
    decreases r.height,
{
    match store[location].kind {
        NodeKind::Data { value } => {},
        NodeKind::Leaf { key, data } => {
            assert(refers(store, location, false, data));
        },
        NodeKind::Branch { count, zero, one, split_index, key } => {
            assert(refers(store, location, false, zero));
            assert(refers(store, location, true, one));
            let zero_region = side_region(key, split_index, false, r.height);
            let one_region = side_region(key, split_index, true, r.height);
            lemma_retained_tree_stays::<V>(store, after, retained, zero, zero_region);
            lemma_retained_tree_stays::<V>(store, after, retained, one, one_region);
            assert forall|q: Seq<u8>| #[trigger]
                find::<V>(after, location, q, r.height) == find::<V>(
                    store,
                    location,
                    q,
                    r.height,
                ) by {
                assert(find::<V>(after, zero, q, zero_region.height) == find::<V>(
                    store,
                    zero,
                    q,
                    zero_region.height,
                ));
                assert(find::<V>(after, one, q, one_region.height) == find::<V>(
                    store,
                    one,
                    q,
                    one_region.height,
                ));
            }
        },
    }
}

/// The removal of the tree at `root` leaves a retained tree as it is:
/// the tree at `other` stays well-formed and holds what it held.
///
/// This holds of a store in which nothing is pending, where the
/// retained nodes refer to retained nodes only, and each of them has a
/// reference more than the references to it from nodes that are not
/// retained and, for the node at `root`, the reference that the removal
/// gives up.
pub proof fn lemma_retained_tree_survives<V: Decode>(
    store: Store,
    root: Seq<u8>,
    retained: Set<Seq<u8>>,
    other: Seq<u8>,
    r: Region,
)
    requires
        store.dom().finite(),
        retained_closed(store, retained),
        forall|x: Seq<u8>| #[trigger]
            retained.contains(x) ==> store.contains_key(x) && store[x].references >= 1 + (if x
                == root {
                1nat
            } else {
                0nat
            }) + outside_references(store, retained, x).len(),
        retained.contains(other),
        sound::<V>(store, other, r),
    ensures
        sound::<V>(collect_run(store, store, seq![root]), other, r),
        forall|q: Seq<u8>| #[trigger]
            find::<V>(collect_run(store, store, seq![root]), other, q, r.height) == find::<V>(
                store,
                other,
                q,
                r.height,
            ),
{
    let queue = seq![root];
    assert forall|x: Seq<u8>| #[trigger] retained.contains(x) implies store.contains_key(x)
        && store[x].references >= 1 + owed(store, queue, retained, x) by {
        lemma_times_few(root, root, x);
    }
    lemma_removal_keeps_retained(store, store, queue, retained);
    lemma_retained_tree_stays::<V>(store, collect_run(store, store, queue), retained, other, r);
}

} // verus!
