//! Trusted interface to the outside priority queue that pathfinding uses
//! as its frontier.
//!
//! The queue is modelled by a map from queued items to their priorities;
//! items are unique, as the queue keys them by equality.  Each wrapper
//! states what the queue's own documentation and source promise, and
//! nothing more: in particular, which entry of several with equal greatest
//! priority leaves first is left open.

use vstd::prelude::*;

use priority_queue::PriorityQueue;

verus! {

/// A queued item: the two axial coordinates of a position.
pub type FrontierItem = (i64, i64);

/// The frontier of a search: a priority queue of coordinate pairs.
pub type Frontier = PriorityQueue<FrontierItem, i128>;

#[verifier::external_type_specification]
#[verifier::external_body]
#[verifier::reject_recursive_types(I)]
#[verifier::reject_recursive_types(P)]
#[verifier::reject_recursive_types(H)]
pub struct ExPriorityQueue<I, P, H>(PriorityQueue<I, P, H>);

/// The contents of a pathfinding frontier: each queued coordinate pair
/// mapped to its priority.
pub uninterp spec fn frontier_model(q: Frontier) -> Map<FrontierItem, i128>;

/// Relies on `priority_queue::PriorityQueue::new`: creates an empty queue.
#[verifier::external_body]
pub(crate) fn frontier_new() -> (r: Frontier)
    ensures
        frontier_model(r).dom() == Set::<FrontierItem>::empty(),
{
    PriorityQueue::new()
}

/// Relies on `priority_queue::PriorityQueue::push`: inserts the item with
/// the given priority; if the item is already queued, its priority is
/// updated and the old priority returned.
#[verifier::external_body]
pub(crate) fn frontier_push(q: &mut Frontier, item: FrontierItem, priority: i128) -> (prev: Option<
    i128,
>)
    ensures
        frontier_model(*final(q)) == frontier_model(*old(q)).insert(item, priority),
        frontier_model(*old(q)).dom().contains(item) ==> prev == Some(
            frontier_model(*old(q))[item],
        ),
        !frontier_model(*old(q)).dom().contains(item) ==> prev == None::<i128>,
{
    q.push(item, priority)
}

/// Relies on `priority_queue::PriorityQueue::pop`: removes and returns an
/// entry with the greatest priority, or `None` when the queue is empty.
#[verifier::external_body]
pub(crate) fn frontier_pop(q: &mut Frontier) -> (r: Option<(FrontierItem, i128)>)
    ensures
        r is None ==> frontier_model(*old(q)).dom() =~= Set::<FrontierItem>::empty()
            && frontier_model(*final(q)) == frontier_model(*old(q)),
        r matches Some(e) ==> frontier_model(*old(q)).dom().contains(e.0) && frontier_model(
            *old(q),
        )[e.0] == e.1 && (forall|j: FrontierItem|
            frontier_model(*old(q)).dom().contains(j) ==> frontier_model(*old(q))[j] <= e.1)
            && frontier_model(*final(q)) == frontier_model(*old(q)).remove(e.0),
{
    q.pop()
}

} // verus!
