//! The min-priority frontier of the shortest-path engine.
//!
//! The queue is `priority_queue::DoublePriorityQueue<usize, u64>`: a keyed
//! priority queue, so a label occurs at most once and a later push updates
//! its priority in place. Its contents are named by the uninterpreted
//! [`queue_entries`], and the wrappers below state over that name what the
//! crate's source shows of `new`, `push` and `pop_min`.
use vstd::prelude::*;
use priority_queue::DoublePriorityQueue;
use std::collections::hash_map::RandomState;

verus! {

#[verifier::external_type_specification]
#[verifier::external_body]
#[verifier::reject_recursive_types(I)]
#[verifier::reject_recursive_types(P)]
#[verifier::reject_recursive_types(H)]
pub struct ExDoublePriorityQueue<I, P, H>(DoublePriorityQueue<I, P, H>);

/// The frontier: graph labels keyed to their tentative distances.
pub type Frontier = DoublePriorityQueue<usize, u64, RandomState>;

/// The entries a frontier queue holds: each label it contains, mapped to
/// that label's priority.
pub uninterp spec fn queue_entries(q: Frontier) -> Map<usize, u64>;

/// Relies on DoublePriorityQueue::new: creates an empty queue.
#[verifier::external_body]
pub fn queue_new() -> (r: Frontier)
    ensures
        queue_entries(r).dom().len() == 0,
        queue_entries(r).dom().finite(),
        forall|k: usize| !queue_entries(r).dom().contains(k),
{
    DoublePriorityQueue::new()
}

/// Relies on DoublePriorityQueue::push: inserts the label with the given
/// priority, or updates the label's priority if it is already present.
#[verifier::external_body]
pub fn queue_push(q: &mut Frontier, item: usize, priority: u64)
    ensures
        queue_entries(*final(q)) == queue_entries(*old(q)).insert(item, priority),
{
    q.push(item, priority);
}

/// Relies on DoublePriorityQueue::pop_min: removes and returns a label
/// with the least priority of the queue, or returns `None` when the queue
/// is empty. Which label of several least-priority ones leaves is not
/// specified.
#[verifier::external_body]
pub fn queue_pop_min(q: &mut Frontier) -> (r: Option<(usize, u64)>)
    ensures
        match r {
            Option::Some(ip) => {
                &&& queue_entries(*old(q)).dom().contains(ip.0)
                &&& queue_entries(*old(q))[ip.0] == ip.1
                &&& forall|j: usize|
                    queue_entries(*old(q)).dom().contains(j) ==> ip.1 <= queue_entries(*old(q))[j]
                &&& queue_entries(*final(q)) == queue_entries(*old(q)).remove(ip.0)
            },
            Option::None => {
                &&& queue_entries(*old(q)).dom() =~= Set::<usize>::empty()
                &&& queue_entries(*final(q)) == queue_entries(*old(q))
            },
        },
{
    q.pop_min()
}

} // verus!
