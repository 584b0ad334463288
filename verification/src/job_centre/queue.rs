//! The priority queue that holds the jobs of one queue, and the value of a
//! job, with what this library takes for granted of them.
//!
//! The queue is `priority_queue::PriorityQueue`, with a job's identifier as
//! the item and the job's priority as the priority. The value of a job is a
//! `serde_json::Value`, which the library carries and never reads. Nothing
//! here is proved: each contract states what the documentation says.

use vstd::prelude::*;
use priority_queue::PriorityQueue;
use serde_json::Value;

verus! {

/// `priority_queue::PriorityQueue`, as a type that contracts can speak of.
#[verifier::external_type_specification]
#[verifier::external_body]
#[verifier::reject_recursive_types(I)]
#[verifier::reject_recursive_types(P)]
#[verifier::reject_recursive_types(H)]
pub struct ExPriorityQueue<I, P, H>(PriorityQueue<I, P, H>);

/// `serde_json::Value`, as a type that contracts can speak of.
#[verifier::external_type_specification]
#[verifier::external_body]
pub struct ExValue(Value);

/// The jobs of one queue: identifiers as items, priorities as priorities.
pub type Queue = PriorityQueue<u64, u64>;

/// What a queue holds: each item with its priority.
pub uninterp spec fn queue_items(queue: Queue) -> Map<u64, u64>;

/// A queue's items where it holds none.
pub open spec fn no_items() -> Map<u64, u64> {
    Map::empty()
}

/// Whether `item` is one of the items with the greatest priority.
pub open spec fn is_greatest(items: Map<u64, u64>, item: u64) -> bool {
    items.dom().contains(item) && forall|other: u64|
        items.dom().contains(other) ==> items[other] <= items[item]
}

/// `PriorityQueue::new`: a queue that holds nothing.
#[verifier::external_body]
pub(crate) fn queue_new() -> (fresh: Queue)
    ensures
        queue_items(fresh) == no_items(),
{
    PriorityQueue::new()
}

/// `PriorityQueue::push`: the item has the given priority from now on,
/// whether it was in the queue or not. The result is the priority that it
/// had, if it was in the queue.
#[verifier::external_body]
pub(crate) fn queue_push(queue: &mut Queue, item: u64, priority: u64) -> (before: Option<u64>)
    ensures
        queue_items(*final(queue)) == queue_items(*old(queue)).insert(item, priority),
        before == if queue_items(*old(queue)).dom().contains(item) {
            Some(queue_items(*old(queue))[item])
        } else {
            None
        },
{
    queue.push(item, priority)
}

/// `PriorityQueue::peek`: an item with the greatest priority, and its
/// priority; none where the queue is empty. Which of several items with the
/// greatest priority it is, is left open.
#[verifier::external_body]
pub(crate) fn queue_peek(queue: &Queue) -> (top: Option<(u64, u64)>)
    ensures
        match top {
            Some((item, priority)) => is_greatest(queue_items(*queue), item) && queue_items(
                *queue,
            )[item] == priority,
            None => forall|item: u64| !queue_items(*queue).dom().contains(item),
        },
{
    queue.peek().map(|(item, priority)| (*item, *priority))
}

/// `PriorityQueue::pop`: takes an item with the greatest priority out of
/// the queue and hands it back with its priority; none where the queue is
/// empty. Which of several items with the greatest priority it is, is left
/// open.
#[verifier::external_body]
pub(crate) fn queue_pop(queue: &mut Queue) -> (top: Option<(u64, u64)>)
    ensures
        match top {
            Some((item, priority)) => {
                &&& is_greatest(queue_items(*old(queue)), item)
                &&& queue_items(*old(queue))[item] == priority
                &&& queue_items(*final(queue)) == queue_items(*old(queue)).remove(item)
            },
            None => {
                &&& forall|item: u64| !queue_items(*old(queue)).dom().contains(item)
                &&& queue_items(*final(queue)) == queue_items(*old(queue))
            },
        },
{
    queue.pop()
}

/// `PriorityQueue::remove`: takes the item out of the queue, if it is in
/// it, and hands back the priority that it had.
#[verifier::external_body]
pub(crate) fn queue_remove(queue: &mut Queue, item: u64) -> (removed: Option<u64>)
    ensures
        queue_items(*final(queue)) == queue_items(*old(queue)).remove(item),
        removed == if queue_items(*old(queue)).dom().contains(item) {
            Some(queue_items(*old(queue))[item])
        } else {
            None
        },
{
    queue.remove(&item).map(|(_, priority)| priority)
}

/// `Clone::clone` of a `serde_json::Value`: a value equal to the one given.
#[verifier::external_body]
pub(crate) fn clone_value(value: &Value) -> (copy: Value)
    ensures
        copy == *value,
{
    value.clone()
}

} // verus!
