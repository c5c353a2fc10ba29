//! The open set of the path search: a `priority_queue::PriorityQueue` of grid
//! cells, reached through the trusted items below.

use vstd::prelude::*;
use priority_queue::PriorityQueue;

verus! {

/// `priority_queue::PriorityQueue`, carried through verified code as an
/// opaque value.
#[verifier::external_type_specification]
#[verifier::external_body]
#[verifier::reject_recursive_types(I)]
#[verifier::reject_recursive_types(P)]
#[verifier::reject_recursive_types(H)]
pub struct ExPriorityQueue<I, P, H>(PriorityQueue<I, P, H>);

/// A queue of grid cells `(x, y)` ordered by an `i64` priority.
pub type CellQueue = PriorityQueue<(i32, i32), i64>;

/// What a queue of cells holds: each queued cell with its priority. The queue
/// keeps at most one entry per cell.
pub uninterp spec fn queue_entries(q: CellQueue) -> Map<(i32, i32), i64>;

/// The contents of an empty queue.
pub open spec fn no_entries() -> Map<(i32, i32), i64> {
    Map::empty()
}

/// `PriorityQueue::new`: the new queue holds nothing.
#[verifier::external_body]
pub(crate) fn open_set_new() -> (q: CellQueue)
    ensures
        queue_entries(q) == no_entries(),
{
    PriorityQueue::new()
}

/// `PriorityQueue::push`: afterwards `item` is queued with `priority`,
/// replacing any earlier priority of it, which is returned.
#[verifier::external_body]
pub(crate) fn open_set_push(q: &mut CellQueue, item: (i32, i32), priority: i64) -> (old_priority: Option<i64>)
    ensures
        queue_entries(*final(q)) == queue_entries(*old(q)).insert(item, priority),
        old_priority == if queue_entries(*old(q)).contains_key(item) {
            Some(queue_entries(*old(q))[item])
        } else {
            None
        },
{
    q.push(item, priority)
}

/// `PriorityQueue::pop`: removes and returns an entry whose priority is the
/// greatest in the queue; `None` when the queue is empty. Which of several
/// entries of equal greatest priority comes out is left open here.
#[verifier::external_body]
pub(crate) fn open_set_pop(q: &mut CellQueue) -> (r: Option<((i32, i32), i64)>)
    ensures
        match r {
            None => {
                &&& queue_entries(*old(q)) == no_entries()
                &&& queue_entries(*final(q)) == queue_entries(*old(q))
            },
            Some((item, priority)) => {
                &&& queue_entries(*old(q)).contains_key(item)
                &&& queue_entries(*old(q))[item] == priority
                &&& forall|k: (i32, i32)| #[trigger]
                    queue_entries(*old(q)).contains_key(k) ==> queue_entries(*old(q))[k]
                        <= priority
                &&& queue_entries(*final(q)) == queue_entries(*old(q)).remove(item)
            },
        },
{
    q.pop()
}

/// `PriorityQueue::contains`: whether `item` is queued.
#[verifier::external_body]
pub(crate) fn open_set_contains(q: &CellQueue, item: (i32, i32)) -> (b: bool)
    ensures
        b == queue_entries(*q).contains_key(item),
{
    q.contains(&item)
}

/// `PriorityQueue::change_priority`: a queued `item` gets `priority` and its
/// old priority is returned; an item that is not queued changes nothing.
#[verifier::external_body]
pub(crate) fn open_set_change_priority(
    q: &mut CellQueue,
    item: (i32, i32),
    priority: i64,
) -> (old_priority: Option<i64>)
    ensures
        queue_entries(*old(q)).contains_key(item) ==> {
            &&& queue_entries(*final(q)) == queue_entries(*old(q)).insert(item, priority)
            &&& old_priority == Some(queue_entries(*old(q))[item])
        },
        !queue_entries(*old(q)).contains_key(item) ==> {
            &&& queue_entries(*final(q)) == queue_entries(*old(q))
            &&& old_priority.is_none()
        },
{
    q.change_priority(&item, priority)
}

} // verus!
