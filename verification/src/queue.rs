//! The ready queue: a first-in first-out queue of target positions.

use vstd::prelude::*;
use crossbeam::queue::SegQueue;

verus! {

/// `crossbeam::queue::SegQueue`, an unbounded queue. The verifier sees
/// nothing inside it.
#[verifier::external_type_specification]
#[verifier::external_body]
#[verifier::reject_recursive_types(T)]
pub struct ExSegQueue<T>(SegQueue<T>);

/// The positions waiting in a queue, oldest first.
pub uninterp spec fn queued(q: SegQueue<usize>) -> Seq<usize>;

/// `crossbeam::queue::SegQueue::new` creates a queue that holds nothing.
#[verifier::external_body]
pub(crate) fn new_queue() -> (q: SegQueue<usize>)
    ensures
        queued(q) == Seq::<usize>::empty(),
{
    SegQueue::new()
}

/// `crossbeam::queue::SegQueue::push_mut` puts the value behind
/// everything already queued.
#[verifier::external_body]
pub(crate) fn enqueue(q: &mut SegQueue<usize>, position: usize)
    ensures
        queued(*final(q)) == queued(*old(q)).push(position),
{
    q.push_mut(position)
}

/// `crossbeam::queue::SegQueue::pop_mut` takes the oldest value out, or
/// returns `None` and changes nothing when the queue is empty.
#[verifier::external_body]
pub(crate) fn dequeue(q: &mut SegQueue<usize>) -> (head: Option<usize>)
    ensures
        match head {
            Some(position) => queued(*old(q)).len() > 0 && position == queued(*old(q))[0]
                && queued(*final(q)) == queued(*old(q)).drop_first(),
            None => queued(*old(q)).len() == 0 && queued(*final(q)) == queued(*old(q)),
        },
{
    q.pop_mut()
}

} // verus!
