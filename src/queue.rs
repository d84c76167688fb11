use vstd::prelude::*;
use priority_queue::PriorityQueue;
use std::cmp::Reverse;

verus! {

#[verifier::external_type_specification]
#[verifier::external_body]
#[verifier::reject_recursive_types(I)]
#[verifier::reject_recursive_types(P)]
#[verifier::reject_recursive_types(H)]
pub struct ExPriorityQueue<I, P, H>(PriorityQueue<I, P, H>);

#[verifier::external_type_specification]
#[verifier::external_body]
#[verifier::reject_recursive_types(T)]
pub struct ExReverse<T>(Reverse<T>);

/// A queue of arena positions, each with the priority `(weight, position)`;
/// the least priority leaves first.
pub type MinQueue = PriorityQueue<usize, Reverse<(u64, usize)>>;

/// The entries of a queue: each item with its priority, `Reverse` taken off.
pub uninterp spec fn queue_entries(q: MinQueue) -> Map<usize, (u64, usize)>;

/// Lexicographic order on priorities, as std orders tuples.
pub open spec fn prio_le(a: (u64, usize), b: (u64, usize)) -> bool {
    a.0 < b.0 || (a.0 == b.0 && a.1 <= b.1)
}

/// Relies on PriorityQueue::new: the new queue holds no entries.
#[verifier::external_body]
pub(crate) fn queue_new() -> (r: MinQueue)
    ensures
        queue_entries(r).dom() == Set::<usize>::empty(),
{
    PriorityQueue::new()
}

/// Relies on PriorityQueue::len: the number of entries.
#[verifier::external_body]
pub(crate) fn queue_len(q: &MinQueue) -> (r: usize)
    ensures
        r == queue_entries(*q).len(),
{
    q.len()
}

/// Relies on PriorityQueue::push: the item is inserted with the priority, or
/// its priority is replaced when it is already there.
#[verifier::external_body]
pub(crate) fn queue_push(q: &mut MinQueue, item: usize, prio: (u64, usize))
    ensures
        queue_entries(*final(q)) == queue_entries(*old(q)).insert(item, prio),
        queue_entries(*final(q)).dom().finite(),
{
    q.push(item, Reverse(prio));
}

/// Relies on PriorityQueue::pop: it removes and returns an entry of greatest
/// priority, which under `Reverse` is one whose pair is least; `None` when
/// the queue is empty.
#[verifier::external_body]
pub(crate) fn queue_pop(q: &mut MinQueue) -> (r: Option<(usize, (u64, usize))>)
    ensures
        match r {
            None => {
                &&& queue_entries(*old(q)).len() == 0
                &&& queue_entries(*final(q)) == queue_entries(*old(q))
            },
            Some((item, prio)) => {
                &&& queue_entries(*old(q)).contains_key(item)
                &&& queue_entries(*old(q))[item] == prio
                &&& forall|k: usize| #[trigger] queue_entries(*old(q)).contains_key(k)
                    ==> prio_le(prio, queue_entries(*old(q))[k])
                &&& queue_entries(*final(q)) == queue_entries(*old(q)).remove(item)
            },
        },
        queue_entries(*final(q)).dom().finite() <== queue_entries(*old(q)).dom().finite(),
{
    match q.pop() {
        Some((item, Reverse(prio))) => Some((item, prio)),
        None => None,
    }
}

} // verus!
