//! Trusted boundary to `bucket_queue`, which stores the open frontier as a
//! bucket queue of bucket queues: entries are keyed by f-cost, sub-bucketed
//! by g-cost, and each innermost bucket is a stack.  Verus cannot declare
//! the queue type itself (its generic parameters are bound by the crate's
//! own `Bucket` and `Index` traits), so the nested queue lives in a private
//! field of [`FrontierQueue`], whose contents are named by
//! [`frontier_entries`] and reachable only through the wrappers below.

use vstd::prelude::*;
use vstd::multiset::Multiset;
use bucket_queue::{LastInFirstOutQueue, Queue};

verus! {

#[verifier::external_body]
pub struct FrontierQueue {
    queue: bucket_queue::BucketQueue<bucket_queue::BucketQueue<Vec<usize>>>,
}

/// The (item, f-cost, g-cost) entries the queue holds, as a multiset: the
/// queue imposes no order beyond the priorities themselves.
pub uninterp spec fn frontier_entries(q: FrontierQueue) -> Multiset<(int, int, int)>;

/// Relies on bucket_queue::BucketQueue::new: a fresh queue is empty.
#[verifier::external_body]
pub(crate) fn frontier_new() -> (r: FrontierQueue)
    ensures
        frontier_entries(r) == Multiset::<(int, int, int)>::empty(),
{
    FrontierQueue { queue: bucket_queue::BucketQueue::new() }
}

/// Relies on bucket_queue's Queue::bucket_for_adding and
/// LastInFirstOutQueue::push: adds `item` to the bucket for `f_cost`,
/// sub-bucketed by `g_cost`, and touches nothing else.
#[verifier::external_body]
pub(crate) fn frontier_push(q: &mut FrontierQueue, item: usize, f_cost: usize, g_cost: usize)
    ensures
        frontier_entries(*final(q)) == frontier_entries(*old(q)).insert(
            (item as int, f_cost as int, g_cost as int),
        ),
{
    q.queue.bucket_for_adding(f_cost).push(item, g_cost)
}

/// Relies on bucket_queue's Queue::{min_priority, bucket_for_removing,
/// max_priority} and LastInFirstOutQueue::pop, chained exactly as the open
/// set removes: of the non-empty queue it removes and returns an entry with
/// the least f-cost, and among those the greatest g-cost.
#[verifier::external_body]
pub(crate) fn frontier_pop(q: &mut FrontierQueue) -> (r: Option<(usize, usize)>)
    ensures
        r is None ==> frontier_entries(*old(q)).len() == 0 && frontier_entries(*final(q))
            == frontier_entries(*old(q)),
        r matches Some(p) ==> exists|f: int|
            #![auto]
            {
                &&& frontier_entries(*old(q)).count((p.0 as int, f, p.1 as int)) > 0
                &&& (forall|e: (int, int, int)|
                    frontier_entries(*old(q)).count(e) > 0 ==> f <= e.1)
                &&& (forall|e: (int, int, int)|
                    frontier_entries(*old(q)).count(e) > 0 && e.1 == f ==> e.2 <= p.1 as int)
                &&& frontier_entries(*final(q)) == frontier_entries(*old(q)).remove(
                    (p.0 as int, f, p.1 as int),
                )
            },
{
    let f_cost = q.queue.min_priority()?;
    let bucket = q.queue.bucket_for_removing(f_cost)?;
    let g_cost = bucket.max_priority()?;
    let item = bucket.pop(g_cost)?;
    Some((item, g_cost))
}

/// Relies on bucket_queue::BucketQueue::len: the number of stored entries.
#[verifier::external_body]
pub(crate) fn frontier_len(q: &FrontierQueue) -> (r: usize)
    ensures
        r == frontier_entries(*q).len(),
{
    q.queue.len()
}

/// Relies on bucket_queue's Queue::min_priority: the least f-cost present.
#[verifier::external_body]
pub(crate) fn frontier_min_priority(q: &FrontierQueue) -> (r: Option<usize>)
    ensures
        r is None ==> frontier_entries(*q).len() == 0,
        r matches Some(f) ==> (exists|e: (int, int, int)|
            #![auto]
            frontier_entries(*q).count(e) > 0 && e.1 == f as int) && (forall|e: (int, int, int)|
            frontier_entries(*q).count(e) > 0 ==> f as int <= e.1),
{
    q.queue.min_priority()
}

/// Relies on bucket_queue's Queue::max_priority: the greatest f-cost
/// present.
#[verifier::external_body]
pub(crate) fn frontier_max_priority(q: &FrontierQueue) -> (r: Option<usize>)
    ensures
        r is None ==> frontier_entries(*q).len() == 0,
        r matches Some(f) ==> (exists|e: (int, int, int)|
            #![auto]
            frontier_entries(*q).count(e) > 0 && e.1 == f as int) && (forall|e: (int, int, int)|
            frontier_entries(*q).count(e) > 0 ==> e.1 <= f as int),
{
    q.queue.max_priority()
}

} // verus!
