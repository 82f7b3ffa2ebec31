//! The queue of token pairs by priority, a `PriorityQueue` of the
//! `priority_queue` crate.

use vstd::prelude::*;

use priority_queue::PriorityQueue;

use crate::tokenizer::pair_ordering::ranks_below;

verus! {

#[verifier::external_type_specification]
#[verifier::external_body]
#[verifier::reject_recursive_types(I)]
#[verifier::reject_recursive_types(P)]
#[verifier::reject_recursive_types(H)]
pub struct ExPriorityQueue<I, P, H>(PriorityQueue<I, P, H>);

/// A pair of token ids.
pub type TokenPair = (usize, usize);

/// A priority: a count, then the pair it belongs to.
pub type PairPriority = (u32, TokenPair);

/// The queue of the training loop.
pub type PairQueue = PriorityQueue<TokenPair, PairPriority>;

/// The pairs in a queue, each with its priority.
pub uninterp spec fn queue_contents(q: PairQueue) -> Map<TokenPair, PairPriority>;

/// `PriorityQueue::with_capacity`: an empty queue.
#[verifier::external_body]
pub(crate) fn queue_new(capacity: usize) -> (r: PairQueue)
    ensures
        queue_contents(r) =~= Map::empty(),
{
    PriorityQueue::with_capacity(capacity)
}

/// `PriorityQueue::push`: `item` gets `priority`, in place of the one it
/// had, which is returned.
#[verifier::external_body]
pub(crate) fn queue_push(
    q: &mut PairQueue,
    item: TokenPair,
    priority: PairPriority,
) -> (r: Option<PairPriority>)
    ensures
        queue_contents(*final(q)) == queue_contents(*old(q)).insert(item, priority),
        r == (if queue_contents(*old(q)).contains_key(item) {
            Some(queue_contents(*old(q))[item])
        } else {
            None
        }),
{
    q.push(item, priority)
}

/// `PriorityQueue::pop`: takes out an item of greatest priority (by the
/// tuple order: count, then pair), or `None` when the queue is empty.
#[verifier::external_body]
pub(crate) fn queue_pop(q: &mut PairQueue) -> (r: Option<(TokenPair, PairPriority)>)
    ensures
        match r {
            None => queue_contents(*old(q)) == Map::<TokenPair, PairPriority>::empty()
                && queue_contents(*final(q)) == queue_contents(*old(q)),
            Some((item, p)) => {
                &&& queue_contents(*old(q)).contains_key(item)
                &&& queue_contents(*old(q))[item] == p
                &&& queue_contents(*final(q)) == queue_contents(*old(q)).remove(item)
                &&& forall|j: TokenPair|
                    #[trigger] queue_contents(*old(q)).contains_key(j) ==> !ranks_below(
                        p,
                        queue_contents(*old(q))[j],
                    )
            },
        },
{
    q.pop()
}

/// Lowers the count of a priority by `by`, wrapping below zero as `-=` does
/// in a release build.
pub fn lower_count(p: &mut PairPriority, by: u32)
    ensures
        final(p).1 == old(p).1,
        final(p).0 == (if old(p).0 >= by {
            old(p).0 - by
        } else {
            old(p).0 + 0x1_0000_0000 - by
        }),
{
    if p.0 >= by {
        p.0 = p.0 - by;
    } else {
        p.0 = ((p.0 as u64 + 0x1_0000_0000u64) - by as u64) as u32;
    }
}

/// The queue contents `c` with the count of `item` lowered by `by`,
/// wrapping below zero, when `item` is there.
pub open spec fn lowered_in(c: Map<TokenPair, PairPriority>, item: TokenPair, by: u32) -> Map<
    TokenPair,
    PairPriority,
> {
    if c.contains_key(item) {
        c.insert(
            item,
            (
                if c[item].0 >= by {
                    (c[item].0 - by) as u32
                } else {
                    (c[item].0 + 0x1_0000_0000 - by) as u32
                },
                c[item].1,
            ),
        )
    } else {
        c
    }
}

/// `PriorityQueue::change_priority_by` with `lower_count`: when `item` is
/// in the queue its count is lowered by `by`; `false` when it is not.
#[verifier::external_body]
pub(crate) fn queue_lower(
    q: &mut PairQueue,
    item: &TokenPair,
    by: u32,
) -> (r: bool)
    ensures
        r == queue_contents(*old(q)).contains_key(*item),
        queue_contents(*final(q)) == lowered_in(queue_contents(*old(q)), *item, by),
{
    q.change_priority_by(item, |p| lower_count(p, by))
}

} // verus!
