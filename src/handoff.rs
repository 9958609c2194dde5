use crate::record::{Sequence, ThreadCommand};
use crossbeam::queue::ArrayQueue;
use crossbeam::utils::Backoff;
use vstd::prelude::*;

verus! {

#[verifier::external_type_specification]
#[verifier::external_body]
#[verifier::reject_recursive_types(T)]
pub struct ExArrayQueue<T>(ArrayQueue<T>);

#[verifier::external_type_specification]
#[verifier::external_body]
pub struct ExBackoff(Backoff);

/// The message type of the handoff queue.
pub type WorkItem = ThreadCommand<Sequence>;

/// Queue slots provided for each consumer thread.
pub const SLOTS_PER_THREAD: usize = 32;

/// The largest capacity a handoff queue can be made with.
pub const MAX_QUEUE_CAPACITY: usize = usize::MAX / 2;

/// Snooze rounds tried on a full queue before the caller is told to park.
pub const SPIN_ATTEMPTS: u32 = 16;

/// Why a handoff queue could not be made.
#[derive(Debug, Clone, Copy, PartialEq, Eq)]
pub enum QueueError {
    ZeroCapacity,
    TooLarge,
}

/// The capacity a handoff queue was made with.
pub uninterp spec fn handoff_capacity(q: ArrayQueue<WorkItem>) -> nat;

/// Relies on `ArrayQueue::new`: a queue of exactly `cap` slots. It panics
/// on a zero capacity and when one more than `cap` has no next power of two.
#[verifier::external_body]
fn make_queue(cap: usize) -> (r: ArrayQueue<WorkItem>)
    requires
        0 < cap <= MAX_QUEUE_CAPACITY,
    ensures
        handoff_capacity(r) == cap,
{
    ArrayQueue::new(cap)
}

/// Relies on `ArrayQueue::push`: a full queue hands the value back.
pub assume_specification<T>[ ArrayQueue::<T>::push ](q: &ArrayQueue<T>, value: T) -> (r: Result<(), T>)
    ensures
        r matches Err(v) ==> v == value,
;

/// Relies on `Backoff::new`.
pub assume_specification[ Backoff::new ]() -> Backoff;

/// Relies on `Backoff::snooze`: it spins, then yields, a little longer on
/// each call.
pub assume_specification[ Backoff::snooze ](b: &Backoff);

/// Relies on `Backoff::is_completed`: whether snoozing has gone on long
/// enough that blocking is advised. It depends on the backoff's hidden step.
pub assume_specification[ Backoff::is_completed ](b: &Backoff) -> bool;

/// The queue size for a number of consumer threads: `SLOTS_PER_THREAD` slots
/// each, or `None` when that product overflows or is zero.
pub fn handoff_queue_size(threads: usize) -> (r: Option<usize>)
    ensures
        r is Some <==> 0 < threads * SLOTS_PER_THREAD <= usize::MAX,
        r matches Some(n) ==> n == threads * SLOTS_PER_THREAD,
{
    if threads == 0 || threads > usize::MAX / SLOTS_PER_THREAD {
        None
    } else {
        Some(threads * SLOTS_PER_THREAD)
    }
}

/// Makes the bounded handoff queue, or says why a queue of this capacity
/// cannot be made.
pub fn new_handoff_queue(capacity: usize) -> (r: Result<ArrayQueue<WorkItem>, QueueError>)
    ensures
        r == Err::<ArrayQueue<WorkItem>, QueueError>(QueueError::ZeroCapacity) <==> capacity == 0,
        r == Err::<ArrayQueue<WorkItem>, QueueError>(QueueError::TooLarge) <==> capacity
            > MAX_QUEUE_CAPACITY,
        r matches Ok(q) ==> handoff_capacity(q) == capacity,
{
    if capacity == 0 {
        Err(QueueError::ZeroCapacity)
    } else if capacity > MAX_QUEUE_CAPACITY {
        Err(QueueError::TooLarge)
    } else {
        Ok(make_queue(capacity))
    }
}

/// What follows one attempt to push onto the handoff queue.
#[derive(Debug, PartialEq, Eq)]
pub enum PushStep {
    /// The queue took the item.
    Accepted,
    /// The queue was full: snooze and offer the item again.
    Retry(WorkItem),
    /// The queue was full and spinning is over: the item goes back to the
    /// caller, which blocks before offering it again.
    GiveBack(WorkItem),
}

/// The spin half of spin-then-park: given what a push returned, how many
/// snooze rounds have been spent and whether the backoff is exhausted,
/// decides whether to stop, retry, or hand the item back.
pub fn after_push(res: Result<(), WorkItem>, attempts: u32, completed: bool) -> (r: PushStep)
    ensures
        res is Ok ==> r is Accepted,
        res matches Err(v) ==> r == (if attempts >= SPIN_ATTEMPTS || completed {
            PushStep::GiveBack(v)
        } else {
            PushStep::Retry(v)
        }),
{
    match res {
        Ok(()) => PushStep::Accepted,
        Err(v) => {
            if attempts >= SPIN_ATTEMPTS || completed {
                PushStep::GiveBack(v)
            } else {
                PushStep::Retry(v)
            }
        },
    }
}

/// Offers an item to the queue, snoozing between attempts while the queue is
/// full; after each push, `after_push` decides what comes next. Returns `Ok`
/// once the queue has taken the item; when the backoff is exhausted first,
/// the item comes back unchanged so that the caller can block and offer it
/// again. No item is ever dropped.
pub fn publish(queue: &ArrayQueue<WorkItem>, item: WorkItem, backoff: &Backoff) -> (r: Result<
    (),
    WorkItem,
>)
    ensures
        r matches Err(back) ==> back == item,
{
    let mut pending = item;
    let mut attempts: u32 = 0;
    loop
        invariant
            pending == item,
            attempts <= SPIN_ATTEMPTS,
        decreases SPIN_ATTEMPTS - attempts,
    {
        let res = queue.push(pending);
        let completed = match &res {
            Ok(()) => false,
            Err(_) => backoff.is_completed(),
        };
        match after_push(res, attempts, completed) {
            PushStep::Accepted => {
                return Ok(());
            },
            PushStep::GiveBack(back) => {
                return Err(back);
            },
            PushStep::Retry(back) => {
                backoff.snooze();
                attempts = attempts + 1;
                pending = back;
            },
        }
    }
}

} // verus!
