//! The queue of the propagators that are waiting to run.

use vstd::prelude::*;
use crate::identifiers::PropagatorId;

verus! {

/// A propagator in the queue, with the priority with which it was enqueued.
#[derive(Clone, Copy, Debug, PartialEq, Eq, Structural)]
pub struct QueuedPropagator {
    pub propagator: PropagatorId,
    pub priority: u32,
}

/// Whether `queue` holds `propagator`.
pub open spec fn is_queued(queue: Seq<QueuedPropagator>, propagator: PropagatorId) -> bool {
    exists|k: int| 0 <= k < queue.len() && (#[trigger] queue[k]).propagator == propagator
}

/// Whether position `k` holds the propagator that runs next: none has a
/// lower priority value, and none before it has the same.
pub open spec fn is_next(queue: Seq<QueuedPropagator>, k: int) -> bool {
    &&& 0 <= k < queue.len()
    &&& (forall|t: int| 0 <= t < queue.len() ==> queue[k].priority <= (#[trigger] queue[t]).priority)
    &&& (forall|t: int| 0 <= t < k ==> queue[k].priority < (#[trigger] queue[t]).priority)
}

/// The propagators that are waiting to run. The one with the lowest
/// priority value runs first; among those of one priority, the one that has
/// waited longest. No propagator waits twice.
#[derive(Debug, Default)]
pub struct PropagatorQueue {
    entries: Vec<QueuedPropagator>,
}

impl View for PropagatorQueue {
    type V = Seq<QueuedPropagator>;

    /// The waiting propagators in the order in which they were enqueued.
    closed spec fn view(&self) -> Seq<QueuedPropagator> {
        self.entries@
    }
}

impl PropagatorQueue {
    pub fn new() -> (r: PropagatorQueue)
        ensures
            r@ == Seq::<QueuedPropagator>::empty(),
    {
        PropagatorQueue { entries: Vec::new() }
    }

    pub fn is_empty(&self) -> (r: bool)
        ensures
            r == (self@.len() == 0),
    {
        self.entries.len() == 0
    }

    pub fn len(&self) -> (r: usize)
        ensures
            r == self@.len(),
    {
        self.entries.len()
    }

    pub fn clear(&mut self)
        ensures
            final(self)@ == Seq::<QueuedPropagator>::empty(),
    {
        self.entries.clear();
    }

    pub fn is_propagator_enqueued(&self, propagator: PropagatorId) -> (r: bool)
        ensures
            r == is_queued(self@, propagator),
    {
        let mut k: usize = 0;
        while k < self.entries.len()
            invariant
                k <= self.entries.len(),
                forall|t: int| 0 <= t < k ==> (#[trigger] self.entries@[t]).propagator != propagator,
            decreases self.entries.len() - k,
        {
            if self.entries[k].propagator == propagator {
                return true;
            }
            k += 1;
        }
        false
    }

    /// Puts `propagator` at the end of the queue, unless it is waiting
    /// already.
    pub fn enqueue_propagator(&mut self, propagator: PropagatorId, priority: u32)
        ensures
            final(self)@ == if is_queued(old(self)@, propagator) {
                old(self)@
            } else {
                old(self)@.push(QueuedPropagator { propagator, priority })
            },
    {
        if !self.is_propagator_enqueued(propagator) {
            self.entries.push(QueuedPropagator { propagator, priority });
        }
    }

    /// Takes the propagator that runs next out of the queue.
    pub fn pop(&mut self) -> (r: Option<PropagatorId>)
        ensures
            r is None <==> old(self)@.len() == 0,
            r is None ==> final(self)@ == old(self)@,
            r matches Some(propagator) ==> exists|k: int|
                is_next(old(self)@, k) && #[trigger] old(self)@[k].propagator == propagator
                    && final(self)@ == old(self)@.remove(k),
    {
        if self.entries.len() == 0 {
            return None;
        }
        let mut best: usize = 0;
        let mut k: usize = 1;
        while k < self.entries.len()
            invariant
                0 <= best < k <= self.entries.len(),
                forall|t: int|
                    0 <= t < k ==> self.entries@[best as int].priority <= (
                    #[trigger] self.entries@[t]).priority,
                forall|t: int|
                    0 <= t < best ==> self.entries@[best as int].priority < (
                    #[trigger] self.entries@[t]).priority,
            decreases self.entries.len() - k,
        {
            if self.entries[k].priority < self.entries[best].priority {
                best = k;
            }
            k += 1;
        }
        let entry = self.entries.remove(best);
        proof {
            assert(is_next(old(self)@, best as int));
        }
        Some(entry.propagator)
    }
}

} // verus!
