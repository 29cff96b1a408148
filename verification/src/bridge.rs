//! The bounded bridge between the discovery threads and the processing
//! stage, modelled as a gauge over the two resources it rations: the
//! paths buffered in the queue (at most the queue's capacity) and the
//! processing units in flight (at most the concurrency limit).  The
//! transitions below are the only ways the counts move, so the bound
//! `queued + in_flight <= capacity + limit` can never be exceeded.

use vstd::prelude::*;

verus! {

/// The bridge's occupancy gauge.
pub struct Bridge {
    pub queued: usize,
    pub in_flight: usize,
    pub capacity: usize,
    pub limit: usize,
}

impl Bridge {
    /// Both rations are respected.
    pub open spec fn wf(&self) -> bool {
        self.queued <= self.capacity && self.in_flight <= self.limit
    }

    /// An empty bridge with the given queue capacity and concurrency
    /// limit.
    pub fn new(capacity: usize, limit: usize) -> (r: Self)
        ensures
            r.wf(),
            r.queued == 0,
            r.in_flight == 0,
            r.capacity == capacity,
            r.limit == limit,
    {
        Bridge { queued: 0, in_flight: 0, capacity, limit }
    }

    /// A producer offers a discovered path.  A full queue refuses it:
    /// the producer blocks and offers it again later, which is what
    /// throttles discovery to the speed of processing.
    pub fn try_send(&mut self) -> (ok: bool)
        requires
            old(self).wf(),
        ensures
            final(self).wf(),
            ok == (old(self).queued < old(self).capacity),
            ok ==> final(self).queued == old(self).queued + 1,
            !ok ==> final(self).queued == old(self).queued,
            final(self).in_flight == old(self).in_flight,
            final(self).capacity == old(self).capacity,
            final(self).limit == old(self).limit,
    {
        if self.queued < self.capacity {
            self.queued = self.queued + 1;
            true
        } else {
            false
        }
    }

    /// The consumer takes a buffered path and starts processing it,
    /// when a unit within the concurrency limit is free.
    pub fn try_start(&mut self) -> (ok: bool)
        requires
            old(self).wf(),
        ensures
            final(self).wf(),
            ok == (old(self).queued > 0 && old(self).in_flight < old(self).limit),
            ok ==> final(self).queued == old(self).queued - 1 && final(self).in_flight == old(
                self,
            ).in_flight + 1,
            !ok ==> final(self).queued == old(self).queued && final(self).in_flight == old(
                self,
            ).in_flight,
            final(self).capacity == old(self).capacity,
            final(self).limit == old(self).limit,
    {
        if self.queued > 0 && self.in_flight < self.limit {
            self.queued = self.queued - 1;
            self.in_flight = self.in_flight + 1;
            true
        } else {
            false
        }
    }

    /// One processing unit completes.
    pub fn finish(&mut self)
        requires
            old(self).wf(),
            old(self).in_flight > 0,
        ensures
            final(self).wf(),
            final(self).queued == old(self).queued,
            final(self).in_flight == old(self).in_flight - 1,
            final(self).capacity == old(self).capacity,
            final(self).limit == old(self).limit,
    {
        self.in_flight = self.in_flight - 1;
    }

    /// Backpressure bound: at no reachable state do the buffered and
    /// in-flight paths together exceed the queue capacity plus the
    /// concurrency limit.
    pub proof fn lemma_backpressure_bound(&self)
        requires
            self.wf(),
        ensures
            self.queued + self.in_flight <= self.capacity + self.limit,
    {
    }
}

} // verus!
