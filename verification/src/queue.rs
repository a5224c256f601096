//! The persistence queue: a bounded first-in-first-out buffer of write jobs
//! between the request path and the single durable writer. A send on a full
//! queue drops the job rather than stall request handling.

use vstd::prelude::*;

verus! {

use crate::proxy::PersistJob;

/// How many pending persistence jobs the queue holds at most.
pub const PERSIST_QUEUE_CAPACITY: usize = 100;

/// A bounded FIFO of persistence jobs.
pub struct PersistenceQueue {
    jobs: Vec<PersistJob>,
}

impl PersistenceQueue {
    /// The pending jobs, oldest first.
    pub closed spec fn view(&self) -> Seq<PersistJob> {
        self.jobs@
    }

    /// The queue never exceeds its capacity.
    pub closed spec fn wf(&self) -> bool {
        self.jobs@.len() <= PERSIST_QUEUE_CAPACITY
    }

    /// An empty queue.
    pub fn new() -> (r: Self)
        ensures
            r.wf(),
            r@ == Seq::<PersistJob>::empty(),
    {
        PersistenceQueue { jobs: Vec::new() }
    }

    /// How many jobs are pending.
    pub fn len(&self) -> (r: usize)
        ensures
            r == self@.len(),
    {
        self.jobs.len()
    }

    /// Enqueues a job unless the queue is full; a full queue drops it and
    /// reports the drop.
    pub fn try_send(&mut self, job: PersistJob) -> (accepted: bool)
        requires
            old(self).wf(),
        ensures
            final(self).wf(),
            accepted == (old(self)@.len() < PERSIST_QUEUE_CAPACITY),
            accepted ==> final(self)@ == old(self)@.push(job),
            !accepted ==> final(self)@ == old(self)@,
    {
        if self.jobs.len() < PERSIST_QUEUE_CAPACITY {
            self.jobs.push(job);
            true
        } else {
            false
        }
    }

    /// Dequeues the oldest job, if any.
    pub fn pop_front(&mut self) -> (r: Option<PersistJob>)
        requires
            old(self).wf(),
        ensures
            final(self).wf(),
            old(self)@.len() == 0 ==> r is None && final(self)@ == old(self)@,
            old(self)@.len() > 0 ==> (r matches Some(job) && job == old(self)@[0] && final(self)@
                == old(self)@.drop_first()),
    {
        if self.jobs.len() == 0 {
            None
        } else {
            let job = self.jobs.remove(0);
            proof {
                assert(self.jobs@ =~= old(self)@.drop_first());
            }
            Some(job)
        }
    }
}

} // verus!
