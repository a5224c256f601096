//! The admission controller: a counting semaphore that bounds concurrent
//! origin requests. Acquisition never waits; a saturated controller reports
//! rejection and the request falls back to the cache.

use vstd::prelude::*;

verus! {

/// A counting semaphore over plain state. The runtime wraps it in its own
/// synchronisation; the accounting here is the admission rule itself.
pub struct AdmissionController {
    available: usize,
    max_permits: usize,
}

impl AdmissionController {
    /// How many permits are free.
    pub closed spec fn available(&self) -> nat {
        self.available as nat
    }

    /// The concurrency bound the controller was created with.
    pub closed spec fn max_permits(&self) -> nat {
        self.max_permits as nat
    }

    /// Permits never exceed the bound.
    pub closed spec fn wf(&self) -> bool {
        self.available <= self.max_permits
    }

    /// A controller with all permits free.
    pub fn new(max_concurrent_requests: usize) -> (r: Self)
        ensures
            r.wf(),
            r.max_permits() == max_concurrent_requests,
            r.available() == max_concurrent_requests,
    {
        AdmissionController { available: max_concurrent_requests, max_permits: max_concurrent_requests }
    }

    /// Takes a permit without waiting; a saturated controller refuses.
    pub fn try_acquire(&mut self) -> (acquired: bool)
        requires
            old(self).wf(),
        ensures
            final(self).wf(),
            final(self).max_permits() == old(self).max_permits(),
            acquired == (old(self).available() > 0),
            acquired ==> final(self).available() == old(self).available() - 1,
            !acquired ==> final(self).available() == old(self).available(),
    {
        if self.available > 0 {
            self.available = self.available - 1;
            true
        } else {
            false
        }
    }

    /// Returns a permit; held permits never exceed the bound, so a release
    /// beyond it is ignored.
    pub fn release(&mut self)
        requires
            old(self).wf(),
        ensures
            final(self).wf(),
            final(self).max_permits() == old(self).max_permits(),
            old(self).available() < old(self).max_permits() ==> final(self).available() == old(
                self,
            ).available() + 1,
            old(self).available() == old(self).max_permits() ==> final(self).available() == old(
                self,
            ).available(),
    {
        if self.available < self.max_permits {
            self.available = self.available + 1;
        }
    }
}

} // verus!
