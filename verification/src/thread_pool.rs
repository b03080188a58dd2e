//! The state of a threadpool: what its threads are to do.
use vstd::prelude::*;

verus! {

/// Tells a thread of a pool what to do next.
#[derive(Copy, Clone, Debug, PartialEq, Eq, Structural)]
pub enum PoolStep {
    /// Invoke the callback with the given number.
    Invoke(u64),
    /// Wait until the callback or the number of handles changes.
    Wait,
    /// Stop, as the pool was destroyed.
    Stop,
}

/// Stores the inner synchronization state for a threadpool.
pub struct HardwareThreadPoolInner {
    /// The number of the callback that available threads should invoke.
    callback: Option<u64>,
    /// The number of extant threadpool handles. When this number reaches zero, worker threads
    /// cancel themselves.
    handle_count: usize,
}

impl HardwareThreadPoolInner {
    /// The number of the callback that available threads should invoke, if any.
    pub closed spec fn work(&self) -> Option<u64> {
        self.callback
    }

    /// The number of extant threadpool handles.
    pub closed spec fn handles(&self) -> usize {
        self.handle_count
    }

    /// Creates the state of a threadpool with one handle and no work.
    pub fn new() -> (pool: Self)
        ensures
            pool.work() is None,
            pool.handles() == 1,
    {
        HardwareThreadPoolInner { callback: None, handle_count: 1 }
    }

    /// Joins this threadpool, attempting to complete any available work or waiting until available
    /// work changes.
    pub fn join(&self) -> (step: PoolStep)
        ensures
            step == match self.work() {
                Some(callback) => PoolStep::Invoke(callback),
                None => PoolStep::Wait,
            },
    {
        match self.callback {
            Some(callback) => PoolStep::Invoke(callback),
            None => PoolStep::Wait,
        }
    }

    /// Determines what a thread does next that is dedicated to this threadpool: it repeatedly joins
    /// with the pool until the pool is destroyed.
    pub fn run(&self) -> (step: PoolStep)
        ensures
            step == if self.handles() == 0 {
                PoolStep::Stop
            } else {
                match self.work() {
                    Some(callback) => PoolStep::Invoke(callback),
                    None => PoolStep::Wait,
                }
            },
    {
        if self.handle_count > 0 {
            self.join()
        } else {
            PoolStep::Stop
        }
    }

    /// Sets the work callback. All waiting threads must be notified.
    pub fn set_callback(&mut self, callback: Option<u64>)
        ensures
            final(self).work() == callback,
            final(self).handles() == old(self).handles(),
    {
        self.callback = callback;
    }

    /// Decrements the handle counter. All waiting threads must be notified.
    pub fn decrement_counter(&mut self)
        requires
            old(self).handles() > 0,
        ensures
            final(self).handles() == old(self).handles() - 1,
            final(self).work() == old(self).work(),
    {
        self.handle_count = self.handle_count - 1;
    }
}

} // verus!
