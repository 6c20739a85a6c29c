//! When the background flusher works, waits and stops.

use vstd::prelude::*;

verus! {

/// Milliseconds before the first retry of a failed flush.
pub const RETRY_MIN: u64 = 50;

/// Milliseconds that a retry waits at most.
pub const RETRY_MAX: u64 = 5000;

/// How an attempt to flush went.
pub enum Outcome {
    /// A table was flushed.
    Flushed,
    /// There was nothing to flush.
    Idle,
    /// The flush failed.
    Failed,
}

/// What the flusher does next.
pub enum Next {
    /// Try to flush again at once.
    Flush,
    /// Wait until there is something to flush or the store is shut down.
    Wait,
    /// Wait this many milliseconds, then try again.
    Retry(u64),
    /// Stop.
    Stop,
}

/// The flusher between two attempts.
pub struct Flusher {
    retry: u64,
}

/// The wait after one of `ms` milliseconds: twice as long, up to the limit.
pub open spec fn doubled(ms: u64) -> u64 {
    if 2 * ms > RETRY_MAX {
        RETRY_MAX
    } else {
        (2 * ms) as u64
    }
}

impl Flusher {
    /// Milliseconds that the next retry waits.
    pub closed spec fn wait(&self) -> u64 {
        self.retry
    }

    /// The wait is within its limits.
    pub closed spec fn wf(&self) -> bool {
        RETRY_MIN <= self.retry <= RETRY_MAX
    }

    /// Whatever happened, the next retry waits at least the shortest and at most the
    /// longest time.
    pub proof fn law_wait_is_bounded(&self)
        requires
            self.wf(),
        ensures
            RETRY_MIN <= self.wait() <= RETRY_MAX,
    {
    }

    /// A flusher that has not failed yet.
    pub fn new() -> (r: Self)
        ensures
            r.wf(),
            r.wait() == RETRY_MIN,
            r.wait() == 50,
    {
        Flusher { retry: RETRY_MIN }
    }

    /// What to do after an attempt. A success resets the wait, each failure
    /// doubles it. The flusher stops once the store is shut down and there is
    /// nothing left that can be flushed.
    pub fn next(&mut self, outcome: Outcome, shutdown: bool) -> (r: Next)
        requires
            old(self).wf(),
        ensures
            final(self).wf(),
            match outcome {
                Outcome::Flushed => r == Next::Flush && final(self).wait() == RETRY_MIN,
                Outcome::Idle => final(self).wait() == old(self).wait() && r == (if shutdown {
                    Next::Stop
                } else {
                    Next::Wait
                }),
                Outcome::Failed => if shutdown {
                    r == Next::Stop && final(self).wait() == old(self).wait()
                } else {
                    r == Next::Retry(old(self).wait()) && final(self).wait() == doubled(
                        old(self).wait(),
                    )
                },
            },
            outcome is Flushed ==> final(self).wait() == 50,
            outcome is Failed && !shutdown ==> final(self).wait() == (if 2 * old(self).wait()
                > 5000 {
                5000
            } else {
                2 * old(self).wait()
            }),
    {
        match outcome {
            Outcome::Flushed => {
                self.retry = RETRY_MIN;
                Next::Flush
            },
            Outcome::Idle => {
                if shutdown {
                    Next::Stop
                } else {
                    Next::Wait
                }
            },
            Outcome::Failed => {
                if shutdown {
                    return Next::Stop;
                }
                let ms: u64 = self.retry;
                self.retry = if ms * 2 > RETRY_MAX {
                    RETRY_MAX
                } else {
                    ms * 2
                };
                Next::Retry(ms)
            },
        }
    }
}

} // verus!
