//! A repeating interval timer over an injected millisecond clock.
//!
//! The caller supplies `now_ms` from its own monotonic clock; the timer
//! only remembers when it last fired.

use vstd::prelude::*;

verus! {

pub struct Timer {
    last_run: u64,
    interval: u64,
}

impl Timer {
    /// When the timer last fired.
    pub closed spec fn spec_last_run(self) -> u64 {
        self.last_run
    }

    /// The configured firing interval, in milliseconds.
    pub closed spec fn spec_interval(self) -> u64 {
        self.interval
    }

    /// Milliseconds since the last firing; a clock reading from before
    /// the last firing counts as no time passed.
    pub open spec fn spec_elapsed(self, now_ms: u64) -> int {
        if now_ms >= self.spec_last_run() {
            now_ms - self.spec_last_run()
        } else {
            0
        }
    }

    /// Due at `now_ms`: a full interval has passed since the last firing.
    pub open spec fn spec_ready(self, now_ms: u64) -> bool {
        self.spec_elapsed(now_ms) >= self.spec_interval()
    }

    /// A timer that counts its first interval from `now_ms`.
    pub fn new(interval_ms: u64, now_ms: u64) -> (t: Timer)
        ensures
            t.spec_interval() == interval_ms,
            t.spec_last_run() == now_ms,
    {
        Timer { last_run: now_ms, interval: interval_ms }
    }

    /// True when the interval has elapsed, restarting the countdown from
    /// `now_ms`; false leaves the timer untouched.
    pub fn ready(&mut self, now_ms: u64) -> (r: bool)
        ensures
            r == old(self).spec_ready(now_ms),
            final(self).spec_interval() == old(self).spec_interval(),
            r ==> final(self).spec_last_run() == now_ms,
            !r ==> final(self).spec_last_run() == old(self).spec_last_run(),
    {
        let elapsed = if now_ms >= self.last_run {
            now_ms - self.last_run
        } else {
            0
        };
        if elapsed >= self.interval {
            self.last_run = now_ms;
            true
        } else {
            false
        }
    }

    /// How many milliseconds remain until the timer is due, zero if it
    /// already is.
    pub fn time_until_ready(&self, now_ms: u64) -> (r: u64)
        ensures
            self.spec_ready(now_ms) ==> r == 0,
            !self.spec_ready(now_ms) ==> r == self.spec_interval() - self.spec_elapsed(now_ms),
    {
        let elapsed = if now_ms >= self.last_run {
            now_ms - self.last_run
        } else {
            0
        };
        if elapsed >= self.interval {
            0
        } else {
            self.interval - elapsed
        }
    }
}

} // verus!
