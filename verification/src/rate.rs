//! Admission control for probe workers: a counting permit pool of capacity
//! `max_rate` that refills when `window_duration` has elapsed since the
//! last refill. Within one window at most `max_rate` acquisitions are
//! granted.
//!
//! The waiting itself is cooperative and lives with the runtime; this is
//! the decision core: given the clock reading, either grant a permit or
//! tell the caller to wait.

use vstd::prelude::*;

verus! {

/// What the limiter tells a caller that asks for a permit.
#[derive(PartialEq, Eq, Structural, Clone, Copy, Debug)]
pub enum Admission {
    /// A permit was granted; the probe may be sent.
    Granted,
    /// No permit is left in this window; wait and ask again.
    Wait,
}

/// The limiter's state. `granted` counts the permits handed out since the
/// window began at `window_start`.
pub struct RateLimiter {
    pub max_rate: u64,
    pub window_ms: u64,
    pub window_start: i64,
    pub granted: u64,
}

impl RateLimiter {
    /// Permits never outrun the cap: this is the admission bound, the
    /// limiter's invariant.
    pub open spec fn wf(self) -> bool {
        self.granted <= self.max_rate && self.window_start >= 0
    }

    pub fn new(max_rate: u64, window_ms: u64, now: i64) -> (r: RateLimiter)
        requires
            now >= 0,
        ensures
            r.wf(),
            r.max_rate == max_rate,
            r.window_ms == window_ms,
            r.window_start == now,
            r.granted == 0,
    {
        RateLimiter { max_rate, window_ms, window_start: now, granted: 0 }
    }

    /// Whether the current window has elapsed at time `now`.
    pub open spec fn window_elapsed(self, now: i64) -> bool {
        now - self.window_start >= self.window_ms
    }

    /// Ask for a permit at time `now`. If the window has elapsed the pool
    /// refills first (a new window opens at `now`). The caller is granted
    /// exactly when the open window still has a permit left; within any one
    /// window no more than `max_rate` permits are ever granted.
    pub fn acquire(&mut self, now: i64) -> (r: Admission)
        requires
            old(self).wf(),
            now >= 0,
        ensures
            final(self).wf(),
            final(self).max_rate == old(self).max_rate,
            final(self).window_ms == old(self).window_ms,
            final(self).window_start == if old(self).window_elapsed(now) {
                now as int
            } else {
                old(self).window_start as int
            },
            ({
                let base: int = if old(self).window_elapsed(now) {
                    0
                } else {
                    old(self).granted as int
                };
                if base < old(self).max_rate {
                    r == Admission::Granted && final(self).granted == base + 1
                } else {
                    r == Admission::Wait && final(self).granted == base
                }
            }),
    {
        let elapsed = if now >= self.window_start {
            ((now - self.window_start) as u64) >= self.window_ms
        } else {
            false
        };
        if elapsed {
            self.window_start = now;
            self.granted = 0;
        }
        proof {
            assert(elapsed == old(self).window_elapsed(now));
        }
        if self.granted < self.max_rate {
            self.granted = self.granted + 1;
            Admission::Granted
        } else {
            Admission::Wait
        }
    }
}

/// The admission bound: however the limiter is driven, the permits granted
/// since the current window opened never exceed `max_rate`.
pub proof fn lemma_rate_bound(l: RateLimiter)
    requires
        l.wf(),
    ensures
        l.granted <= l.max_rate,
{
}

} // verus!
