//! Timing-related structures.
//!
//! The clock is owned by the caller: every method that depends on the current
//! time takes it as an explicit `now` argument (milliseconds on a monotonic
//! scale), so the behaviour of tickers and timeouts is fully specified.

use vstd::prelude::*;

verus! {

/// Encapsulates calling a function every so often.
pub struct Ticker {
    pub last: u64,
    pub timeout: u64,
}

impl Ticker {
    pub fn new(period: u64, now: u64) -> (r: Ticker)
        ensures
            r.last == now,
            r.timeout == period,
    {
        Ticker { last: now, timeout: period }
    }

    /// Report whether the period has elapsed since the last firing; if so,
    /// the tick is recorded, and the caller should do the periodic work.
    pub fn tick(&mut self, now: u64) -> (due: bool)
        ensures
            due == (now >= old(self).last && now - old(self).last >= old(self).timeout),
            due ==> *final(self) == (Ticker { last: now, timeout: old(self).timeout }),
            !due ==> *final(self) == *old(self),
    {
        if now >= self.last && now - self.last >= self.timeout {
            self.last = now;
            true
        } else {
            false
        }
    }
}

#[derive(Clone, Copy, Debug, PartialEq, Eq, Structural)]
pub enum TimeoutState {
    Active,
    Inactive,
    Expired,
}

/// A timer that expires after a given duration.
/// Check back on this timer every so often to see if it's expired.
#[derive(Clone, Copy, Debug, PartialEq, Eq, Structural)]
pub struct Timeout {
    pub state: TimeoutState,
    pub duration: u64,
    pub start: u64,
}

/// The timeout as `check_expired` leaves it when called at time `now`:
/// an active timer whose duration has passed becomes expired, anything
/// else is unchanged.
pub open spec fn spec_check(t: Timeout, now: u64) -> Timeout {
    if t.state == TimeoutState::Active && now > t.start && now - t.start > t.duration {
        Timeout { state: TimeoutState::Expired, duration: t.duration, start: t.start }
    } else {
        t
    }
}

/// The timeout as `start` leaves it when called at time `now`.
pub open spec fn spec_started(t: Timeout, now: u64) -> Timeout {
    Timeout { state: TimeoutState::Active, duration: t.duration, start: now }
}

impl Timeout {
    pub fn new(duration: u64, now: u64) -> (r: Timeout)
        ensures
            r == (Timeout { state: TimeoutState::Inactive, duration, start: now }),
    {
        Timeout { state: TimeoutState::Inactive, duration, start: now }
    }

    /// Update the timer state, and check if the timer is expired.
    pub fn check_expired(&mut self, now: u64) -> (r: bool)
        ensures
            *final(self) == spec_check(*old(self), now),
            r == (spec_check(*old(self), now).state == TimeoutState::Expired),
    {
        if self.state == TimeoutState::Active && now > self.start && now - self.start > self.duration {
            self.state = TimeoutState::Expired;
        }
        match self.state {
            TimeoutState::Active | TimeoutState::Inactive => false,
            TimeoutState::Expired => true,
        }
    }

    pub fn start(&mut self, now: u64)
        ensures
            *final(self) == spec_started(*old(self), now),
    {
        self.state = TimeoutState::Active;
        self.start = now;
    }

    pub fn stop(&mut self, now: u64)
        ensures
            *final(self) == (Timeout {
                state: TimeoutState::Inactive,
                duration: old(self).duration,
                start: now,
            }),
    {
        self.state = TimeoutState::Inactive;
        self.start = now;
    }

    pub fn is_active(&self) -> (r: bool)
        ensures
            r == (self.state == TimeoutState::Active),
    {
        match self.state {
            TimeoutState::Active => true,
            _ => false,
        }
    }
}

/// Once `check_expired` reports expiry, every later check reports it again,
/// whatever time it is made at, until `start` resets the timer.
pub proof fn lemma_check_expired_monotone(t: Timeout, now1: u64, now2: u64)
    ensures
        spec_check(t, now1).state == TimeoutState::Expired
            ==> spec_check(spec_check(t, now1), now2).state == TimeoutState::Expired,
{
}

/// A timeout checked within its duration of a fresh `start` does not
/// report expiry; in particular a check made right after `start` reports
/// `false`.
pub proof fn lemma_started_not_expired(t: Timeout, started_at: u64, checked_at: u64)
    requires
        started_at <= checked_at,
        checked_at - started_at <= t.duration,
    ensures
        spec_check(spec_started(t, started_at), checked_at).state != TimeoutState::Expired,
{
}

/// The delay that follows `delay` in an exponential backoff capped at `max`:
/// doubled (saturating) while below the cap, then held.
pub open spec fn spec_next_retry_delay(delay: u64, max: u64) -> u64 {
    if delay < max {
        let doubled: int = if 2 * delay > u64::MAX { u64::MAX as int } else { 2 * delay };
        if doubled > max {
            max
        } else {
            doubled as u64
        }
    } else {
        delay
    }
}

/// One step of the exponential backoff used when retrying a fallible
/// operation: the caller sleeps `delay`, then retries with the returned
/// delay.
pub fn next_retry_delay(delay: u64, max: u64) -> (r: u64)
    ensures
        r == spec_next_retry_delay(delay, max),
{
    if delay < max {
        let doubled: u64 = if delay > u64::MAX / 2 { u64::MAX } else { 2 * delay };
        if doubled > max {
            max
        } else {
            doubled
        }
    } else {
        delay
    }
}

} // verus!
