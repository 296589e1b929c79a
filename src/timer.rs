use vstd::prelude::*;

verus! {

/// Nanoseconds in one millisecond.
pub const NANOS_PER_MILLI: u128 = 1_000_000;

/// The longest interval a timer can be given, in nanoseconds.
pub const MAX_INTERVAL_NANOS: u128 = 18_446_744_073_709_551_615 * 1_000_000;

/// A timer as numbers: its interval and the time accumulated towards it, in
/// nanoseconds.
pub struct TimerView {
    pub interval: nat,
    pub elapsed: nat,
}

impl TimerView {
    /// Whether advancing by `dt` nanoseconds reaches the interval.
    pub open spec fn fires(self, dt: u64) -> bool {
        self.elapsed + dt >= self.interval
    }

    /// The timer after advancing by `dt` nanoseconds: back to zero when it
    /// fires, however many intervals passed.
    pub open spec fn advanced(self, dt: u64) -> TimerView {
        TimerView {
            interval: self.interval,
            elapsed: if self.fires(dt) {
                0
            } else {
                (self.elapsed + dt) as nat
            },
        }
    }
}

/// A timer that fires each time its accumulated time reaches the interval and
/// then starts measuring again from zero.
///
/// Several intervals passing within one advance collapse into a single firing.
#[derive(Debug, Clone, Copy)]
pub struct RepeatingTimer {
    interval: u128,
    elapsed: u128,
}

impl RepeatingTimer {
    /// The interval, in nanoseconds.
    pub closed spec fn interval(&self) -> nat {
        self.interval as nat
    }

    /// Time accumulated since the timer last fired (or was created), in nanoseconds.
    pub closed spec fn elapsed(&self) -> nat {
        self.elapsed as nat
    }

    #[verifier::type_invariant]
    closed spec fn inv(&self) -> bool {
        &&& self.interval <= MAX_INTERVAL_NANOS
        &&& (self.elapsed < self.interval || self.elapsed == 0)
    }

    pub open spec fn view(&self) -> TimerView {
        TimerView { interval: self.interval(), elapsed: self.elapsed() }
    }

    /// A timer with the given interval in milliseconds, nothing accumulated yet.
    pub fn from_millis(millis: u64) -> (t: Self)
        ensures
            t.interval() == millis as nat * 1_000_000,
            t.elapsed() == 0,
    {
        let interval: u128 = (millis as u128) * NANOS_PER_MILLI;
        RepeatingTimer { interval, elapsed: 0 }
    }

    pub fn interval_nanos(&self) -> (r: u128)
        ensures
            r == self.interval(),
    {
        self.interval
    }

    pub fn elapsed_nanos(&self) -> (r: u128)
        ensures
            r == self.elapsed(),
    {
        self.elapsed
    }

    /// Adds `dt` nanoseconds. Returns whether the interval was reached; if so
    /// the accumulated time restarts from zero, however many intervals passed.
    pub fn advance(&mut self, dt: u64) -> (fired: bool)
        ensures
            fired == old(self)@.fires(dt),
            final(self)@ == old(self)@.advanced(dt),
    {
        proof {
            use_type_invariant(&*self);
        }
        let total: u128 = self.elapsed + (dt as u128);
        if total >= self.interval {
            self.elapsed = 0;
            true
        } else {
            self.elapsed = total;
            false
        }
    }
}

} // verus!
