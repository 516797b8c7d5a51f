//! Waiting times.
use vstd::prelude::*;

verus! {

/// Nanoseconds in a second.
pub const NANOS_PER_SEC: u128 = 1_000_000_000;

/// Nanoseconds in a millisecond.
pub const NANOS_PER_MILLI: u128 = 1_000_000;

/// Longest waiting time: all seconds of 64 bits and the nanoseconds short of one more.
pub const MAX_NANOS: u128 = 18_446_744_073_709_551_615_999_999_999;

/// A span of time, in nanoseconds.
#[derive(Debug, Clone, Copy, PartialEq, Eq, PartialOrd, Ord, Structural)]
pub struct Delay {
    /// Length in nanoseconds.
    pub nanos: u128,
}

impl Delay {
    /// No wait at all.
    pub fn zero() -> (delay: Delay)
        ensures
            delay.nanos == 0,
    {
        Delay { nanos: 0 }
    }

    /// A wait of whole seconds.
    pub fn from_secs(secs: u64) -> (delay: Delay)
        ensures
            delay.nanos == secs * NANOS_PER_SEC,
            delay.nanos <= MAX_NANOS,
    {
        Delay { nanos: secs as u128 * NANOS_PER_SEC }
    }

    /// A wait of whole milliseconds.
    pub fn from_millis(millis: u64) -> (delay: Delay)
        ensures
            delay.nanos == millis * NANOS_PER_MILLI,
            delay.nanos <= MAX_NANOS,
    {
        Delay { nanos: millis as u128 * NANOS_PER_MILLI }
    }

    /// True when there is no wait.
    pub fn is_zero(&self) -> (zero: bool)
        ensures
            zero == (self.nanos == 0),
    {
        self.nanos == 0
    }

    /// The wait times a factor, at most the longest.
    pub fn saturating_mul(self, factor: u32) -> (delay: Delay)
        ensures
            delay.nanos == (if self.nanos * factor > MAX_NANOS {
                MAX_NANOS as int
            } else {
                self.nanos * factor
            }),
    {
        match self.nanos.checked_mul(factor as u128) {
            Some(nanos) => if nanos > MAX_NANOS {
                Delay { nanos: MAX_NANOS }
            } else {
                Delay { nanos }
            },
            None => Delay { nanos: MAX_NANOS },
        }
    }

    /// The shorter of two waits.
    pub fn shorter(self, other: Delay) -> (delay: Delay)
        ensures
            delay == (if other.nanos < self.nanos {
                other
            } else {
                self
            }),
    {
        if other.nanos < self.nanos {
            other
        } else {
            self
        }
    }
}

} // verus!
