//! Spans of time.

use vstd::prelude::*;

verus! {

const NANOS_PER_MILLI: u128 = 1_000_000;

const NANOS_PER_SEC: u128 = 1_000_000_000;

/// The longest span: as many whole seconds as fit in sixty-four bits, and the rest of one second.
pub const LONGEST_NANOS: u128 = 18_446_744_073_709_551_615_999_999_999;

/// A span of time in nanoseconds.
#[derive(Clone, Copy, Debug, PartialEq, Eq, PartialOrd, Ord, Structural)]
pub struct Duration {
    nanos: u128,
}

impl View for Duration {
    type V = nat;

    /// The span in nanoseconds.
    closed spec fn view(&self) -> nat {
        self.nanos as nat
    }
}

/// A span in whole milliseconds, cut to sixty-four bits.
pub open spec fn millis(nanos: nat) -> nat {
    if nanos / 1_000_000 <= u64::MAX {
        nanos / 1_000_000
    } else {
        u64::MAX as nat
    }
}

pub open spec fn capped_nanos(nanos: nat) -> nat {
    if nanos <= LONGEST_NANOS {
        nanos
    } else {
        LONGEST_NANOS as nat
    }
}

impl Duration {
    pub fn from_secs(secs: u64) -> (r: Duration)
        ensures
            r@ == secs * 1_000_000_000,
    {
        Duration { nanos: secs as u128 * NANOS_PER_SEC }
    }

    pub fn from_millis(millis: u64) -> (r: Duration)
        ensures
            r@ == millis * 1_000_000,
    {
        Duration { nanos: millis as u128 * NANOS_PER_MILLI }
    }

    pub fn as_millis(&self) -> (r: u128)
        ensures
            r == self@ / 1_000_000,
            r <= u128::MAX / 1_000_000,
    {
        self.nanos / NANOS_PER_MILLI
    }

    /// The whole milliseconds, or the largest number where they do not fit.
    pub fn millis(&self) -> (r: u64)
        ensures
            r == millis(self@),
    {
        let whole: u128 = self.nanos / NANOS_PER_MILLI;
        if whole <= u64::MAX as u128 {
            whole as u64
        } else {
            u64::MAX
        }
    }

    pub fn saturating_add(&self, other: Duration) -> (r: Duration)
        ensures
            r@ == capped_nanos(self@ + other@),
    {
        if self.nanos > LONGEST_NANOS || other.nanos > LONGEST_NANOS - self.nanos {
            Duration { nanos: LONGEST_NANOS }
        } else {
            Duration { nanos: self.nanos + other.nanos }
        }
    }

    pub fn half(&self) -> (r: Duration)
        ensures
            r@ == self@ / 2,
    {
        Duration { nanos: self.nanos / 2 }
    }

    /// The longer of two spans.
    pub fn longer(self, other: Duration) -> (r: Duration)
        ensures
            r@ == if other@ >= self@ {
                other@
            } else {
                self@
            },
    {
        if other.nanos >= self.nanos {
            other
        } else {
            self
        }
    }

    pub fn shorter_than_nanos(&self, nanos: u128) -> (r: bool)
        ensures
            r == (nanos > self@),
    {
        nanos > self.nanos
    }

    pub fn exceeds(&self, other: Duration) -> (r: bool)
        ensures
            r == (self@ > other@),
    {
        self.nanos > other.nanos
    }
}

} // verus!
