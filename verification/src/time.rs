//! Simulated clock values, stored as whole milliseconds.
//!
//! A `Time` is a non-negative 32-bit millisecond counter.  Addition
//! saturates at the largest representable value instead of wrapping, and
//! subtraction reports an underflow instead of producing a negative
//! value.  The largest value doubles as the "has not happened yet"
//! sentinel: a process that is still alive carries it as its death time.

use vstd::prelude::*;

verus! {

/// Saturating addition on clock values: the mathematical sum, capped at
/// the largest value a `u32` can hold.
pub open spec fn sat_add(a: int, b: int) -> int {
    if a + b <= u32::MAX {
        a + b
    } else {
        u32::MAX as int
    }
}

/// A point of (or span of) simulated time, in milliseconds.
#[derive(Debug, Clone, Copy, PartialEq, Eq, Structural)]
pub struct Time(pub u32);

/// The ways clock arithmetic can fail.
#[derive(Debug, Clone, Copy, PartialEq, Eq, Structural)]
pub enum TimeError {
    /// A subtraction would have produced a negative span.
    Underflow,
}

impl Time {
    /// The zero of the clock.
    pub fn new() -> (r: Time)
        ensures
            r.0 == 0,
    {
        Time(0)
    }

    /// A clock value holding the given number of milliseconds.
    pub fn from_miliseconds(ms: u32) -> (r: Time)
        ensures
            r.0 == ms,
    {
        Time(ms)
    }

    /// The largest clock value; used as the "not yet" sentinel.
    pub fn max() -> (r: Time)
        ensures
            r.0 == u32::MAX,
    {
        Time(u32::MAX)
    }

    /// The number of milliseconds this value holds.
    pub fn milliseconds(self) -> (r: u32)
        ensures
            r == self.0,
    {
        self.0
    }

    /// Saturating addition: the sum never wraps, it stops at the cap.
    pub fn add(self, rhs: Time) -> (r: Time)
        ensures
            r.0 == sat_add(self.0 as int, rhs.0 as int),
            r.0 >= self.0,
            r.0 >= rhs.0,
    {
        if self.0 <= u32::MAX - rhs.0 {
            Time(self.0 + rhs.0)
        } else {
            Time(u32::MAX)
        }
    }

    /// Subtraction, defined exactly when the left value is no smaller
    /// than the right one; otherwise it reports an underflow.
    pub fn subtract(self, rhs: Time) -> (r: Result<Time, TimeError>)
        ensures
            self.0 >= rhs.0 ==> r == Ok::<Time, TimeError>(Time((self.0 - rhs.0) as u32)),
            self.0 < rhs.0 ==> r == Err::<Time, TimeError>(TimeError::Underflow),
    {
        if self.0 >= rhs.0 {
            Ok(Time(self.0 - rhs.0))
        } else {
            Err(TimeError::Underflow)
        }
    }

    /// Whether this value comes strictly before another.
    pub fn is_before(self, rhs: Time) -> (r: bool)
        ensures
            r == (self.0 < rhs.0),
    {
        self.0 < rhs.0
    }
}

} // verus!
