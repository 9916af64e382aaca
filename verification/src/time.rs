//! Points and lengths of time.

use vstd::prelude::*;

verus! {

/// A point in time since the start of the trace, or a length of time, in nanoseconds.
pub type Time = u128;

/// The latest time a sample may carry: the largest span `std::time::Duration` holds.
pub const MAX_TIME: u128 = 18_446_744_073_709_551_615_999_999_999;

/// Later than every time a sample may carry.
pub const FOREVER: u128 = 340_282_366_920_938_463_463_374_607_431_768_211_455;

/// The closed interval `[start, end]` a temporal operator looks ahead over.
#[derive(Debug, Clone, Copy, PartialEq, Eq, Structural)]
pub struct TimeInterval {
    pub start: Time,
    pub end: Time,
}

pub open spec fn min_time(a: Time, b: Time) -> Time {
    if a <= b {
        a
    } else {
        b
    }
}

pub open spec fn max_time(a: Time, b: Time) -> Time {
    if a <= b {
        b
    } else {
        a
    }
}

/// `a - b`, or zero where `b` is the longer one.
pub open spec fn minus(a: Time, b: Time) -> Time {
    if a >= b {
        (a - b) as Time
    } else {
        0
    }
}

pub fn earlier(a: Time, b: Time) -> (res: Time)
    ensures
        res == min_time(a, b),
{
    if a <= b {
        a
    } else {
        b
    }
}

pub fn later(a: Time, b: Time) -> (res: Time)
    ensures
        res == max_time(a, b),
{
    if a <= b {
        b
    } else {
        a
    }
}

pub fn saturating_minus(a: Time, b: Time) -> (res: Time)
    ensures
        res == minus(a, b),
{
    if a >= b {
        a - b
    } else {
        0
    }
}

} // verus!
