//! Readings of a monotonic clock, in nanoseconds.
use vstd::prelude::*;

verus! {

/// One second.
pub const SECOND: u64 = 1_000_000_000;

/// One millisecond.
pub const MILLISECOND: u64 = 1_000_000;

/// The time from one reading to a later one; none where the second is not later.
pub open spec fn since(then: u64, now: u64) -> nat {
    if now >= then {
        (now - then) as nat
    } else {
        0
    }
}

/// The time from the reading `then` to the reading `now`.
pub fn elapsed(then: u64, now: u64) -> (time: u64)
    ensures
        time == since(then, now),
{
    if now >= then {
        now - then
    } else {
        0
    }
}

/// Time runs forward: what has passed since a reading brings it up to a later one, and nothing has
/// passed before it.
pub proof fn law_time_passes(then: u64, now: u64)
    ensures
        now >= then ==> then + since(then, now) == now,
        now < then ==> since(then, now) == 0,
{
}

} // verus!
