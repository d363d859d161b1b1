//! Time as the caller tells it: nanoseconds from some fixed start, and lengths of time in
//! nanoseconds.

use vstd::prelude::*;

verus! {

/// A moment, in nanoseconds from a start that does not change while the program runs.
pub type Instant = u64;

/// A length of time, in nanoseconds.
pub type Duration = u64;

/// One millisecond.
pub const MILLI: Duration = 1_000_000;

/// One second.
pub const SECOND: Duration = 1_000_000_000;

/// The moment `by` after `t`, held at the last moment there is.
pub open spec fn later(t: Instant, by: Duration) -> Instant {
    if t + by <= u64::MAX {
        (t + by) as u64
    } else {
        u64::MAX
    }
}

/// Twice as long, held at the longest length there is.
pub open spec fn twice(length: Duration) -> Duration {
    later(length, length)
}

/// How long after `since` the moment `now` is; nothing if it is not after it.
pub open spec fn passed(now: Instant, since: Instant) -> Duration {
    if now >= since {
        (now - since) as u64
    } else {
        0
    }
}

/// The moment `by` after `t`.
pub(crate) fn after(t: Instant, by: Duration) -> (r: Instant)
    ensures
        r == later(t, by),
{
    t.saturating_add(by)
}

/// Twice as long.
pub(crate) fn doubled(length: Duration) -> (r: Duration)
    ensures
        r == twice(length),
{
    length.saturating_add(length)
}

/// How long after `since` the moment `now` is.
pub(crate) fn elapsed(now: Instant, since: Instant) -> (r: Duration)
    ensures
        r == passed(now, since),
{
    now.saturating_sub(since)
}

/// A moment reached by waiting is that much later; and what is left until a moment is exactly
/// what has to be waited to reach it.
pub proof fn law_waiting_reaches_the_moment(t: Instant, by: Duration, until: Instant)
    ensures
        t + by <= u64::MAX ==> later(t, by) == t + by && passed(later(t, by), t) == by,
        later(t, by) >= t,
        until >= t ==> t + passed(until, t) == until,
        until <= t ==> passed(until, t) == 0,
        2 * by <= u64::MAX ==> twice(by) == 2 * by,
{
}

} // verus!
