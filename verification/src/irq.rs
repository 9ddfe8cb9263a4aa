//! The periodic timer interrupt: when the next one is due.
use vstd::prelude::*;

verus! {

/// Timer interrupts per second.
pub const TICKS_PER_SEC: u64 = 10;

/// Nanoseconds per second.
pub const NANOS_PER_SEC: u64 = 1_000_000_000;

/// The period of the timer interrupt, in nanoseconds.
pub const PERIODIC_INTERVAL_NANOS: u64 = NANOS_PER_SEC / TICKS_PER_SEC;

/// The deadline to set the timer to when its interrupt is taken at `now`,
/// given the deadline `next_deadline` planned before: that one, unless it
/// has passed, in which case one period from now. The planned deadline
/// moves one period past the one returned, so that deadlines keep a steady
/// pace and never lie in the past.
pub fn dispatch_irq_common(next_deadline: &mut u64, now: u64) -> (r: u64)
    requires
        now + 2 * PERIODIC_INTERVAL_NANOS <= u64::MAX,
        *old(next_deadline) + PERIODIC_INTERVAL_NANOS <= u64::MAX,
    ensures
        r == (if now >= *old(next_deadline) { now + PERIODIC_INTERVAL_NANOS } else { *old(next_deadline) as int }),
        r > now,
        *final(next_deadline) == r + PERIODIC_INTERVAL_NANOS,
{
    let mut deadline = *next_deadline;
    if now >= deadline {
        deadline = now + PERIODIC_INTERVAL_NANOS;
    }
    *next_deadline = deadline + PERIODIC_INTERVAL_NANOS;
    deadline
}

} // verus!
