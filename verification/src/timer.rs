//! The generic timer: converting between counter ticks and nanoseconds, and
//! what the timer interrupt does.
use vstd::prelude::*;
use vstd::arithmetic::power2::pow2;
use crate::ratio::{Ratio, ratio_parts};
use crate::run_queue::{RunQueue, on_timer_tick};

verus! {

/// The number of nanoseconds in a second.
pub const NANOS_PER_SEC: u32 = 1_000_000_000;

/// The interval between two timer interrupts, in nanoseconds.
pub const TICK_INTERVAL_NANOS: u64 = 1_000_000_000;

/// `v` scaled by `r`, as `Ratio::multiply` computes it.
pub open spec fn scale(r: Ratio, v: u64) -> u64 {
    ((v * r.mult_spec()) / (pow2(r.shift_spec() as nat) as int)) as u64
}

/// The conversions between counter ticks and nanoseconds, for a counter of
/// a given frequency.
pub struct TimerRatios {
    pub ticks_to_nanos: Ratio,
    pub nanos_to_ticks: Ratio,
}

impl TimerRatios {
    /// Both ratios keep the multiplier and shift of their fraction.
    pub open spec fn wf(&self) -> bool {
        &&& self.ticks_to_nanos.wf()
        &&& self.nanos_to_ticks.wf()
    }

    /// The conversions for a counter of `freq` ticks per second (its low 32
    /// bits, which must not all be zero).
    pub fn init_early(freq: u64) -> (r: Self)
        requires
            freq as u32 != 0,
        ensures
            r.wf(),
            r.ticks_to_nanos.numerator_spec() == NANOS_PER_SEC && r.ticks_to_nanos.denominator_spec() == freq as u32,
            r.nanos_to_ticks.numerator_spec() == freq as u32 && r.nanos_to_ticks.denominator_spec() == NANOS_PER_SEC,
            (r.ticks_to_nanos.mult_spec() as nat, r.ticks_to_nanos.shift_spec() as nat)
                == ratio_parts(NANOS_PER_SEC as nat, freq as u32 as nat),
            (r.nanos_to_ticks.mult_spec() as nat, r.nanos_to_ticks.shift_spec() as nat)
                == ratio_parts(freq as u32 as nat, NANOS_PER_SEC as nat),
    {
        let f = freq as u32;
        TimerRatios { ticks_to_nanos: Ratio::new(NANOS_PER_SEC, f), nanos_to_ticks: Ratio::new(f, NANOS_PER_SEC) }
    }

    /// Nanoseconds from counter ticks.
    pub fn ticks_to_nanos(&self, ticks: u64) -> (r: u64)
        requires
            self.wf(),
        ensures
            r == scale(self.ticks_to_nanos, ticks),
    {
        self.ticks_to_nanos.multiply(ticks)
    }

    /// Counter ticks from nanoseconds.
    pub fn nanos_to_ticks(&self, nanos: u64) -> (r: u64)
        requires
            self.wf(),
        ensures
            r == scale(self.nanos_to_ticks, nanos),
    {
        self.nanos_to_ticks.multiply(nanos)
    }

    /// The time in nanoseconds when the counter reads `ticks`.
    pub fn current_time_nanos(&self, ticks: u64) -> (r: u64)
        requires
            self.wf(),
        ensures
            r == scale(self.ticks_to_nanos, ticks),
    {
        self.ticks_to_nanos(ticks)
    }

    /// The value for the timer's countdown register that makes it fire at
    /// `deadline_ns` when the counter reads `current_ticks`: the ticks left
    /// until then, or zero (fire at once) when the deadline has passed.
    pub fn set_timer(&self, current_ticks: u64, deadline_ns: u64) -> (r: u64)
        requires
            self.wf(),
        ensures
            current_ticks < scale(self.nanos_to_ticks, deadline_ns) ==> r == scale(self.nanos_to_ticks, deadline_ns) - current_ticks,
            current_ticks >= scale(self.nanos_to_ticks, deadline_ns) ==> r == 0,
    {
        let deadline_ticks = self.nanos_to_ticks(deadline_ns);
        if current_ticks < deadline_ticks {
            deadline_ticks - current_ticks
        } else {
            0
        }
    }
}

/// The generic timer needs no setting up beyond `TimerRatios::init_early`.
pub fn init_generic_timer() {
}

/// What the timer interrupt does at `now_ns`: the running task is charged
/// a tick, and the next interrupt is due one interval later, at the time
/// returned.
pub fn dispatch_irq_common(rq: &mut RunQueue, now_ns: u64) -> (r: u64)
    requires
        old(rq).cur() is Some,
        now_ns + TICK_INTERVAL_NANOS <= u64::MAX,
    ensures
        r == now_ns + TICK_INTERVAL_NANOS,
        final(rq).ready() == old(rq).ready(),
        final(rq).cur() is Some,
        ({
            let c = old(rq).cur()->Some_0;
            let d = final(rq).cur()->Some_0;
            &&& d.slice() == c.slice().wrapping_sub(1)
            &&& d.task() == (if c.slice() <= 1 { c.task().with_pending(true) } else { c.task() })
        }),
{
    let deadline = now_ns + TICK_INTERVAL_NANOS;
    on_timer_tick(rq);
    deadline
}

} // verus!
