//! Guards that keep a critical section free of preemption and interrupts.
use vstd::prelude::*;

verus! {

/// Turning preemption of the current task on and off.
pub trait Preemptable {
    fn enable_preempt();

    fn disable_preempt();
}

/// Saving the interrupt state on entry to a critical section and restoring
/// it on exit.
pub trait IrqProtected {
    type State: Copy;

    fn irq_save() -> Self::State;

    fn irq_restore(state: Self::State);
}

/// A guard that does nothing, for sections that need no protection.
pub struct NoOps;

/// The interrupt state kept by `NoOps`: nothing.
#[derive(Copy, Clone, Debug, PartialEq, Eq, Structural)]
pub struct NoState;

impl IrqProtected for NoOps {
    type State = NoState;

    fn irq_save() -> Self::State {
        NoState
    }

    fn irq_restore(_state: Self::State) {
    }
}

impl Preemptable for NoOps {
    fn enable_preempt() {
    }

    fn disable_preempt() {
    }
}

impl NoOps {
    /// The guard that does nothing.
    pub fn new() -> (r: Self) {
        NoOps
    }
}

} // verus!
