//! The callee-saved registers of a task that is not running.
use vstd::prelude::*;
use crate::memory_addr::VirtAddr;

verus! {

/// The registers that a context switch saves and restores.
#[derive(Copy, Clone, Debug, PartialEq, Eq, Structural)]
pub struct TaskContext {
    pub sp: u64,
    pub tpidr_el0: u64,
    pub x19: u64,
    pub x20: u64,
    pub x21: u64,
    pub x22: u64,
    pub x23: u64,
    pub x24: u64,
    pub x25: u64,
    pub x26: u64,
    pub x27: u64,
    pub x28: u64,
    pub x29: u64,
    /// The link register, `x30`: where the task resumes.
    pub lr: u64,
}

/// A context with every register zero.
pub open spec fn zero_context() -> TaskContext {
    TaskContext {
        sp: 0,
        tpidr_el0: 0,
        x19: 0,
        x20: 0,
        x21: 0,
        x22: 0,
        x23: 0,
        x24: 0,
        x25: 0,
        x26: 0,
        x27: 0,
        x28: 0,
        x29: 0,
        lr: 0,
    }
}

impl TaskContext {
    /// A context with every register zero.
    pub fn new() -> (r: Self)
        ensures
            r == zero_context(),
    {
        TaskContext {
            sp: 0,
            tpidr_el0: 0,
            x19: 0,
            x20: 0,
            x21: 0,
            x22: 0,
            x23: 0,
            x24: 0,
            x25: 0,
            x26: 0,
            x27: 0,
            x28: 0,
            x29: 0,
            lr: 0,
        }
    }

    /// Prepares the context of a new task: it starts at `entry` on the stack
    /// whose top is `stack`.
    pub fn init(&mut self, entry: usize, stack: VirtAddr)
        ensures
            *final(self) == (TaskContext { sp: (stack.0 as usize) as u64, lr: entry as u64, ..*old(self) }),
    {
        self.sp = stack.as_usize() as u64;
        self.lr = entry as u64;
    }
}

} // verus!
