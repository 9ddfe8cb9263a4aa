//! A small aarch64 kernel's core logic: address arithmetic, a buddy frame
//! allocator, four-level page tables, a round-robin scheduler and the
//! bookkeeping around tasks, timers and the interrupt controller.
use vstd::prelude::*;

pub mod allocator;
pub mod boot;
pub mod buddy;
pub mod buddy_free;
pub mod context;
pub mod gic;
pub mod irq;
pub mod kernel_guard;
pub mod layout;
pub mod lazy_init;
pub mod linked_list;
pub mod logger;
pub mod math;
pub mod memory_addr;
pub mod page_table;
pub mod page_table_entry;
pub mod ratio;
pub mod run_queue;
pub mod scheduler;
pub mod task;
pub mod timer;
pub mod timer_list;

verus! {

} // verus!
