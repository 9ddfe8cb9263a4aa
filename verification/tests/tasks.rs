use mimicros::context::TaskContext;
use mimicros::memory_addr::VirtAddr;
use mimicros::run_queue::{init, init_scheduler, on_timer_tick, RunQueue};
use mimicros::scheduler::{RRScheduler, RRTask, SchedulerPrototype};
use mimicros::task::{TaskId, TaskInner, TaskState, MAX_TIME_SLICE};

fn task(counter: &mut u64, name: &str) -> RRTask<TaskInner, MAX_TIME_SLICE> {
    TaskInner::new(counter, 0x8000_1000, name.to_string(), VirtAddr(0x9000_0000))
}

#[test]
fn task_ids_count_up() {
    let mut c = 1u64;
    let a = TaskId::new(&mut c);
    let b = TaskId::new(&mut c);
    assert_eq!(a.as_u64(), 1);
    assert_eq!(b.as_u64(), 2);
    assert_ne!(a, b);
    let mut top = u64::MAX;
    assert_eq!(TaskId::new(&mut top).as_u64(), u64::MAX);
    assert_eq!(top, 0);
}

#[test]
fn task_bookkeeping() {
    let mut c = 7u64;
    let mut t = task(&mut c, "worker");
    assert_eq!(t.time_slice(), 5);
    let inner = t.inner_mut();
    assert!(inner.is_ready());
    assert_eq!(inner.id_name(), "\"worker\"(7)");
    let mut big = 1234u64;
    let t2 = task(&mut big, "a\"b");
    assert_eq!(t2.inner().id_name(), "\"a\\\"b\"(1234)");
    inner.set_state(TaskState::Running);
    assert!(inner.is_running());
    assert_eq!(inner.state(), TaskState::Running);
    inner.set_state(TaskState::Blocked);
    assert!(inner.is_blocked());
    inner.disable_preempt();
    inner.disable_preempt();
    assert_eq!(inner.preempt_count(), 2);
    assert!(inner.can_preempt(2));
    assert!(!inner.enable_preempt());
    assert!(inner.enable_preempt());
    assert_eq!(inner.preempt_count(), 0);
    inner.set_preempt_pending(true);
    assert!(inner.need_resched());
    let ctx = inner.get_ctx_mut();
    assert_eq!(ctx.sp, 0x9000_0000);
    assert_eq!(ctx.lr, 0x8000_1000);
}

#[test]
fn context_init() {
    let mut ctx = TaskContext::new();
    assert_eq!(ctx, TaskContext::new());
    ctx.init(0x1234, VirtAddr(0x5000));
    assert_eq!(ctx.sp, 0x5000);
    assert_eq!(ctx.lr, 0x1234);
    assert_eq!(ctx.x19, 0);
}

#[test]
fn round_robin_queue() {
    let mut c = 1u64;
    let mut s: RRScheduler<TaskInner, MAX_TIME_SLICE> = RRScheduler::new();
    assert_eq!(RRScheduler::<TaskInner, MAX_TIME_SLICE>::name(), "Round-Robin");
    s.init();
    s.add_task(task(&mut c, "a"));
    s.add_task(task(&mut c, "b"));
    s.add_task(task(&mut c, "c"));
    let mut a = s.pick_next_task().unwrap();
    assert_eq!(a.inner().id().as_u64(), 1);
    assert!(!a.inner().is_running());
    // a used up part of its slice and was preempted: it runs next again
    assert!(!s.task_tick(&mut a));
    assert_eq!(a.time_slice(), 4);
    s.put_prev_task(a, true);
    let mut a = s.pick_next_task().unwrap();
    assert_eq!(a.inner().id().as_u64(), 1);
    // once its slice has run out, it goes behind the others with a new slice
    for _ in 0..3 {
        assert!(!s.task_tick(&mut a));
    }
    assert!(s.task_tick(&mut a));
    assert_eq!(a.time_slice(), 0);
    s.put_prev_task(a, true);
    assert_eq!(s.pick_next_task().unwrap().inner().id().as_u64(), 2);
    assert_eq!(s.pick_next_task().unwrap().inner().id().as_u64(), 3);
    let a = s.pick_next_task().unwrap();
    assert_eq!(a.inner().id().as_u64(), 1);
    assert_eq!(a.time_slice(), 5);
    assert!(s.pick_next_task().is_none());
    assert!(!s.set_priority(&a, 3));
}

#[test]
fn removing_a_task() {
    let mut c = 1u64;
    let mut s: RRScheduler<TaskInner, MAX_TIME_SLICE> = RRScheduler::new();
    let probe = task(&mut c, "a");
    let mut c2 = 1u64;
    s.add_task(task(&mut c2, "a"));
    s.add_task(task(&mut c2, "b"));
    assert_eq!(s.remove_task(&probe).unwrap().inner().id().as_u64(), 1);
    assert!(s.remove_task(&probe).is_none());
    assert_eq!(s.pick_next_task().unwrap().inner().id().as_u64(), 2);
}

#[test]
fn scheduler_start() {
    let mut c = 1u64;
    let rq = init_scheduler(&mut c, 0x8000_0000, VirtAddr(0x9000_0000), VirtAddr(0x9100_0000));
    assert_eq!(c, 4);
    assert_eq!(rq.current().inner().id_name(), "\"main\"(1)");
    assert!(rq.current().inner().is_running());
}

#[test]
fn timer_ticks_preempt_after_a_slice() {
    let mut c = 1u64;
    let mut rq = init_scheduler(&mut c, 0x8000_0000, VirtAddr(0x9000_0000), VirtAddr(0x9100_0000));
    for _ in 0..4 {
        on_timer_tick(&mut rq);
        assert!(!rq.current().inner().need_resched());
    }
    rq.timer_tick();
    assert!(rq.current().inner().need_resched());
    // while preemption is disabled, the request stays pending
    rq.current_mut().inner_mut().disable_preempt();
    assert!(rq.check_preempt_pending().is_none());
    assert!(rq.current().inner().need_resched());
    assert!(rq.current_mut().inner_mut().enable_preempt());
    let r = rq.check_preempt_pending().unwrap();
    assert_eq!((r.prev.as_u64(), r.next.as_u64()), (1, 2));
}

#[test]
fn pending_preemption_switches_tasks() {
    let mut c = 1u64;
    let mut rq = init_scheduler(&mut c, 0x8000_0000, VirtAddr(0x9000_0000), VirtAddr(0x9100_0000));
    for _ in 0..5 {
        rq.timer_tick();
    }
    let r = rq.check_preempt_pending().unwrap();
    assert_eq!(r.prev.as_u64(), 1);
    assert_eq!(r.next.as_u64(), 2);
    assert!(r.released.is_none());
    assert_eq!(rq.current().inner().id_name(), "\"task1\"(2)");
    assert!(rq.current().inner().is_running());
    assert!(!rq.current().inner().need_resched());
    // main went behind task2, with a full slice
    let r = rq.resched(false);
    assert_eq!((r.prev.as_u64(), r.next.as_u64()), (2, 3));
    let r = rq.resched(false);
    assert_eq!((r.prev.as_u64(), r.next.as_u64()), (3, 1));
    assert_eq!(rq.current().time_slice(), 5);
}

#[test]
fn preempt_resched_needs_the_lock_alone() {
    let mut c = 1u64;
    let mut rq = init(&mut c);
    let mut c2 = 10u64;
    rq.add_task(task(&mut c2, "other"));
    assert!(rq.preempt_resched().is_none());
    assert!(rq.current().inner().need_resched());
    let mut rq2 = RunQueue::new(task(&mut c2, "blocked"));
    rq2.add_task(task(&mut c2, "next"));
    let r = rq2.resched(true);
    assert_eq!(r.prev.as_u64(), 11);
    assert_eq!(r.next.as_u64(), 12);
    assert!(r.released.is_some());
}
