//! The run queue: the running task and the scheduler of the ready ones, and
//! the decisions to switch from one task to another.
//!
//! A decision to switch is handed back as a `Resched`; saving and restoring
//! the registers is left to the caller.
use vstd::prelude::*;
use crate::memory_addr::VirtAddr;
use crate::scheduler::{RRScheduler, SchedulerPrototype};
use crate::task::{Task, TaskId, TaskInner, TaskState, MAX_TIME_SLICE, agrees};

verus! {

/// The round-robin scheduler of tasks.
pub type Scheduler = RRScheduler<TaskInner, MAX_TIME_SLICE>;

/// A switch from the task `prev` to the task `next`, which may be the same.
pub struct Resched {
    pub prev: TaskId,
    pub next: TaskId,
    /// The previous task when it was not running: it is not queued again,
    /// and the caller keeps it.
    pub released: Option<Task>,
}

/// The running task and the ready ones.
pub struct RunQueue {
    scheduler: Scheduler,
    current: Option<Task>,
}

impl RunQueue {
    /// The ready tasks, the next to run first.
    pub closed spec fn ready(&self) -> Seq<Task> {
        self.scheduler.queue()
    }

    /// The running task.
    pub closed spec fn cur(&self) -> Option<Task> {
        self.current
    }

    /// A run queue whose running task is `current` and with no ready task.
    pub fn new(current: Task) -> (r: Self)
        ensures
            r.ready() == Seq::<Task>::empty(),
            r.cur() == Some(current),
    {
        RunQueue { scheduler: Scheduler::new(), current: Some(current) }
    }

    /// The running task.
    pub fn current(&self) -> (r: &Task)
        requires
            self.cur() is Some,
        ensures
            Some(*r) == self.cur(),
    {
        self.current.as_ref().unwrap()
    }

    /// The running task, to be changed in place.
    pub fn current_mut(&mut self) -> (r: &mut Task)
        requires
            old(self).cur() is Some,
        ensures
            Some(*r) == old(self).cur(),
            final(self).cur() == Some(*final(r)),
            final(self).ready() == old(self).ready(),
    {
        self.current.as_mut().unwrap()
    }

    /// The number of ready tasks.
    pub fn ready_count(&self) -> (r: usize)
        ensures
            r == self.ready().len(),
    {
        self.scheduler.len()
    }

    /// Makes `task` ready, behind the other ready tasks.
    pub fn add_task(&mut self, task: Task)
        ensures
            final(self).ready() == old(self).ready().push(task),
            final(self).cur() == old(self).cur(),
    {
        self.scheduler.add_task(task);
    }

    /// Accounts a timer tick to the running task; when its time slice has
    /// run out, it is marked to give up the processor.
    pub fn timer_tick(&mut self)
        requires
            old(self).cur() is Some,
        ensures
            final(self).ready() == old(self).ready(),
            final(self).cur() is Some,
            ({
                let c = old(self).cur()->Some_0;
                let d = final(self).cur()->Some_0;
                &&& d.slice() == c.slice().wrapping_sub(1)
                &&& d.task() == (if c.slice() <= 1 { c.task().with_pending(true) } else { c.task() })
            }),
    {
        let mut cur = self.current.take().unwrap();
        if self.scheduler.task_tick(&mut cur) {
            let ghost c0 = cur;
            cur.inner_mut().set_preempt_pending(true);
            proof {
                c0.lemma_update_task(c0.task().with_pending(true));
            }
        }
        self.current = Some(cur);
    }

    /// The result of `resched(preempt)`, in the terms of the tasks before it.
    pub open spec fn resched_spec(old_rq: RunQueue, new_rq: RunQueue, preempt: bool, r: Resched) -> bool {
        let p = old_rq.cur()->Some_0;
        let q = old_rq.ready();
        let c = new_rq.cur()->Some_0;
        let running = p.task().state_spec() == TaskState::Running;
        &&& new_rq.cur() is Some
        &&& r.prev == p.task().id_spec()
        &&& r.next == c.task().id_spec()
        &&& c.task().state_spec() == TaskState::Running
        &&& !c.task().need_resched_spec()
        &&& (running ==> r.released is None)
        &&& (!running ==> r.released == Some(p))
        &&& (running && preempt && p.slice() > 0 ==> {
            &&& agrees(c.task(), p.task())
            &&& c.slice() == p.slice()
            &&& new_rq.ready() == q
        })
        &&& (running && !(preempt && p.slice() > 0) && q.len() > 0 ==> {
            &&& agrees(c.task(), q[0].task())
            &&& c.slice() == q[0].slice()
            &&& new_rq.ready().len() == q.len()
            &&& new_rq.ready().drop_last() == q.drop_first()
            &&& agrees(new_rq.ready().last().task(), p.task())
            &&& new_rq.ready().last().task().state_spec() == TaskState::Ready
            &&& new_rq.ready().last().task().need_resched_spec() == p.task().need_resched_spec()
            &&& new_rq.ready().last().slice() == MAX_TIME_SLICE as isize
        })
        &&& (running && !(preempt && p.slice() > 0) && q.len() == 0 ==> {
            &&& agrees(c.task(), p.task())
            &&& c.slice() == MAX_TIME_SLICE as isize
            &&& new_rq.ready() == q
        })
        &&& (!running ==> {
            &&& agrees(c.task(), q[0].task())
            &&& c.slice() == q[0].slice()
            &&& new_rq.ready() == q.drop_first()
        })
    }

    /// Gives the processor to the next ready task: the running task, if it
    /// is still running, becomes ready again and is queued (in front when it
    /// was preempted with time left), then the first ready task runs.
    pub fn resched(&mut self, preempt: bool) -> (r: Resched)
        requires
            old(self).cur() is Some,
            old(self).cur()->Some_0.task().state_spec() == TaskState::Running || old(self).ready().len() > 0,
        ensures
            Self::resched_spec(*old(self), *final(self), preempt, r),
    {
        let mut prev = self.current.take().unwrap();
        let prev_id = prev.inner().id();
        let ghost p = prev;
        proof {
            p.task().lemma_updates();
            p.lemma_update_task(p.task().with_state(TaskState::Ready));
        }
        let released = if prev.inner().is_running() {
            prev.inner_mut().set_state(TaskState::Ready);
            self.scheduler.put_prev_task(prev, preempt);
            None
        } else {
            Some(prev)
        };
        let ghost q1 = self.scheduler.queue();
        let mut next = self.scheduler.pick_next_task().unwrap();
        let ghost n0 = next;
        next.inner_mut().set_preempt_pending(false);
        let ghost n1 = next;
        next.inner_mut().set_state(TaskState::Running);
        let ghost n2 = next;
        proof {
            n0.task().lemma_updates();
            n0.lemma_update_task(n0.task().with_pending(false));
            n1.task().lemma_updates();
            n1.lemma_update_task(n1.task().with_state(TaskState::Running));
            assert(agrees(n2.task(), n0.task()));
            assert(n2.slice() == n0.slice());
        }
        let next_id = next.inner().id();
        self.current = Some(next);
        proof {
            let q = old(self).ready();
            assert(q1.len() > 0);
            assert(self.ready() == q1.drop_first());
            assert(n0 == q1[0]);
            if p.task().state_spec() == TaskState::Running {
                if preempt && p.slice() > 0 {
                    assert(q1 == seq![p.update_task(p.task().with_state(TaskState::Ready))] + q);
                    assert(self.ready() =~= q);
                } else if q.len() > 0 {
                    assert(q1.drop_last() == q);
                    assert(q1[0] == q[0]);
                    assert(self.ready().drop_last() =~= q.drop_first());
                    assert(self.ready().last() == q1.last());
                } else {
                    assert(q1.len() == 1);
                    assert(self.ready() =~= q);
                }
            } else {
                assert(q1 == q);
            }
        }
        Resched { prev: prev_id, next: next_id, released }
    }

    /// Handles a request to preempt the running task, made while the run
    /// queue is locked: the lock itself disables preemption once, so a count
    /// of one means that nothing else holds preemption off, and the
    /// processor is given away; else the request is left pending.
    pub fn preempt_resched(&mut self) -> (r: Option<Resched>)
        requires
            old(self).cur() is Some,
            old(self).cur()->Some_0.task().preempt_spec() == 1 ==>
                old(self).cur()->Some_0.task().state_spec() == TaskState::Running || old(self).ready().len() > 0,
        ensures
            old(self).cur()->Some_0.task().preempt_spec() == 1 ==> (r matches Some(x) && Self::resched_spec(*old(self), *final(self), true, x)),
            old(self).cur()->Some_0.task().preempt_spec() != 1 ==> r is None && final(self).ready() == old(self).ready()
                && final(self).cur() == Some(old(self).cur()->Some_0.update_task(old(self).cur()->Some_0.task().with_pending(true))),
    {
        let count = self.current().inner().preempt_count();
        if count == 1 {
            Some(self.resched(true))
        } else {
            let mut cur = self.current.take().unwrap();
            cur.inner_mut().set_preempt_pending(true);
            self.current = Some(cur);
            None
        }
    }

    /// The run queue once its lock has disabled preemption of the running
    /// task once more.
    pub closed spec fn locked(self) -> RunQueue {
        let c = self.current->Some_0;
        RunQueue {
            current: Some(c.update_task(c.task().with_count(c.task().preempt_spec().wrapping_add(1)))),
            ..self
        }
    }

    /// Locking keeps the ready tasks and counts one more disabling of
    /// preemption for the running task.
    pub proof fn lemma_locked(self)
        requires
            self.cur() is Some,
        ensures
            self.locked().ready() == self.ready(),
            self.locked().cur() == Some(self.cur()->Some_0.update_task(
                self.cur()->Some_0.task().with_count(self.cur()->Some_0.task().preempt_spec().wrapping_add(1)))),
    {
    }

    /// Looks at a pending preemption of the running task once preemption is
    /// enabled again: when one is pending and preemption is not disabled,
    /// the run queue is locked (which disables preemption once) and the
    /// processor is given away as `preempt_resched` does. When the same task
    /// goes on running, the lock is released again at once; after a switch
    /// the previous task releases it when it runs again.
    pub fn check_preempt_pending(&mut self) -> (r: Option<Resched>)
        requires
            old(self).cur() is Some,
            old(self).cur()->Some_0.task().need_resched_spec() && old(self).cur()->Some_0.task().preempt_spec() == 0 ==>
                old(self).cur()->Some_0.task().state_spec() == TaskState::Running || old(self).ready().len() > 0,
        ensures
            final(self).cur() is Some,
            !(old(self).cur()->Some_0.task().need_resched_spec() && old(self).cur()->Some_0.task().preempt_spec() == 0)
                ==> r is None && *final(self) == *old(self),
            old(self).cur()->Some_0.task().need_resched_spec() && old(self).cur()->Some_0.task().preempt_spec() == 0 ==> {
                &&& r is Some
                &&& r->Some_0.prev == old(self).cur()->Some_0.task().id_spec()
                &&& r->Some_0.next == final(self).cur()->Some_0.task().id_spec()
                &&& final(self).cur()->Some_0.task().state_spec() == TaskState::Running
                &&& !final(self).cur()->Some_0.task().need_resched_spec()
                &&& exists|mid: RunQueue| {
                    &&& #[trigger] Self::resched_spec(old(self).locked(), mid, true, r->Some_0)
                    &&& final(self).ready() == mid.ready()
                    &&& r->Some_0.prev.value() != r->Some_0.next.value() ==> *final(self) == mid
                    &&& r->Some_0.prev.value() == r->Some_0.next.value() ==> final(self).cur() == Some(
                        mid.cur()->Some_0.update_task(mid.cur()->Some_0.task().with_count(
                            mid.cur()->Some_0.task().preempt_spec().wrapping_sub(1))))
                }
            },
    {
        let c = self.current();
        if c.inner().need_resched() && c.inner().preempt_count() == 0 {
            let mut cur = self.current.take().unwrap();
            let ghost c0 = cur;
            cur.inner_mut().disable_preempt();
            proof {
                c0.task().lemma_updates();
                c0.lemma_update_task(c0.task().with_count(1));
            }
            self.current = Some(cur);
            proof {
                assert(*self == old(self).locked());
            }
            let x = self.resched(true);
            let ghost mid = *self;
            if x.prev.as_u64() == x.next.as_u64() {
                let mut cur = self.current.take().unwrap();
                let ghost c1 = cur;
                let _ = cur.inner_mut().enable_preempt();
                proof {
                    c1.task().lemma_updates();
                    c1.lemma_update_task(c1.task().with_count(c1.task().preempt_spec().wrapping_sub(1)));
                }
                self.current = Some(cur);
            }
            proof {
                assert(Self::resched_spec(old(self).locked(), mid, true, x));
            }
            Some(x)
        } else {
            None
        }
    }
}

/// A run queue whose running task is the kernel's first task, `main`, with
/// its identity from `counter`.
pub fn init(counter: &mut u64) -> (r: RunQueue)
    ensures
        r.ready() == Seq::<Task>::empty(),
        r.cur() is Some,
        r.cur()->Some_0.task().id_spec().value() == *old(counter),
        *final(counter) == old(counter).wrapping_add(1),
        r.cur()->Some_0.task().name_spec() == "main"@,
        r.cur()->Some_0.task().is_init_spec(),
        r.cur()->Some_0.task().state_spec() == TaskState::Running,
        !r.cur()->Some_0.task().need_resched_spec(),
        r.cur()->Some_0.task().preempt_spec() == 0,
{
    let name = "main".to_string();
    proof {
        vstd::string::to_string_from_display_ensures_for_str("main", name);
    }
    let mut main_task = TaskInner::new_init(counter, name);
    let ghost m0 = main_task;
    main_task.inner_mut().set_state(TaskState::Running);
    proof {
        m0.task().lemma_updates();
        m0.lemma_update_task(m0.task().with_state(TaskState::Running));
    }
    RunQueue::new(main_task)
}

/// The kernel's first run queue: `main` runs, and two tasks, `task1` and
/// `task2`, wait in that order; both start at `entry`, on the stacks whose
/// tops are `stack1` and `stack2`.
pub fn init_scheduler(counter: &mut u64, entry: usize, stack1: VirtAddr, stack2: VirtAddr) -> (r: RunQueue)
    ensures
        r.cur() is Some,
        r.cur()->Some_0.task().name_spec() == "main"@,
        r.cur()->Some_0.task().state_spec() == TaskState::Running,
        r.cur()->Some_0.task().id_spec().value() == *old(counter),
        r.cur()->Some_0.task().is_init_spec(),
        !r.cur()->Some_0.task().need_resched_spec(),
        r.cur()->Some_0.task().preempt_spec() == 0,
        r.ready().len() == 2,
        r.ready()[0].task().name_spec() == "task1"@,
        r.ready()[1].task().name_spec() == "task2"@,
        r.ready()[0].task().id_spec().value() == old(counter).wrapping_add(1),
        r.ready()[1].task().id_spec().value() == old(counter).wrapping_add(1).wrapping_add(1),
        r.ready()[0].task().ctx_spec().lr == entry as u64 && r.ready()[0].task().ctx_spec().sp == (stack1.0 as usize) as u64,
        r.ready()[1].task().ctx_spec().lr == entry as u64 && r.ready()[1].task().ctx_spec().sp == (stack2.0 as usize) as u64,
        forall|k: int| 0 <= k < 2 ==> (#[trigger] r.ready()[k]).task().state_spec() == TaskState::Ready
            && r.ready()[k].slice() == MAX_TIME_SLICE as isize && !r.ready()[k].task().is_init_spec()
            && !r.ready()[k].task().need_resched_spec() && r.ready()[k].task().preempt_spec() == 0,
        *final(counter) == old(counter).wrapping_add(1).wrapping_add(1).wrapping_add(1),
{
    let mut rq = init(counter);
    let name1 = "task1".to_string();
    let name2 = "task2".to_string();
    proof {
        vstd::string::to_string_from_display_ensures_for_str("task1", name1);
        vstd::string::to_string_from_display_ensures_for_str("task2", name2);
    }
    let task1 = TaskInner::new(counter, entry, name1, stack1);
    rq.add_task(task1);
    let task2 = TaskInner::new(counter, entry, name2, stack2);
    rq.add_task(task2);
    rq
}

/// Accounts a timer tick to the running task.
pub fn on_timer_tick(rq: &mut RunQueue)
    requires
        old(rq).cur() is Some,
    ensures
        final(rq).ready() == old(rq).ready(),
        final(rq).cur() is Some,
        ({
            let c = old(rq).cur()->Some_0;
            let d = final(rq).cur()->Some_0;
            &&& d.slice() == c.slice().wrapping_sub(1)
            &&& d.task() == (if c.slice() <= 1 { c.task().with_pending(true) } else { c.task() })
        }),
{
    rq.timer_tick();
}

} // verus!
