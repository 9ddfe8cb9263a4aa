//! Round-robin scheduling: ready tasks wait in a queue, and a running task
//! keeps the processor until its time slice runs out.
use vstd::prelude::*;

verus! {

/// What the run queue asks of a scheduler.
pub trait SchedulerPrototype {
    type SchedTask;

    fn init(&mut self);

    fn add_task(&mut self, task: Self::SchedTask);

    fn remove_task(&mut self, task: &Self::SchedTask) -> Option<Self::SchedTask>;

    fn pick_next_task(&mut self) -> Option<Self::SchedTask>;

    fn put_prev_task(&mut self, prev: Self::SchedTask, preempt: bool);

    fn set_priority(&mut self, task: &Self::SchedTask, priority: isize) -> bool;

    /// Accounts one timer tick to the running task; `true` when its time
    /// slice has run out.
    fn task_tick(&mut self, current: &mut Self::SchedTask) -> bool;
}

/// Tasks that can be told apart: two tasks are the same task when their
/// identities are equal.
pub trait Identified {
    spec fn ident(&self) -> u64;

    fn same_task(&self, other: &Self) -> (r: bool)
        ensures
            r == (self.ident() == other.ident()),
    ;
}

/// A task with the time slice that remains to it, in ticks; a full slice
/// is `MAX_TIME_SLICE` ticks.
pub struct RRTask<T, const MAX_TIME_SLICE: usize> {
    inner: T,
    time_slice: isize,
}

impl<T, const S: usize> RRTask<T, S> {
    /// The task.
    pub closed spec fn task(&self) -> T {
        self.inner
    }

    /// The ticks left of its time slice.
    pub closed spec fn slice(&self) -> isize {
        self.time_slice
    }

    /// The same time slice, with the task `t`.
    pub closed spec fn update_task(self, t: T) -> Self {
        RRTask { inner: t, ..self }
    }

    /// `update_task` replaces the task and keeps the time slice.
    pub proof fn lemma_update_task(self, t: T)
        ensures
            self.update_task(t).task() == t,
            self.update_task(t).slice() == self.slice(),
    {
    }

    /// `inner` with a full time slice.
    pub fn new(inner: T) -> (r: Self)
        ensures
            r.task() == inner,
            r.slice() == S as isize,
    {
        RRTask { inner, time_slice: S as isize }
    }

    /// The ticks left of the time slice.
    pub fn time_slice(&self) -> (r: isize)
        ensures
            r == self.slice(),
    {
        self.time_slice
    }

    /// Gives the task a full time slice again.
    pub fn reset_time_slice(&mut self)
        ensures
            final(self).task() == old(self).task(),
            final(self).slice() == S as isize,
    {
        self.time_slice = S as isize;
    }

    /// The task.
    pub fn inner(&self) -> (r: &T)
        ensures
            *r == self.task(),
    {
        &self.inner
    }

    /// The task, to be changed in place.
    pub fn inner_mut(&mut self) -> (r: &mut T)
        ensures
            *r == old(self).task(),
            *final(self) == old(self).update_task(*final(r)),
    {
        &mut self.inner
    }
}

/// The ready tasks in the order in which they will run.
pub struct RRScheduler<T, const MAX_TIME_SLICE: usize> {
    ready_queue: std::collections::VecDeque<RRTask<T, MAX_TIME_SLICE>>,
}

/// The first position in `q` of a task with identity `id`, or `-1`.
pub open spec fn position_of<T: Identified, const S: usize>(q: Seq<RRTask<T, S>>, id: u64) -> int
    decreases q.len(),
{
    if q.len() == 0 {
        -1
    } else if q[0].task().ident() == id {
        0
    } else if position_of(q.drop_first(), id) < 0 {
        -1
    } else {
        position_of(q.drop_first(), id) + 1
    }
}

/// `position_of` is the first position of a task with that identity.
pub proof fn lemma_position_of<T: Identified, const S: usize>(q: Seq<RRTask<T, S>>, id: u64)
    ensures
        -1 <= position_of(q, id) < q.len(),
        position_of(q, id) >= 0 ==> q[position_of(q, id)].task().ident() == id,
        forall|m: int| 0 <= m < q.len() && (position_of(q, id) < 0 || m < position_of(q, id))
            ==> (#[trigger] q[m]).task().ident() != id,
    decreases q.len(),
{
    if q.len() > 0 {
        let d = q.drop_first();
        lemma_position_of(d, id);
        assert forall|m: int| 0 <= m < q.len() && (position_of(q, id) < 0 || m < position_of(q, id))
            implies (#[trigger] q[m]).task().ident() != id by {
            if m > 0 {
                assert(q[m] == d[m - 1]);
            }
        }
    }
}

impl<T, const S: usize> RRScheduler<T, S> {
    /// The ready tasks, the next to run first.
    pub closed spec fn queue(&self) -> Seq<RRTask<T, S>> {
        self.ready_queue@
    }

    /// A scheduler with no ready task.
    pub fn new() -> (r: Self)
        ensures
            r.queue() == Seq::<RRTask<T, S>>::empty(),
    {
        RRScheduler { ready_queue: std::collections::VecDeque::new() }
    }

    /// The number of ready tasks.
    pub fn len(&self) -> (r: usize)
        ensures
            r == self.queue().len(),
    {
        self.ready_queue.len()
    }

    /// The scheduler's name.
    pub fn name() -> (r: &'static str)
        ensures
            r@ == "Round-Robin"@,
    {
        "Round-Robin"
    }
}

impl<T: Identified, const S: usize> SchedulerPrototype for RRScheduler<T, S> {
    type SchedTask = RRTask<T, S>;

    fn init(&mut self)
        ensures
            final(self).queue() == old(self).queue(),
    {
    }

    /// Queues `task` behind the other ready tasks.
    fn add_task(&mut self, task: Self::SchedTask)
        ensures
            final(self).queue() == old(self).queue().push(task),
    {
        self.ready_queue.push_back(task)
    }

    /// Takes the first queued task that is `task` out of the queue.
    fn remove_task(&mut self, task: &Self::SchedTask) -> (r: Option<Self::SchedTask>)
        ensures
            position_of(old(self).queue(), task.task().ident()) < 0 ==> r is None && final(self).queue() == old(self).queue(),
            position_of(old(self).queue(), task.task().ident()) >= 0 ==> r == Some(old(self).queue()[position_of(old(self).queue(), task.task().ident())])
                && final(self).queue() == old(self).queue().remove(position_of(old(self).queue(), task.task().ident())),
    {
        proof {
            lemma_position_of(self.queue(), task.task().ident());
        }
        let n = self.ready_queue.len();
        let mut i: usize = 0;
        while i < n
            invariant
                n == self.queue().len(),
                self.queue() == old(self).queue(),
                i <= n,
                forall|m: int| 0 <= m < i ==> (#[trigger] self.queue()[m]).task().ident() != task.task().ident(),
            decreases n - i,
        {
            if self.ready_queue[i].inner.same_task(&task.inner) {
                proof {
                    let q = self.queue();
                    let id = task.task().ident();
                    let p = position_of(q, id);
                    lemma_position_of(q, id);
                    assert(q[i as int].task().ident() == id);
                    if p >= 0 && p < i {
                        assert(q[p].task().ident() != id);
                    }
                    assert(p == i);
                }
                return self.ready_queue.remove(i);
            }
            i = i + 1;
        }
        proof {
            let p = position_of(self.queue(), task.task().ident());
            if p >= 0 {
                assert(self.queue()[p].task().ident() == task.task().ident());
            }
        }
        None
    }

    /// Takes the first ready task out of the queue.
    fn pick_next_task(&mut self) -> (r: Option<Self::SchedTask>)
        ensures
            old(self).queue().len() == 0 ==> r is None && final(self).queue() == old(self).queue(),
            old(self).queue().len() > 0 ==> r == Some(old(self).queue()[0]) && final(self).queue() == old(self).queue().drop_first(),
    {
        let r = self.ready_queue.pop_front();
        proof {
            if old(self).queue().len() > 0 {
                assert(self.queue() =~= old(self).queue().drop_first());
            }
        }
        r
    }

    /// Queues the task that ran last: in front when it was preempted with
    /// time left, else behind the others with a full time slice.
    fn put_prev_task(&mut self, prev: Self::SchedTask, preempt: bool)
        ensures
            preempt && prev.slice() > 0 ==> final(self).queue() == seq![prev] + old(self).queue(),
            !(preempt && prev.slice() > 0) ==> final(self).queue().len() == old(self).queue().len() + 1
                && final(self).queue().drop_last() == old(self).queue()
                && final(self).queue().last().task() == prev.task()
                && final(self).queue().last().slice() == S as isize,
    {
        if preempt && prev.time_slice() > 0 {
            self.ready_queue.push_front(prev);
        } else {
            let mut prev = prev;
            prev.reset_time_slice();
            self.ready_queue.push_back(prev);
            proof {
                assert(self.queue().drop_last() =~= old(self).queue());
            }
        }
    }

    /// Priorities are not supported: nothing changes.
    fn set_priority(&mut self, task: &Self::SchedTask, priority: isize) -> (r: bool)
        ensures
            !r,
            final(self).queue() == old(self).queue(),
    {
        false
    }

    fn task_tick(&mut self, current: &mut Self::SchedTask) -> (r: bool)
        ensures
            r == (old(current).slice() <= 1),
            final(current).slice() == old(current).slice().wrapping_sub(1),
            final(current).task() == old(current).task(),
            final(self).queue() == old(self).queue(),
    {
        let old_time = current.time_slice;
        current.time_slice = old_time.wrapping_sub(1);
        old_time <= 1
    }
}

} // verus!
