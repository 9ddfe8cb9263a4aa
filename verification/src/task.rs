//! Tasks: their identity, state, preemption bookkeeping and saved context.
use vstd::prelude::*;
use vstd::string::*;
use crate::context::{TaskContext, zero_context};
use crate::memory_addr::VirtAddr;
use crate::scheduler::{Identified, RRTask};

verus! {

/// The number of timer ticks in a full time slice.
pub const MAX_TIME_SLICE: usize = 5;

/// A task as the scheduler holds it: with its time slice.
pub type Task = RRTask<TaskInner, MAX_TIME_SLICE>;

/// The identity of a task.
#[derive(Debug, Clone, Copy, Eq, PartialEq, Structural)]
pub struct TaskId(u64);

impl TaskId {
    /// The number of the identity.
    pub closed spec fn value(&self) -> u64 {
        self.0
    }

    /// A fresh identity, numbered by `counter`, which moves on by one.
    pub fn new(counter: &mut u64) -> (r: Self)
        ensures
            r.value() == *old(counter),
            *final(counter) == old(counter).wrapping_add(1),
    {
        let id = *counter;
        *counter = id.wrapping_add(1);
        TaskId(id)
    }

    /// The number of the identity.
    pub fn as_u64(&self) -> (r: u64)
        ensures
            r == self.value(),
    {
        self.0
    }
}

/// What a task is doing.
#[derive(Debug, Clone, Copy, Eq, PartialEq, Structural)]
pub enum TaskState {
    Running,
    Ready,
    Blocked,
    Existed,
}

/// A task's own data.
pub struct TaskInner {
    id: TaskId,
    name: String,
    state: TaskState,
    is_init: bool,
    need_resched: bool,
    preempt_disable_count: usize,
    ctx: Box<TaskContext>,
}

/// `a` and `b` agree on everything but their state and their
/// pending-preemption flag.
pub open spec fn agrees(a: TaskInner, b: TaskInner) -> bool {
    &&& a.id_spec() == b.id_spec()
    &&& a.name_spec() == b.name_spec()
    &&& a.is_init_spec() == b.is_init_spec()
    &&& a.preempt_spec() == b.preempt_spec()
    &&& a.ctx_spec() == b.ctx_spec()
}

/// The text that Rust's `Debug` writes for the string `s`: `s` in double
/// quotes, with quotes, backslashes and control characters escaped.
pub uninterp spec fn debug_str(s: Seq<char>) -> Seq<char>;

/// The decimal digit `d`.
pub open spec fn digit_char(d: nat) -> char {
    (48 + d) as char
}

/// The decimal digits of `n`, most significant first, without leading zeros.
pub open spec fn decimal_digits(n: nat) -> Seq<char>
    decreases n,
{
    if n < 10 {
        seq![digit_char(n)]
    } else {
        decimal_digits(n / 10).push(digit_char(n % 10))
    }
}

/// The `Debug` form of `s`, written by std's `format!` (the `Debug`
/// formatting of `str`). Trusted: the contract names the text `debug_str`
/// of the characters of `s` and says no more; how `Debug` escapes a string is
/// not stated.
#[verifier::external_body]
fn debug_text(s: &str) -> (r: String)
    ensures
        r@ == debug_str(s@),
{
    format!("{:?}", s)
}

/// The decimal digit `d` as a string.
fn digit_text(d: u64) -> (r: &'static str)
    requires
        d < 10,
    ensures
        r@ == seq![digit_char(d as nat)],
{
    proof {
        reveal_strlit("0");
        reveal_strlit("1");
        reveal_strlit("2");
        reveal_strlit("3");
        reveal_strlit("4");
        reveal_strlit("5");
        reveal_strlit("6");
        reveal_strlit("7");
        reveal_strlit("8");
        reveal_strlit("9");
    }
    match d {
        0 => "0",
        1 => "1",
        2 => "2",
        3 => "3",
        4 => "4",
        5 => "5",
        6 => "6",
        7 => "7",
        8 => "8",
        _ => "9",
    }
}

/// The decimal form of `n`: its digits, most significant first, without
/// sign or leading zeros.
fn decimal_text(n: u64) -> (r: String)
    ensures
        r@ == decimal_digits(n as nat),
    decreases n,
{
    if n < 10 {
        String::from_str(digit_text(n))
    } else {
        let mut t = decimal_text(n / 10);
        t.append(digit_text(n % 10));
        t
    }
}

impl TaskInner {
    /// The task's identity.
    pub closed spec fn id_spec(&self) -> TaskId {
        self.id
    }

    /// The task's name.
    pub closed spec fn name_spec(&self) -> Seq<char> {
        self.name@
    }

    /// What the task is doing.
    pub closed spec fn state_spec(&self) -> TaskState {
        self.state
    }

    /// Whether this is the task that the kernel started on.
    pub closed spec fn is_init_spec(&self) -> bool {
        self.is_init
    }

    /// Whether the task is to give up the processor.
    pub closed spec fn need_resched_spec(&self) -> bool {
        self.need_resched
    }

    /// How many times preemption has been disabled and not enabled again.
    pub closed spec fn preempt_spec(&self) -> usize {
        self.preempt_disable_count
    }

    /// The task's saved registers.
    pub closed spec fn ctx_spec(&self) -> TaskContext {
        *self.ctx
    }

    /// The task with its state set to `s`.
    pub closed spec fn with_state(self, s: TaskState) -> Self {
        TaskInner { state: s, ..self }
    }

    /// The task with its pending-preemption flag set to `p`.
    pub closed spec fn with_pending(self, p: bool) -> Self {
        TaskInner { need_resched: p, ..self }
    }

    /// The task with its preemption count set to `c`.
    pub closed spec fn with_count(self, c: usize) -> Self {
        TaskInner { preempt_disable_count: c, ..self }
    }

    /// The task with its saved registers set to `ctx`.
    pub closed spec fn with_ctx(self, ctx: TaskContext) -> Self {
        TaskInner { ctx: Box::new(ctx), ..self }
    }

    /// What each of the updates above changes, and that it changes nothing else.
    pub proof fn lemma_updates(self)
        ensures
            forall|st: TaskState| #![trigger self.with_state(st)] {
                let u = self.with_state(st);
                &&& u.state_spec() == st
                &&& u.id_spec() == self.id_spec() && u.name_spec() == self.name_spec()
                &&& u.is_init_spec() == self.is_init_spec() && u.need_resched_spec() == self.need_resched_spec()
                &&& u.preempt_spec() == self.preempt_spec() && u.ctx_spec() == self.ctx_spec()
            },
            forall|p: bool| #![trigger self.with_pending(p)] {
                let u = self.with_pending(p);
                &&& u.need_resched_spec() == p
                &&& u.id_spec() == self.id_spec() && u.name_spec() == self.name_spec()
                &&& u.is_init_spec() == self.is_init_spec() && u.state_spec() == self.state_spec()
                &&& u.preempt_spec() == self.preempt_spec() && u.ctx_spec() == self.ctx_spec()
            },
            forall|c: usize| #![trigger self.with_count(c)] {
                let u = self.with_count(c);
                &&& u.preempt_spec() == c
                &&& u.id_spec() == self.id_spec() && u.name_spec() == self.name_spec()
                &&& u.is_init_spec() == self.is_init_spec() && u.state_spec() == self.state_spec()
                &&& u.need_resched_spec() == self.need_resched_spec() && u.ctx_spec() == self.ctx_spec()
            },
            forall|x: TaskContext| #![trigger self.with_ctx(x)] {
                let u = self.with_ctx(x);
                &&& u.ctx_spec() == x
                &&& u.id_spec() == self.id_spec() && u.name_spec() == self.name_spec()
                &&& u.is_init_spec() == self.is_init_spec() && u.state_spec() == self.state_spec()
                &&& u.need_resched_spec() == self.need_resched_spec() && u.preempt_spec() == self.preempt_spec()
            },
    {
    }

    /// A ready task called `name` with a fresh identity from `counter`.
    fn new_common(counter: &mut u64, name: String) -> (r: Self)
        ensures
            r.id_spec().value() == *old(counter),
            *final(counter) == old(counter).wrapping_add(1),
            r.name_spec() == name@,
            r.state_spec() == TaskState::Ready,
            !r.is_init_spec(),
            !r.need_resched_spec(),
            r.preempt_spec() == 0,
            r.ctx_spec() == zero_context(),
    {
        TaskInner {
            id: TaskId::new(counter),
            name,
            state: TaskState::Ready,
            is_init: false,
            need_resched: false,
            preempt_disable_count: 0,
            ctx: Box::new(TaskContext::new()),
        }
    }

    /// The task that the kernel started on, called `name`.
    pub fn new_init(counter: &mut u64, name: String) -> (r: Task)
        ensures
            r.task().id_spec().value() == *old(counter),
            *final(counter) == old(counter).wrapping_add(1),
            r.task().name_spec() == name@,
            r.task().state_spec() == TaskState::Ready,
            r.task().is_init_spec(),
            !r.task().need_resched_spec(),
            r.task().preempt_spec() == 0,
            r.task().ctx_spec() == zero_context(),
            r.slice() == MAX_TIME_SLICE as isize,
    {
        let mut t = Self::new_common(counter, name);
        t.is_init = true;
        RRTask::new(t)
    }

    /// A new task called `name` that starts at `entry` on the stack whose
    /// top is `stack_top`.
    pub fn new(counter: &mut u64, entry: usize, name: String, stack_top: VirtAddr) -> (r: Task)
        ensures
            r.task().id_spec().value() == *old(counter),
            *final(counter) == old(counter).wrapping_add(1),
            r.task().name_spec() == name@,
            r.task().state_spec() == TaskState::Ready,
            !r.task().is_init_spec(),
            !r.task().need_resched_spec(),
            r.task().preempt_spec() == 0,
            r.task().ctx_spec() == (TaskContext { sp: (stack_top.0 as usize) as u64, lr: entry as u64, ..zero_context() }),
            r.slice() == MAX_TIME_SLICE as isize,
    {
        let mut inner = Self::new_common(counter, name);
        inner.ctx.init(entry, stack_top);
        RRTask::new(inner)
    }

    /// The task's name and identity, as `"name"(id)`: the `Debug` form of the
    /// name, then the identity's number in decimal, in brackets.
    pub fn id_name(&self) -> (r: String)
        ensures
            r@ == debug_str(self.name_spec()) + "("@ + decimal_digits(self.id_spec().value() as nat) + ")"@,
    {
        let mut text = debug_text(self.name.as_str());
        text.append("(");
        let id = decimal_text(self.id.as_u64());
        text.append(id.as_str());
        text.append(")");
        text
    }

    /// The task's identity.
    pub fn id(&self) -> (r: TaskId)
        ensures
            r == self.id_spec(),
    {
        self.id
    }

    /// What the task is doing.
    pub fn state(&self) -> (r: TaskState)
        ensures
            r == self.state_spec(),
    {
        self.state
    }

    /// Sets what the task is doing.
    pub fn set_state(&mut self, state: TaskState)
        ensures
            *final(self) == old(self).with_state(state),
    {
        self.state = state;
    }

    /// Whether the task is ready to run.
    pub fn is_ready(&self) -> (r: bool)
        ensures
            r == (self.state_spec() == TaskState::Ready),
    {
        matches!(self.state, TaskState::Ready)
    }

    /// Whether the task is running.
    pub fn is_running(&self) -> (r: bool)
        ensures
            r == (self.state_spec() == TaskState::Running),
    {
        matches!(self.state, TaskState::Running)
    }

    /// Whether the task is blocked.
    pub fn is_blocked(&self) -> (r: bool)
        ensures
            r == (self.state_spec() == TaskState::Blocked),
    {
        matches!(self.state, TaskState::Blocked)
    }

    /// Records whether the task is to give up the processor.
    pub fn set_preempt_pending(&mut self, pending: bool)
        ensures
            *final(self) == old(self).with_pending(pending),
    {
        self.need_resched = pending;
    }

    /// Whether the task is to give up the processor.
    pub fn need_resched(&self) -> (r: bool)
        ensures
            r == self.need_resched_spec(),
    {
        self.need_resched
    }

    /// Disables preemption once more.
    pub fn disable_preempt(&mut self)
        ensures
            *final(self) == old(self).with_count(old(self).preempt_spec().wrapping_add(1)),
    {
        self.preempt_disable_count = self.preempt_disable_count.wrapping_add(1);
    }

    /// Undoes one `disable_preempt`; `true` when preemption is enabled
    /// again by it, so that a pending preemption must be looked at.
    pub fn enable_preempt(&mut self) -> (r: bool)
        ensures
            *final(self) == old(self).with_count(old(self).preempt_spec().wrapping_sub(1)),
            r == (old(self).preempt_spec() == 1),
    {
        let before = self.preempt_disable_count;
        self.preempt_disable_count = before.wrapping_sub(1);
        before == 1
    }

    /// How many times preemption is disabled.
    pub fn preempt_count(&self) -> (r: usize)
        ensures
            r == self.preempt_spec(),
    {
        self.preempt_disable_count
    }

    /// Whether preemption is disabled exactly `count` times.
    pub fn can_preempt(&self, count: usize) -> (r: bool)
        ensures
            r == (self.preempt_spec() == count),
    {
        self.preempt_disable_count == count
    }

    /// The saved registers, to be changed in place. They are kept in a box of
    /// their own, so that they stay where they are while the task moves
    /// between the run queue and other holders.
    pub fn get_ctx_mut(&mut self) -> (r: &mut TaskContext)
        ensures
            *r == old(self).ctx_spec(),
            *final(self) == old(self).with_ctx(*final(r)),
    {
        &mut *self.ctx
    }
}

impl Identified for TaskInner {
    open spec fn ident(&self) -> u64 {
        self.id_spec().value()
    }

    fn same_task(&self, other: &Self) -> (r: bool) {
        self.id.0 == other.id.0
    }
}

} // verus!
