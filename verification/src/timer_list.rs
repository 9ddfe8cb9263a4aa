//! A list of timed events, handed out earliest deadline first.
//!
//! Deadlines are instants in nanoseconds.
use vstd::prelude::*;

verus! {

/// An event that runs when its deadline has passed.
pub trait CallableEvent {
    fn callback(self, now: u64);
}

/// An event with its deadline.
pub struct TimerEvent<E> {
    deadline: u64,
    event: E,
}

/// The events waiting for their deadlines.
pub struct TimerList<E: CallableEvent> {
    events: Vec<TimerEvent<E>>,
}

/// The events of `s` whose place in `drop` is `false`, in their order.
pub open spec fn kept<E>(s: Seq<(u64, E)>, drop: Seq<bool>) -> Seq<(u64, E)>
    decreases s.len(),
{
    if s.len() == 0 || drop.len() == 0 {
        Seq::empty()
    } else if drop.last() {
        kept(s.drop_last(), drop.drop_last())
    } else {
        kept(s.drop_last(), drop.drop_last()).push(s.last())
    }
}

/// No deadline in `s` is before that of entry `j`.
pub open spec fn earliest<E>(s: Seq<(u64, E)>, j: int) -> bool {
    &&& 0 <= j < s.len()
    &&& forall|m: int| 0 <= m < s.len() ==> s[j].0 <= #[trigger] s[m].0
}

/// Events come out in the order of their deadlines: the earliest event of
/// what is left after taking out the earliest one is not due before it.
pub proof fn lemma_expire_in_order<E>(s: Seq<(u64, E)>, j: int, k: int)
    requires
        earliest(s, j),
        earliest(s.remove(j), k),
    ensures
        s[j].0 <= s.remove(j)[k].0,
{
    let t = s.remove(j);
    if k < j {
        assert(t[k] == s[k]);
    } else {
        assert(t[k] == s[k + 1]);
    }
}

impl<E: CallableEvent> TimerList<E> {
    /// The deadlines and events, in the list's internal order.
    pub closed spec fn entries(&self) -> Seq<(u64, E)> {
        self.events@.map_values(|e: TimerEvent<E>| (e.deadline, e.event))
    }

    /// An empty list.
    pub fn new() -> (r: Self)
        ensures
            r.entries() == Seq::<(u64, E)>::empty(),
    {
        TimerList { events: Vec::new() }
    }

    /// Whether no event is waiting.
    pub fn is_empty(&self) -> (r: bool)
        ensures
            r == (self.entries().len() == 0),
    {
        self.events.len() == 0
    }

    /// Adds `event` with `deadline`.
    pub fn add(&mut self, deadline: u64, event: E)
        ensures
            final(self).entries() == old(self).entries().push((deadline, event)),
    {
        self.events.push(TimerEvent { deadline, event });
        proof {
            assert(self.entries() =~= old(self).entries().push((deadline, event)));
        }
    }

    /// Removes the events for which `condition` holds.
    pub fn cancel<F>(&mut self, condition: F)
        where
            F: Fn(&E) -> bool,
        requires
            forall|e: &E| #[trigger] condition.requires((e,)),
        ensures
            exists|drop: Seq<bool>| {
                &&& drop.len() == old(self).entries().len()
                &&& final(self).entries() == kept(old(self).entries(), drop)
                &&& forall|i: int| 0 <= i < drop.len() ==> condition.ensures((&old(self).entries()[i].1,), #[trigger] drop[i])
            },
    {
        let ghost start = self.entries();
        let mut rest: Vec<TimerEvent<E>> = Vec::new();
        std::mem::swap(&mut rest, &mut self.events);
        let ghost all = rest@;
        let mut kept_events: Vec<TimerEvent<E>> = Vec::new();
        let ghost mut drop: Seq<bool> = Seq::empty();
        let mut n: usize = 0;
        let total = rest.len();
        while rest.len() > 0
            invariant
                forall|e: &E| #[trigger] condition.requires((e,)),
                start == all.map_values(|e: TimerEvent<E>| (e.deadline, e.event)),
                total == all.len(),
                n + rest@.len() == total,
                rest@ == all.subrange(n as int, total as int),
                drop.len() == n,
                kept_events@.map_values(|e: TimerEvent<E>| (e.deadline, e.event)) == kept(start.subrange(0, n as int), drop),
                forall|i: int| 0 <= i < n ==> condition.ensures((&start[i].1,), #[trigger] drop[i]),
            decreases rest.len(),
        {
            let ev = rest.remove(0);
            let c = condition(&ev.event);
            let ghost old_drop = drop;
            let ghost old_kept = kept_events@;
            proof {
                assert(ev == all[n as int]);
                drop = drop.push(c);
                let s2 = start.subrange(0, n + 1);
                assert(s2.drop_last() =~= start.subrange(0, n as int));
                assert(drop.drop_last() =~= old_drop);
                assert(s2.last() == (ev.deadline, ev.event));
                assert(rest@ =~= all.subrange(n + 1, total as int));
            }
            if !c {
                kept_events.push(ev);
                proof {
                    assert(kept_events@.map_values(|e: TimerEvent<E>| (e.deadline, e.event)) =~= old_kept.map_values(
                        |e: TimerEvent<E>| (e.deadline, e.event)).push((ev.deadline, ev.event)));
                }
            }
            n = n + 1;
        }
        self.events = kept_events;
        proof {
            assert(start.subrange(0, n as int) =~= start);
        }
    }

    /// Takes out the event with the earliest deadline if that deadline is
    /// not after `now`.
    pub fn expire_event(&mut self, now: u64) -> (r: Option<(u64, E)>)
        ensures
            (exists|j: int| 0 <= j < old(self).entries().len() && #[trigger] old(self).entries()[j].0 <= now) <==> r is Some,
            r is None ==> final(self).entries() == old(self).entries(),
            r matches Some(x) ==> exists|j: int| #[trigger] earliest(old(self).entries(), j)
                && x == old(self).entries()[j] && final(self).entries() == old(self).entries().remove(j),
    {
        let n = self.events.len();
        if n == 0 {
            return None;
        }
        let mut best: usize = 0;
        let mut k: usize = 1;
        while k < n
            invariant
                n == self.events@.len(),
                n > 0,
                best < k <= n,
                forall|m: int| 0 <= m < k ==> self.events@[best as int].deadline <= #[trigger] self.events@[m].deadline,
            decreases n - k,
        {
            if self.events[k].deadline < self.events[best].deadline {
                best = k;
            }
            k = k + 1;
        }
        proof {
            assert(earliest(self.entries(), best as int));
        }
        if self.events[best].deadline <= now {
            let e = self.events.remove(best);
            proof {
                assert(old(self).entries()[best as int].0 <= now);
                assert(self.entries() =~= old(self).entries().remove(best as int));
            }
            Some((e.deadline, e.event))
        } else {
            proof {
                assert forall|j: int| 0 <= j < old(self).entries().len() implies !(#[trigger] old(self).entries()[j].0 <= now) by {
                    assert(old(self).entries()[j].0 >= old(self).entries()[best as int].0);
                }
            }
            None
        }
    }
}

} // verus!
