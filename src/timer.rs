use crate::log::get_current_time;
use vstd::prelude::*;

verus! {

/// A periodic task: its id, when it is next due and its period, in milliseconds.
#[derive(Clone, Copy, Debug, PartialEq, Eq, Structural)]
pub struct TimerEntry {
    pub id: usize,
    pub due: u64,
    pub interval: u64,
}

/// `now + interval`, or the largest time if that does not fit.
pub open spec fn due_after(now: u64, interval: u64) -> u64 {
    if now + interval <= u64::MAX {
        (now + interval) as u64
    } else {
        u64::MAX
    }
}

/// Whether `e` is due at `now`.
pub open spec fn is_due(e: TimerEntry, now: u64) -> bool {
    e.due <= now
}

/// The ids of the entries due at `now`, in registration order.
pub open spec fn due_ids(s: Seq<TimerEntry>, now: u64) -> Seq<usize> {
    s.filter(|e: TimerEntry| is_due(e, now)).map_values(|e: TimerEntry| e.id)
}

/// `e` after a run at `now`: a due entry is next due one period after `now`.
pub open spec fn rescheduled(e: TimerEntry, now: u64) -> TimerEntry {
    if is_due(e, now) {
        TimerEntry { due: due_after(now, e.interval), ..e }
    } else {
        e
    }
}

/// Time from `now` until `e` is due, zero if it already is.
pub open spec fn wait_for(e: TimerEntry, now: u64) -> u64 {
    if e.due > now {
        (e.due - now) as u64
    } else {
        0
    }
}

/// A run at `t` takes `o` to `f` and fires `fired`.
pub open spec fn timer_ran(o: Seq<TimerEntry>, f: Seq<TimerEntry>, fired: Seq<usize>, t: u64) -> bool {
    &&& fired == due_ids(o, t)
    &&& f == o.map_values(|e: TimerEntry| rescheduled(e, t))
}

/// `w` is the time from `now` until the earliest entry of `s` is due.
pub open spec fn earliest_wait(s: Seq<TimerEntry>, now: u64, w: u64) -> bool {
    &&& exists|j: int| 0 <= j < s.len() && w == wait_for(#[trigger] s[j], now)
    &&& forall|j: int| 0 <= j < s.len() ==> w <= wait_for(#[trigger] s[j], now)
}

/// Periodic tasks ordered by due time. A task is known by the id that
/// registration returned; the caller runs the task that goes with an id.
pub struct Timer {
    entries: Vec<TimerEntry>,
    next_id: usize,
}

impl Timer {
    /// The registered tasks, in registration order.
    pub closed spec fn entries(&self) -> Seq<TimerEntry> {
        self.entries@
    }

    /// The id the next registration gets.
    pub closed spec fn next_id(&self) -> usize {
        self.next_id
    }

    pub fn new() -> (r: Self)
        ensures
            r.entries() == Seq::<TimerEntry>::empty(),
            r.next_id() == 0,
    {
        Timer { entries: Vec::new(), next_id: 0 }
    }

    /// Registers a task that runs every `interval` milliseconds, first at
    /// `now + interval`; returns its id.
    pub fn register_at(&mut self, now: u64, interval: u64) -> (id: usize)
        requires
            old(self).next_id() < usize::MAX,
        ensures
            id == old(self).next_id(),
            final(self).next_id() == old(self).next_id() + 1,
            final(self).entries() == old(self).entries().push(
                TimerEntry { id, due: due_after(now, interval), interval },
            ),
    {
        let id = self.next_id;
        let due = now.saturating_add(interval);
        self.entries.push(TimerEntry { id, due, interval });
        self.next_id = id + 1;
        id
    }

    /// Registers a task that runs every `interval` milliseconds, first one
    /// period from now; returns its id.
    pub fn register(&mut self, interval: u64) -> (id: usize)
        requires
            old(self).next_id() < usize::MAX,
        ensures
            id == old(self).next_id(),
            final(self).next_id() == old(self).next_id() + 1,
            final(self).entries().len() == old(self).entries().len() + 1,
            exists|t: u64|
                final(self).entries() == old(self).entries().push(
                    TimerEntry { id, due: #[trigger] due_after(t, interval), interval },
                ),
    {
        let now = get_current_time();
        let id = self.register_at(now, interval);
        proof {
            assert(self.entries() == old(self).entries().push(
                TimerEntry { id, due: due_after(now, interval), interval },
            ));
        }
        id
    }

    /// Takes every task due at `now`: returns their ids in registration order
    /// and schedules each again one period after `now`.
    pub fn run_at(&mut self, now: u64) -> (fired: Vec<usize>)
        ensures
            fired@ == due_ids(old(self).entries(), now),
            final(self).entries() == old(self).entries().map_values(|e: TimerEntry| rescheduled(e, now)),
            final(self).next_id() == old(self).next_id(),
    {
        let ghost s = self.entries@;
        let ghost due = |e: TimerEntry| is_due(e, now);
        let ghost id_of = |e: TimerEntry| e.id;
        let mut fired: Vec<usize> = Vec::new();
        let mut i: usize = 0;
        while i < self.entries.len()
            invariant
                self.entries@.len() == s.len(),
                self.next_id == old(self).next_id,
                s == old(self).entries@,
                i <= s.len(),
                due == (|e: TimerEntry| is_due(e, now)),
                id_of == (|e: TimerEntry| e.id),
                forall|j: int| 0 <= j < i ==> self.entries@[j] == rescheduled(s[j], now),
                forall|j: int| i <= j < s.len() ==> self.entries@[j] == s[j],
                fired@ == s.take(i as int).filter(due).map_values(id_of),
            decreases s.len() - i,
        {
            let e = self.entries[i];
            proof {
                reveal_with_fuel(Seq::filter, 1);
                let t = s.take(i + 1);
                assert(t.drop_last() == s.take(i as int));
                assert(t.last() == e);
                let prev = s.take(i as int).filter(due);
                if due(e) {
                    assert(t.filter(due) == prev.push(e));
                    assert(prev.push(e).map_values(id_of) =~= prev.map_values(id_of).push(e.id));
                } else {
                    assert(t.filter(due) == prev);
                }
            }
            if e.due <= now {
                fired.push(e.id);
                self.entries.set(i, TimerEntry { id: e.id, due: now.saturating_add(e.interval), interval: e.interval });
            }
            i += 1;
        }
        proof {
            assert(s.take(s.len() as int) == s);
            assert(self.entries@ =~= s.map_values(|e: TimerEntry| rescheduled(e, now)));
        }
        fired
    }

    /// Takes every task due now; see [`Timer::run_at`].
    pub fn run(&mut self) -> (fired: Vec<usize>)
        ensures
            final(self).entries().len() == old(self).entries().len(),
            final(self).next_id() == old(self).next_id(),
            exists|t: u64| #[trigger] timer_ran(old(self).entries(), final(self).entries(), fired@, t),
    {
        let now = get_current_time();
        let fired = self.run_at(now);
        proof {
            assert(timer_ran(old(self).entries(), self.entries(), fired@, now));
        }
        fired
    }

    /// Time from `now` until the earliest task is due (zero if one already
    /// is), or `None` with no task.
    pub fn next_timeout_at(&self, now: u64) -> (r: Option<u64>)
        ensures
            r.is_none() <==> self.entries().len() == 0,
            r matches Some(w) ==> earliest_wait(self.entries(), now, w),
    {
        if self.entries.len() == 0 {
            return None;
        }
        let mut best: u64 = self.entries[0].due;
        let mut i: usize = 1;
        while i < self.entries.len()
            invariant
                1 <= i <= self.entries@.len(),
                exists|j: int| 0 <= j < i && best == (#[trigger] self.entries@[j]).due,
                forall|j: int| 0 <= j < i ==> best <= (#[trigger] self.entries@[j]).due,
            decreases self.entries@.len() - i,
        {
            if self.entries[i].due < best {
                best = self.entries[i].due;
            }
            i += 1;
        }
        let w = if best > now { best - now } else { 0 };
        proof {
            let j = choose|j: int| 0 <= j < self.entries@.len() && best == (#[trigger] self.entries@[j]).due;
            assert(w == wait_for(self.entries()[j], now));
            assert forall|k: int| 0 <= k < self.entries().len() implies w <= wait_for(#[trigger] self.entries()[k], now) by {
                assert(best <= self.entries@[k].due);
            }
        }
        Some(w)
    }

    /// Time until the earliest task is due, or `None` with no task.
    pub fn next_timeout(&self) -> (r: Option<u64>)
        ensures
            r.is_none() <==> self.entries().len() == 0,
            r matches Some(w) ==> exists|t: u64| #[trigger] earliest_wait(self.entries(), t, w),
    {
        let now = get_current_time();
        let r = self.next_timeout_at(now);
        proof {
            if let Some(w) = r {
                assert(earliest_wait(self.entries(), now, w));
            }
        }
        r
    }
}

} // verus!
