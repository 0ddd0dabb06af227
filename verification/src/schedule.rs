//! The periodic task scheduler: a single loop runs every registered task
//! whose interval has elapsed, and adapts its sleep granularity to the
//! shortest registered interval.
//!
//! This module is the decision core: registration, cancellation, and the
//! choice of which tasks are due at a given instant.  The surrounding
//! program owns the thread, the channel, the clock and the callbacks (kept
//! by task id), and performs each returned id's callback.

use vstd::prelude::*;

verus! {

/// One registered periodic task: when it last ran and how often it runs.
/// Times are milliseconds on the caller's monotonic clock.
#[derive(Clone, Copy, PartialEq, Eq, Structural, Debug)]
pub struct ScheduledInterval {
    pub start: u64,
    pub id: usize,
    pub time: u64,
}

/// A handle on a task to be registered: its interval and its unique id.
#[derive(Clone, Copy, PartialEq, Eq, Structural, Debug)]
pub struct SlowInterval {
    pub time: u64,
    pub id: usize,
}

impl SlowInterval {
    /// A task handle with the given interval, under an id drawn from
    /// [`IntervalManager::fresh_id`].
    pub fn new(time: u64, id: usize) -> (r: SlowInterval)
        ensures
            r.time == time,
            r.id == id,
    {
        SlowInterval { time, id }
    }
}

/// What reaches the scheduler loop over its channel.
pub enum IntervalMessage {
    Schedule(SlowInterval),
    End(usize),
}

/// The tasks are ordered by interval, shortest first.
pub open spec fn intervals_sorted(s: Seq<ScheduledInterval>) -> bool {
    forall|i: int, j: int| 0 <= i < j < s.len() ==> (#[trigger] s[i]).time <= (#[trigger] s[j]).time
}

/// Inserting a task behind every task of equal or shorter interval.
pub open spec fn insert_by_time(s: Seq<ScheduledInterval>, t: ScheduledInterval) -> Seq<
    ScheduledInterval,
>
    decreases s,
{
    if s.len() == 0 {
        seq![t]
    } else if s[0].time <= t.time {
        seq![s[0]] + insert_by_time(s.subrange(1, s.len() as int), t)
    } else {
        seq![t] + s
    }
}

proof fn lemma_insert_by_time_shape(s: Seq<ScheduledInterval>, t: ScheduledInterval, pos: int)
    requires
        0 <= pos <= s.len(),
        forall|i: int| 0 <= i < pos ==> (#[trigger] s[i]).time <= t.time,
        pos < s.len() ==> s[pos].time > t.time,
    ensures
        insert_by_time(s, t) == s.insert(pos, t),
    decreases s,
{
    if s.len() == 0 {
        assert(insert_by_time(s, t) =~= s.insert(0, t));
    } else if pos == 0 {
        assert(seq![t] + s =~= s.insert(0, t));
    } else {
        let tail = s.subrange(1, s.len() as int);
        assert(forall|i: int| 0 <= i < pos - 1 ==> (#[trigger] tail[i]).time <= t.time);
        lemma_insert_by_time_shape(tail, t, pos - 1);
        assert(seq![s[0]] + tail.insert(pos - 1, t) =~= s.insert(pos, t));
    }
}

/// All tasks with the given id removed, order kept.
pub open spec fn remove_id(s: Seq<ScheduledInterval>, id: usize) -> Seq<ScheduledInterval>
    decreases s,
{
    if s.len() == 0 {
        Seq::empty()
    } else if s[0].id == id {
        remove_id(s.subrange(1, s.len() as int), id)
    } else {
        seq![s[0]] + remove_id(s.subrange(1, s.len() as int), id)
    }
}

proof fn lemma_remove_id_snoc(s: Seq<ScheduledInterval>, x: ScheduledInterval, id: usize)
    ensures
        remove_id(s.push(x), id) == if x.id == id {
            remove_id(s, id)
        } else {
            remove_id(s, id).push(x)
        },
    decreases s,
{
    reveal_with_fuel(remove_id, 3);
    let sp = s.push(x);
    if s.len() == 0 {
        assert(sp[0] == x);
        assert(sp.subrange(1, sp.len() as int) =~= Seq::<ScheduledInterval>::empty());
        if x.id != id {
            assert(remove_id(sp, id) =~= remove_id(s, id).push(x));
        }
    } else {
        assert(sp[0] == s[0]);
        assert(sp.subrange(1, sp.len() as int) =~= s.subrange(1, s.len() as int).push(x));
        lemma_remove_id_snoc(s.subrange(1, s.len() as int), x, id);
        if x.id != id {
            assert(remove_id(sp, id) =~= remove_id(s, id).push(x));
        }
    }
}

/// The tasks due at `now`: elapsed time at least the interval, in order.
pub open spec fn due_ids(s: Seq<ScheduledInterval>, now: u64) -> Seq<usize>
    decreases s,
{
    if s.len() == 0 {
        Seq::empty()
    } else if now - s[0].start >= s[0].time {
        seq![s[0].id] + due_ids(s.subrange(1, s.len() as int), now)
    } else {
        due_ids(s.subrange(1, s.len() as int), now)
    }
}

proof fn lemma_due_ids_snoc(s: Seq<ScheduledInterval>, x: ScheduledInterval, now: u64)
    ensures
        due_ids(s.push(x), now) == if now - x.start >= x.time {
            due_ids(s, now).push(x.id)
        } else {
            due_ids(s, now)
        },
    decreases s,
{
    reveal_with_fuel(due_ids, 3);
    let sp = s.push(x);
    if s.len() == 0 {
        assert(sp[0] == x);
        assert(sp.subrange(1, sp.len() as int) =~= Seq::<ScheduledInterval>::empty());
        if now - x.start >= x.time {
            assert(due_ids(sp, now) =~= due_ids(s, now).push(x.id));
        }
    } else {
        assert(sp[0] == s[0]);
        assert(sp.subrange(1, sp.len() as int) =~= s.subrange(1, s.len() as int).push(x));
        lemma_due_ids_snoc(s.subrange(1, s.len() as int), x, now);
        if now - x.start >= x.time {
            assert(due_ids(sp, now) =~= due_ids(s, now).push(x.id));
        } else {
            assert(due_ids(sp, now) =~= due_ids(s, now));
        }
    }
}

/// The scheduler state: the registered tasks ordered by interval, the
/// adaptive sleep duration, and the source of fresh task ids.
pub struct IntervalManager {
    pub slow_intervals: Vec<ScheduledInterval>,
    pub sleep_time: u64,
    pub next_id: usize,
}

impl IntervalManager {
    pub open spec fn wf(&self) -> bool {
        intervals_sorted(self.slow_intervals@)
    }

    /// A scheduler with no tasks and the default 10 ms sleep.
    pub fn init() -> (r: IntervalManager)
        ensures
            r.wf(),
            r.slow_intervals@.len() == 0,
            r.sleep_time == 10,
            r.next_id == 1,
    {
        IntervalManager { slow_intervals: Vec::new(), sleep_time: 10, next_id: 1 }
    }

    /// Draws the next task id from the monotonic process-wide counter; ids
    /// are never reused.
    pub fn fresh_id(&mut self) -> (r: usize)
        requires
            old(self).next_id < usize::MAX,
        ensures
            r == old(self).next_id,
            final(self).next_id == old(self).next_id + 1,
            final(self).slow_intervals == old(self).slow_intervals,
            final(self).sleep_time == old(self).sleep_time,
    {
        let id = self.next_id;
        self.next_id = self.next_id + 1;
        id
    }

    /// Applies one registration or cancellation.  A registration inserts
    /// the task, keeps the list ordered by interval, and adopts the
    /// shortest interval as the sleep duration; a cancellation removes the
    /// task by id and leaves the sleep duration as it was.
    #[verifier::loop_isolation(false)]
    pub fn handle_message(&mut self, msg: IntervalMessage, now: u64)
        requires
            old(self).wf(),
        ensures
            final(self).wf(),
            final(self).next_id == old(self).next_id,
            ({
                match msg {
                    IntervalMessage::Schedule(slow) => {
                        let t = ScheduledInterval { start: now, id: slow.id, time: slow.time };
                        &&& final(self).slow_intervals@ == insert_by_time(
                            old(self).slow_intervals@,
                            t,
                        )
                        &&& final(self).sleep_time == final(self).slow_intervals@[0].time
                    },
                    IntervalMessage::End(id) => {
                        &&& final(self).slow_intervals@ == remove_id(
                            old(self).slow_intervals@,
                            id,
                        )
                        &&& final(self).sleep_time == old(self).sleep_time
                    },
                }
            }),
    {
        let ghost s0 = self.slow_intervals@;
        match msg {
            IntervalMessage::Schedule(slow) => {
                let t = ScheduledInterval { start: now, id: slow.id, time: slow.time };
                let n = self.slow_intervals.len();
                let mut pos: usize = 0;
                while pos < n && self.slow_intervals[pos].time <= t.time
                    invariant
                        pos <= n,
                        forall|i: int| 0 <= i < pos ==> (#[trigger] s0[i]).time <= t.time,
                    decreases n - pos,
                {
                    pos = pos + 1;
                }
                proof {
                    lemma_insert_by_time_shape(s0, t, pos as int);
                }
                self.slow_intervals.insert(pos, t);
                self.sleep_time = self.slow_intervals[0].time;
                proof {
                    assert forall|i: int, j: int|
                        0 <= i < j < self.slow_intervals@.len() implies (
                    #[trigger] self.slow_intervals@[i]).time <= (
                    #[trigger] self.slow_intervals@[j]).time by {
                        let s1 = self.slow_intervals@;
                        if i < pos && j > pos {
                            assert(s1[i] == s0[i]);
                            assert(s1[j] == s0[j - 1]);
                        } else if i == pos && j > pos {
                            assert(s1[j] == s0[j - 1]);
                        } else if i < pos && j == pos {
                            assert(s1[i] == s0[i]);
                        }
                    }
                }
            },
            IntervalMessage::End(id) => {
                let n = self.slow_intervals.len();
                let mut kept: Vec<ScheduledInterval> = Vec::new();
                proof {
                    assert(s0.subrange(0, 0) =~= Seq::<ScheduledInterval>::empty());
                }
                for i in 0..n
                    invariant
                        kept@ == remove_id(s0.subrange(0, i as int), id),
                {
                    proof {
                        assert(s0.subrange(0, i + 1) =~= s0.subrange(0, i as int).push(
                            s0[i as int],
                        ));
                        lemma_remove_id_snoc(s0.subrange(0, i as int), s0[i as int], id);
                    }
                    let t = self.slow_intervals[i];
                    if t.id != id {
                        kept.push(t);
                    }
                }
                proof {
                    assert(s0.subrange(0, n as int) =~= s0);
                }
                self.slow_intervals = kept;
                proof {
                    lemma_remove_id_sorted(s0, id);
                }
            },
        }
    }

    /// Every task whose elapsed time has reached its interval: their ids
    /// are returned in registration order and their clocks reset to `now`;
    /// every other task is untouched.
    #[verifier::loop_isolation(false)]
    pub fn run_due(&mut self, now: u64) -> (r: Vec<usize>)
        requires
            old(self).wf(),
            forall|i: int|
                0 <= i < old(self).slow_intervals@.len() ==> (
                #[trigger] old(self).slow_intervals@[i]).start <= now,
        ensures
            final(self).wf(),
            final(self).next_id == old(self).next_id,
            final(self).sleep_time == old(self).sleep_time,
            final(self).slow_intervals@.len() == old(self).slow_intervals@.len(),
            forall|i: int|
                0 <= i < old(self).slow_intervals@.len() ==> {
                    let o = #[trigger] old(self).slow_intervals@[i];
                    let f = #[trigger] final(self).slow_intervals@[i];
                    &&& f.id == o.id
                    &&& f.time == o.time
                    &&& f.start == if now - o.start >= o.time {
                        now
                    } else {
                        o.start
                    }
                },
            r@ == due_ids(old(self).slow_intervals@, now),
    {
        let ghost s0 = self.slow_intervals@;
        let n = self.slow_intervals.len();
        let mut updated: Vec<ScheduledInterval> = Vec::new();
        let mut ids: Vec<usize> = Vec::new();
        proof {
            assert(s0.subrange(0, 0) =~= Seq::<ScheduledInterval>::empty());
        }
        for i in 0..n
            invariant
                updated@.len() == i,
                ids@ == due_ids(s0.subrange(0, i as int), now),
                forall|j: int|
                    0 <= j < i ==> {
                        let o = #[trigger] s0[j];
                        let f = #[trigger] updated@[j];
                        &&& f.id == o.id
                        &&& f.time == o.time
                        &&& f.start == if now - o.start >= o.time {
                            now
                        } else {
                            o.start
                        }
                    },
        {
            proof {
                assert(s0.subrange(0, i + 1) =~= s0.subrange(0, i as int).push(s0[i as int]));
                lemma_due_ids_snoc(s0.subrange(0, i as int), s0[i as int], now);
            }
            let t = self.slow_intervals[i];
            if now - t.start >= t.time {
                ids.push(t.id);
                updated.push(ScheduledInterval { start: now, id: t.id, time: t.time });
            } else {
                updated.push(t);
            }
        }
        proof {
            assert(s0.subrange(0, n as int) =~= s0);
            assert forall|i: int, j: int| 0 <= i < j < updated@.len() implies (
            #[trigger] updated@[i]).time <= (#[trigger] updated@[j]).time by {
                assert(updated@[i].time == s0[i].time);
                assert(updated@[j].time == s0[j].time);
            }
        }
        self.slow_intervals = updated;
        ids
    }
}

proof fn lemma_remove_id_lower(s: Seq<ScheduledInterval>, id: usize, lo: u64)
    requires
        forall|i: int| 0 <= i < s.len() ==> lo <= (#[trigger] s[i]).time,
    ensures
        forall|m: int| 0 <= m < remove_id(s, id).len() ==> lo <= (#[trigger] remove_id(s, id)[m]).time,
    decreases s,
{
    if s.len() > 0 {
        let tail = s.subrange(1, s.len() as int);
        assert(forall|i: int| 0 <= i < tail.len() ==> lo <= (#[trigger] tail[i]).time);
        lemma_remove_id_lower(tail, id, lo);
        let r = remove_id(s, id);
        if s[0].id != id {
            assert forall|m: int| 0 <= m < r.len() implies lo <= (#[trigger] r[m]).time by {
                if m > 0 {
                    assert(r[m] == remove_id(tail, id)[m - 1]);
                }
            }
        }
    }
}

proof fn lemma_remove_id_sorted(s: Seq<ScheduledInterval>, id: usize)
    requires
        intervals_sorted(s),
    ensures
        intervals_sorted(remove_id(s, id)),
    decreases s,
{
    if s.len() > 0 {
        let tail = s.subrange(1, s.len() as int);
        assert(intervals_sorted(tail)) by {
            assert forall|i: int, j: int| 0 <= i < j < tail.len() implies (
            #[trigger] tail[i]).time <= (#[trigger] tail[j]).time by {
                assert(tail[i] == s[i + 1]);
                assert(tail[j] == s[j + 1]);
            }
        }
        lemma_remove_id_sorted(tail, id);
        if s[0].id != id {
            assert(forall|i: int| 0 <= i < tail.len() ==> s[0].time <= (#[trigger] tail[i]).time);
            lemma_remove_id_lower(tail, id, s[0].time);
            let r = remove_id(s, id);
            let rt = remove_id(tail, id);
            assert forall|i: int, j: int| 0 <= i < j < r.len() implies (#[trigger] r[i]).time
                <= (#[trigger] r[j]).time by {
                assert(r[j] == rt[j - 1]);
                if i > 0 {
                    assert(r[i] == rt[i - 1]);
                }
            }
        }
    }
}

} // verus!
