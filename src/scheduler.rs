use vstd::prelude::*;

use crate::ids::TaskId;
use crate::isa::tdiv;

verus! {

/// Cap of the sample counter of a rolling average: older samples weigh at
/// most one part in this many.
pub const AVERAGE_WINDOW: u8 = 150;

/// Instructions per slice before any timing history exists.
pub const DEFAULT_QUANTUM: u32 = 500;

/// Wall time, in nanoseconds, that one scheduling round aims at (200 µs).
pub const TARGET_ROUND: u128 = 200_000;

/// A task in the scheduler: when it last ran and how long it asked to sleep.
/// Times are nanoseconds since the Unix epoch.
#[derive(Clone, Copy, Debug, PartialEq, Eq, Structural)]
pub struct SchedulerTask {
    pub tid: TaskId,
    pub last_ran: u64,
    pub sleep_for: Option<u64>,
}

impl SchedulerTask {
    /// The earliest time at which the task may run again.
    pub open spec fn available(self) -> int {
        match self.sleep_for {
            Some(d) => self.last_ran + d,
            None => self.last_ran as int,
        }
    }

    /// A new entry, eligible at once.
    pub fn new(tid: TaskId) -> (r: SchedulerTask)
        ensures
            r == (SchedulerTask { tid, last_ran: 0, sleep_for: None }),
    {
        SchedulerTask { tid, last_ran: 0, sleep_for: None }
    }

    pub fn time_available_to_run(&self) -> (r: u128)
        ensures
            r == self.available(),
    {
        match self.sleep_for {
            Some(d) => self.last_ran as u128 + d as u128,
            None => self.last_ran as u128,
        }
    }
}

/// A rolling average, as (average, sample count).
pub open spec fn roll_spec(avg: int, count: int, val: int) -> (int, int) {
    let c = if count < AVERAGE_WINDOW { count + 1 } else { count };
    (avg + tdiv(val - avg, c), c)
}

/// An average over a bounded window of recent samples: each new sample moves
/// the average by its distance divided by the sample count, rounded toward
/// zero, and the count stops growing at `AVERAGE_WINDOW`.
pub struct RollingAverage {
    average: u128,
    counter: u8,
}

impl RollingAverage {
    pub closed spec fn avg(&self) -> int {
        self.average as int
    }

    pub closed spec fn count(&self) -> int {
        self.counter as int
    }

    pub closed spec fn wf(&self) -> bool {
        self.counter <= AVERAGE_WINDOW
    }

    pub fn new() -> (r: RollingAverage)
        ensures
            r.wf(),
            r.avg() == 0,
            r.count() == 0,
    {
        RollingAverage { average: 0, counter: 0 }
    }

    /// Adds a sample.
    pub fn roll(&mut self, val: u128)
        requires
            old(self).wf(),
        ensures
            final(self).wf(),
            (final(self).avg(), final(self).count()) == roll_spec(old(self).avg(), old(self).count(), val as int),
            final(self).avg() <= if old(self).avg() > val { old(self).avg() } else { val as int },
    {
        if self.counter < AVERAGE_WINDOW {
            self.counter = self.counter + 1;
        }
        let c = self.counter as u128;
        let avg = self.average;
        proof {
            let x = val as int - avg as int;
            if x > 0 {
                assert(0 <= x / c as int <= x) by (nonlinear_arith)
                    requires
                        x > 0,
                        c > 0,
                ;
            } else if x < 0 {
                assert(0 <= (-x) / c as int <= -x) by (nonlinear_arith)
                    requires
                        x < 0,
                        c > 0,
                ;
            }
        }
        if val >= avg {
            self.average = avg + (val - avg) / c;
        } else {
            self.average = avg - (avg - val) / c;
        }
    }

    pub fn average(&self) -> (r: u128)
        ensures
            r == self.avg(),
    {
        self.average
    }
}

/// Instructions that the next slice may run, from the average instructions
/// per slice and the average slice duration in nanoseconds.
pub open spec fn quantum_spec(instructions: int, duration: int) -> u32 {
    if duration == 0 {
        DEFAULT_QUANTUM
    } else {
        ((instructions * TARGET_ROUND) / duration) as u32
    }
}

/// Index of the first entry with the earliest time available.
pub open spec fn earliest_index(s: Seq<SchedulerTask>) -> int
    decreases s.len(),
{
    if s.len() <= 1 {
        0
    } else {
        let k = earliest_index(s.drop_last());
        if s.last().available() < s[k].available() {
            s.len() - 1
        } else {
            k
        }
    }
}

/// The scheduler as a mathematical value.
pub ghost struct SchedView {
    /// Ready entries, in the order they were inserted.
    pub ready: Seq<SchedulerTask>,
    /// Tasks whose entries are to be discarded when next met.
    pub marked: Seq<TaskId>,
    pub instructions: (int, int),
    pub duration: (int, int),
    pub round: (int, int),
    pub current_time: Option<int>,
    pub total: u64,
}

/// `marks` without the first mark of task `t`, if there is one.
pub open spec fn remove_first(marks: Seq<TaskId>, t: TaskId) -> Seq<TaskId>
    decreases marks.len(),
{
    if marks.len() == 0 {
        marks
    } else if marks[0] == t {
        marks.drop_first()
    } else {
        seq![marks[0]] + remove_first(marks.drop_first(), t)
    }
}

/// Goes through `ready` in order: an entry whose task still has a mark is
/// discarded and takes one of its marks away; the others are kept. Gives the
/// kept entries and the marks left.
pub open spec fn sweep(ready: Seq<SchedulerTask>, marks: Seq<TaskId>) -> (Seq<SchedulerTask>, Seq<TaskId>)
    decreases ready.len(),
{
    if ready.len() == 0 {
        (ready, marks)
    } else if marks.contains(ready[0].tid) {
        sweep(ready.drop_first(), remove_first(marks, ready[0].tid))
    } else {
        let r = sweep(ready.drop_first(), marks);
        (seq![ready[0]] + r.0, r.1)
    }
}

/// The ready entries left once the marked ones are discarded.
pub open spec fn live(v: SchedView) -> Seq<SchedulerTask> {
    sweep(v.ready, v.marked).0

}

/// Removing the first mark of `t` is removing it at its first position.
pub proof fn lemma_remove_first(marks: Seq<TaskId>, t: TaskId, j: int)
    requires
        0 <= j < marks.len(),
        marks[j] == t,
        forall|i: int| 0 <= i < j ==> marks[i] != t,
    ensures
        remove_first(marks, t) == marks.remove(j),
    decreases j,
{
    if j == 0 {
        assert(marks.drop_first() =~= marks.remove(0));
    } else {
        lemma_remove_first(marks.drop_first(), t, j - 1);
        assert(seq![marks[0]] + marks.drop_first().remove(j - 1) =~= marks.remove(j));
    }
}

/// Removing the first mark of `t` leaves the marks of other tasks as they were.
pub proof fn lemma_remove_first_contains(marks: Seq<TaskId>, t: TaskId, u: TaskId)
    requires
        u != t,
    ensures
        remove_first(marks, t).contains(u) == marks.contains(u),
    decreases marks.len(),
{
    if marks.len() > 0 {
        lemma_remove_first_contains(marks.drop_first(), t, u);
        if marks[0] != t {
            let r = remove_first(marks.drop_first(), t);
            assert((seq![marks[0]] + r)[0] == marks[0]);
            if r.contains(u) {
                let k = choose|k: int| 0 <= k < r.len() && r[k] == u;
                assert((seq![marks[0]] + r)[k + 1] == u);
            }
            if (seq![marks[0]] + r).contains(u) {
                let k = choose|k: int| 0 <= k < (seq![marks[0]] + r).len() && (seq![marks[0]] + r)[k] == u;
                if k > 0 {
                    assert(r[k - 1] == u);
                }
            }
        }
        if marks.contains(u) {
            let k = choose|k: int| 0 <= k < marks.len() && marks[k] == u;
            if k > 0 {
                assert(marks.drop_first()[k - 1] == u);
            }
        }
        if marks.drop_first().contains(u) {
            let k = choose|k: int| 0 <= k < marks.drop_first().len() && marks.drop_first()[k] == u;
            assert(marks[k + 1] == u);
        }
    }
}

/// Without marks, nothing is discarded.
pub proof fn lemma_sweep_unmarked(s: Seq<SchedulerTask>)
    ensures
        sweep(s, Seq::empty()) == (s, Seq::<TaskId>::empty()),
    decreases s.len(),
{
    if s.len() > 0 {
        lemma_sweep_unmarked(s.drop_first());
        assert(!Seq::<TaskId>::empty().contains(s[0].tid));
        assert(seq![s[0]] + s.drop_first() =~= s);
    }
}

/// Every kept entry is a ready entry; with distinct tasks, its task had no mark.
pub proof fn lemma_sweep_kept(ready: Seq<SchedulerTask>, marks: Seq<TaskId>, k: int)
    requires
        0 <= k < sweep(ready, marks).0.len(),
    ensures
        exists|j: int| 0 <= j < ready.len() && ready[j] == sweep(ready, marks).0[k],
        distinct_tasks(ready) ==> !marks.contains(sweep(ready, marks).0[k].tid),
    decreases ready.len(),
{
    let rest = ready.drop_first();
    assert(distinct_tasks(ready) ==> distinct_tasks(rest)) by {
        if distinct_tasks(ready) {
            assert forall|a: int, b: int| 0 <= a < b < rest.len() implies #[trigger] rest[a].tid != #[trigger] rest[b].tid by {
                assert(ready[a + 1].tid != ready[b + 1].tid);
            }
        }
    }
    if marks.contains(ready[0].tid) {
        let m2 = remove_first(marks, ready[0].tid);
        lemma_sweep_kept(rest, m2, k);
        let j = choose|j: int| 0 <= j < rest.len() && rest[j] == sweep(rest, m2).0[k];
        assert(ready[j + 1] == rest[j]);
        if distinct_tasks(ready) {
            assert(ready[0].tid != ready[j + 1].tid);
            lemma_remove_first_contains(marks, ready[0].tid, rest[j].tid);
        }
    } else {
        let r = sweep(rest, marks);
        if k == 0 {
            assert(sweep(ready, marks).0[0] == ready[0]);
        } else {
            assert(sweep(ready, marks).0[k] == r.0[k - 1]);
            lemma_sweep_kept(rest, marks, k - 1);
            let j = choose|j: int| 0 <= j < rest.len() && rest[j] == r.0[k - 1];
            assert(ready[j + 1] == rest[j]);
        }
    }
}

/// What `schedule_next_task` hands out at time `now`: the entry (with its
/// sleep cleared), the quantum, and how long the caller must wait first.
pub open spec fn schedule_result(v: SchedView, now: u64) -> Option<(SchedulerTask, u32, u128)> {
    let l = live(v);
    if l.len() == 0 {
        None
    } else {
        let e = l[earliest_index(l)];
        let wait = if e.available() > now { e.available() - now } else { 0 };
        Some((SchedulerTask { sleep_for: None, ..e }, quantum_spec(v.instructions.0, v.duration.0), wait as u128))
    }
}

/// The scheduler after `schedule_next_task` at time `now`.
pub open spec fn schedule_state(v: SchedView, now: u64) -> SchedView {
    let l = live(v);
    let round = match v.current_time {
        Some(t) => if now >= t { roll_spec(v.round.0, v.round.1, now - t) } else { v.round },
        None => v.round,
    };
    let ready = if l.len() == 0 { l } else { l.remove(earliest_index(l)) };
    let current = if l.len() == 0 {
        now as int
    } else {
        let e = l[earliest_index(l)];
        if e.available() > now { e.available() } else { now as int }
    };
    SchedView { ready, marked: sweep(v.ready, v.marked).1, round, current_time: Some(current), ..v }
}

/// The scheduler after `scheduled_task_report`.
pub open spec fn report_state(v: SchedView, task: Option<SchedulerTask>, iterations: u32, start: u64, end: u64) -> SchedView {
    let ready = match task {
        Some(e) => if v.marked.contains(e.tid) { v.ready } else { v.ready.push(SchedulerTask { last_ran: end, ..e }) },
        None => v.ready,
    };
    let marked = match task {
        Some(e) => if v.marked.contains(e.tid) { remove_first(v.marked, e.tid) } else { v.marked },
        None => v.marked,
    };
    SchedView {
        ready,
        marked,
        instructions: roll_spec(v.instructions.0, v.instructions.1, iterations as int),
        duration: roll_spec(v.duration.0, v.duration.1, end - start),
        round: v.round,
        current_time: v.current_time,
        total: if v.total + iterations > u64::MAX { u64::MAX } else { (v.total + iterations) as u64 },
    }
}

/// Decides which task runs next and for how many instructions: the ready
/// entry with the earliest time available, first inserted among equals.
pub struct Scheduler {
    task_list: Vec<SchedulerTask>,
    tasks_to_remove: Vec<TaskId>,
    average_instructions: RollingAverage,
    average_vm_duration: RollingAverage,
    average_total_duration: RollingAverage,
    current_time: Option<u128>,
    total_iterations: u64,
}

impl View for Scheduler {
    type V = SchedView;

    closed spec fn view(&self) -> SchedView {
        SchedView {
            ready: self.task_list@,
            marked: self.tasks_to_remove@,
            instructions: (self.average_instructions.avg(), self.average_instructions.count()),
            duration: (self.average_vm_duration.avg(), self.average_vm_duration.count()),
            round: (self.average_total_duration.avg(), self.average_total_duration.count()),
            current_time: match self.current_time {
                Some(t) => Some(t as int),
                None => None,
            },
            total: self.total_iterations,
        }
    }
}

impl Scheduler {
    pub closed spec fn wf(&self) -> bool {
        &&& self.average_instructions.wf()
        &&& self.average_vm_duration.wf()
        &&& self.average_total_duration.wf()
        &&& self.average_instructions.avg() <= u32::MAX
    }

    /// An empty scheduler with no timing history.
    pub fn new() -> (r: Scheduler)
        ensures
            r.wf(),
            r@ == (SchedView {
                ready: Seq::empty(),
                marked: Seq::empty(),
                instructions: (0, 0),
                duration: (0, 0),
                round: (0, 0),
                current_time: None,
                total: 0,
            }),
    {
        Scheduler {
            task_list: Vec::new(),
            tasks_to_remove: Vec::new(),
            average_instructions: RollingAverage::new(),
            average_vm_duration: RollingAverage::new(),
            average_total_duration: RollingAverage::new(),
            current_time: None,
            total_iterations: 0,
        }
    }

    /// Adds task `tid`, eligible at once.
    pub fn add_task(&mut self, tid: TaskId)
        requires
            old(self).wf(),
        ensures
            final(self).wf(),
            final(self)@ == (SchedView { ready: old(self)@.ready.push(SchedulerTask { tid, last_ran: 0, sleep_for: None }), ..old(self)@ }),
    {
        self.task_list.push(SchedulerTask::new(tid));
    }

    pub fn total_iterations(&self) -> (r: u64)
        ensures
            r == self@.total,
    {
        self.total_iterations
    }

    /// Marks task `tid` for removal; its entry is discarded when next met.
    pub fn remove_task(&mut self, tid: TaskId)
        requires
            old(self).wf(),
        ensures
            final(self).wf(),
            final(self)@ == (SchedView { marked: old(self)@.marked.push(tid), ..old(self)@ }),
    {
        self.tasks_to_remove.push(tid);
    }

    /// Whether task `tid` has a ready entry that would not be discarded.
    pub fn has_task(&self, tid: TaskId) -> (r: bool)
        ensures
            r == (exists|i: int| 0 <= i < live(self@).len() && live(self@)[i].tid == tid),
    {
        let (kept, _marks) = self.sweep_marked();
        let mut i: usize = 0;
        while i < kept.len()
            invariant
                i <= kept@.len(),
                kept@ == live(self@),
                forall|j: int| 0 <= j < i ==> kept@[j].tid != tid,
            decreases kept@.len() - i,
        {
            if kept[i].tid == tid {
                return true;
            }
            i = i + 1;
        }
        false
    }

    /// The ready entries and marks left once marked entries are discarded; see `sweep`.
    fn sweep_marked(&self) -> (r: (Vec<SchedulerTask>, Vec<TaskId>))
        ensures
            (r.0@, r.1@) == sweep(self@.ready, self@.marked),
    {
        let ghost v = self@;
        let n = self.task_list.len();
        let mut kept: Vec<SchedulerTask> = Vec::new();
        let mut marks: Vec<TaskId> = self.tasks_to_remove.clone();
        let mut i: usize = 0;
        proof {
            assert(marks@ =~= v.marked);
            assert(v.ready.subrange(0, n as int) =~= v.ready);
            assert(Seq::<SchedulerTask>::empty() + sweep(v.ready, v.marked).0 =~= sweep(v.ready, v.marked).0);
        }
        while i < n
            invariant
                n == v.ready.len(),
                self@ == v,
                i <= n,
                sweep(v.ready, v.marked) == (kept@ + sweep(v.ready.subrange(i as int, n as int), marks@).0, sweep(
                    v.ready.subrange(i as int, n as int),
                    marks@,
                ).1),
            decreases n - i,
        {
            let e = self.task_list[i];
            let ghost sub = v.ready.subrange(i as int, n as int);
            let ghost m0 = marks@;
            proof {
                assert(sub.drop_first() =~= v.ready.subrange(i + 1, n as int));
                assert(sub[0] == e);
            }
            if contains_mark(&marks, e.tid) {
                remove_first_mark(&mut marks, e.tid);
            } else {
                kept.push(e);
                proof {
                    let r = sweep(sub.drop_first(), m0);
                    assert(kept@ + r.0 =~= (kept@.drop_last()) + (seq![e] + r.0));
                }
            }
            i = i + 1;
        }
        proof {
            assert(v.ready.subrange(n as int, n as int) =~= Seq::<SchedulerTask>::empty());
            assert(kept@ + Seq::<SchedulerTask>::empty() =~= kept@);
        }
        (kept, marks)
    }

    fn is_marked(&self, tid: TaskId) -> (r: bool)
        ensures
            r == self.tasks_to_remove@.contains(tid),
    {
        let mut i: usize = 0;
        while i < self.tasks_to_remove.len()
            invariant
                i <= self.tasks_to_remove@.len(),
                forall|j: int| 0 <= j < i ==> self.tasks_to_remove@[j] != tid,
            decreases self.tasks_to_remove@.len() - i,
        {
            if self.tasks_to_remove[i] == tid {
                return true;
            }
            i = i + 1;
        }
        false
    }

    /// Instructions that the next slice may run.
    fn quantum(&self) -> (r: u32)
        requires
            self.wf(),
        ensures
            r == quantum_spec(self@.instructions.0, self@.duration.0),
    {
        let ai = self.average_instructions.average();
        let ad = self.average_vm_duration.average();
        if ad == 0 {
            DEFAULT_QUANTUM
        } else {
            ((ai * TARGET_ROUND) / ad) as u32
        }
    }

    /// Whether some ready entry belongs to task `tid`.
    fn has_entry(&self, tid: TaskId) -> (r: bool)
        ensures
            r == (exists|i: int| 0 <= i < self.task_list@.len() && self.task_list@[i].tid == tid),
    {
        let mut i: usize = 0;
        while i < self.task_list.len()
            invariant
                i <= self.task_list@.len(),
                forall|j: int| 0 <= j < i ==> self.task_list@[j].tid != tid,
            decreases self.task_list@.len() - i,
        {
            if self.task_list[i].tid == tid {
                return true;
            }
            i = i + 1;
        }
        false
    }

    /// Picks the next task at time `now`. Entries of tasks marked for
    /// removal are discarded first, each taking one mark of its task away;
    /// of the rest, the entry
    /// with the earliest time available is handed out, first inserted among
    /// equals, with its sleep cleared. Also returned: the quantum, and how
    /// many nanoseconds the caller must wait before the task may run.
    /// `None` when no unmarked entry is left.
    pub fn schedule_next_task(&mut self, now: u64) -> (r: Option<(SchedulerTask, u32, u128)>)
        requires
            old(self).wf(),
        ensures
            final(self).wf(),
            final(self)@ == schedule_state(old(self)@, now),
            r == schedule_result(old(self)@, now),
    {
        let ghost v = self@;
        match self.current_time {
            Some(t) => {
                if now as u128 >= t {
                    self.average_total_duration.roll(now as u128 - t);
                }
            },
            None => {},
        }
        let (mut kept, marks) = self.sweep_marked();
        self.tasks_to_remove = marks;
        if kept.len() == 0 {
            self.task_list = kept;
            self.current_time = Some(now as u128);
            return None;
        }
        let k = earliest(&kept);
        let ghost l = kept@;
        let mut e = kept.remove(k);
        self.task_list = kept;
        let avail = e.time_available_to_run();
        let wait: u128 = if avail > now as u128 { avail - now as u128 } else { 0 };
        self.current_time = Some(if avail > now as u128 { avail } else { now as u128 });
        e.sleep_for = None;
        assert(self.task_list@ =~= l.remove(k as int));
        Some((e, self.quantum(), wait))
    }

    /// Accounts for a finished slice of `iterations` instructions that ran
    /// from `start` to `end`. The entry handed out, if the task is still
    /// alive, goes back into the ready set with `last_ran` set to `end` and
    /// the sleep it was given during the slice; unless its task was marked
    /// meanwhile, in which case it is dropped and one mark is taken away.
    pub fn scheduled_task_report(&mut self, task: Option<SchedulerTask>, iterations: u32, start: u64, end: u64)
        requires
            old(self).wf(),
            start <= end,
        ensures
            final(self).wf(),
            final(self)@ == report_state(old(self)@, task, iterations, start, end),
    {
        let ghost v = self@;
        self.average_instructions.roll(iterations as u128);
        self.average_vm_duration.roll((end - start) as u128);
        self.total_iterations = if self.total_iterations > u64::MAX - iterations as u64 {
            u64::MAX
        } else {
            self.total_iterations + iterations as u64
        };
        match task {
            Some(e) => {
                if self.is_marked(e.tid) {
                    remove_first_mark(&mut self.tasks_to_remove, e.tid);
                } else {
                    self.task_list.push(SchedulerTask { last_ran: end, ..e });
                }
            },
            None => {},
        }
    }
}

/// Whether `marks` holds a mark of task `t`.
fn contains_mark(marks: &Vec<TaskId>, t: TaskId) -> (r: bool)
    ensures
        r == marks@.contains(t),
{
    let mut i: usize = 0;
    while i < marks.len()
        invariant
            i <= marks@.len(),
            forall|j: int| 0 <= j < i ==> marks@[j] != t,
        decreases marks@.len() - i,
    {
        if marks[i] == t {
            return true;
        }
        i = i + 1;
    }
    false
}

/// Removes the first mark of task `t`, if there is one.
fn remove_first_mark(marks: &mut Vec<TaskId>, t: TaskId)
    ensures
        final(marks)@ == if old(marks)@.contains(t) { remove_first(old(marks)@, t) } else { old(marks)@ },
{
    let mut i: usize = 0;
    while i < marks.len()
        invariant
            marks@ == old(marks)@,
            i <= marks@.len(),
            forall|j: int| 0 <= j < i ==> marks@[j] != t,
        decreases marks@.len() - i,
    {
        if marks[i] == t {
            proof {
                lemma_remove_first(marks@, t, i as int);
            }
            marks.remove(i);
            return;
        }
        i = i + 1;
    }
}

/// Index of the first entry with the earliest time available.
fn earliest(s: &Vec<SchedulerTask>) -> (k: usize)
    requires
        s@.len() > 0,
    ensures
        k == earliest_index(s@),
        k < s@.len(),
{
    let mut best: usize = 0;
    let mut best_t = s[0].time_available_to_run();
    let mut i: usize = 1;
    assert(earliest_index(s@.subrange(0, 1)) == 0);
    while i < s.len()
        invariant
            1 <= i <= s@.len(),
            best < i,
            best == earliest_index(s@.subrange(0, i as int)),
            best_t == s@[best as int].available(),
        decreases s@.len() - i,
    {
        let t = s[i].time_available_to_run();
        proof {
            let sub = s@.subrange(0, i + 1);
            assert(sub.drop_last() =~= s@.subrange(0, i as int));
        }
        if t < best_t {
            best = i;
            best_t = t;
        }
        i = i + 1;
    }
    assert(s@.subrange(0, s@.len() as int) =~= s@);
    best
}

/// A task marked for removal is never handed out: the entry picked comes
/// from the ready set and, when no two entries share a task, its task is
/// not marked.
pub proof fn lemma_removed_never_handed_out(v: SchedView, now: u64)
    requires
        distinct_tasks(v.ready),
    ensures
        schedule_result(v, now) matches Some((x, _q, _w)) ==> !v.marked.contains(x.tid) && exists|i: int|
            0 <= i < v.ready.len() && v.ready[i].tid == x.tid,
{
    let l = live(v);
    if l.len() > 0 {
        lemma_earliest_in_range(l);
        let k = earliest_index(l);
        lemma_sweep_kept(v.ready, v.marked, k);
    }
}

/// The scheduler never hands out an entry early: the caller's wait brings
/// `now` up to the time available of the entry it picked.
pub proof fn lemma_wait_covers_available(v: SchedView, now: u64)
    ensures
        schedule_result(v, now) matches Some((x, _q, w)) ==> {
            let l = live(v);
            let e = l[earliest_index(l)];
            &&& x.tid == e.tid
            &&& now + w >= e.available()
        },
{
}

/// A task that is given a sleep of `d` nanoseconds during its slice, and
/// whose slice is reported as ending at `end`, is next handed out with a
/// wait that makes it resume no earlier than `end + d`.
pub proof fn lemma_sleep_respected(v: SchedView, e: SchedulerTask, d: u64, iterations: u32, start: u64, end: u64, now: u64)
    requires
        !v.marked.contains(e.tid),
        forall|i: int| 0 <= i < v.ready.len() ==> #[trigger] v.ready[i].tid != e.tid,
    ensures
        ({
            let v2 = report_state(v, Some(SchedulerTask { sleep_for: Some(d), ..e }), iterations, start, end);
            schedule_result(v2, now) matches Some((x, _q, w)) ==> (x.tid == e.tid ==> now + w >= end + d)
        }),
{
    let e2 = SchedulerTask { sleep_for: Some(d), ..e };
    let v2 = report_state(v, Some(e2), iterations, start, end);
    let pushed = SchedulerTask { last_ran: end, ..e2 };
    assert(v2.ready == v.ready.push(pushed));
    let l = live(v2);
    if l.len() > 0 {
        lemma_earliest_in_range(l);
        let k = earliest_index(l);
        if l[k].tid == e.tid {
            lemma_sweep_kept(v2.ready, v2.marked, k);
            let j = choose|j: int| 0 <= j < v2.ready.len() && v2.ready[j] == l[k];
            if j < v.ready.len() {
                assert(v2.ready[j] == v.ready[j]);
            }
            assert(l[k] == pushed);
        }
    }
}

/// The index picked from a non-empty sequence lies inside it.
pub proof fn lemma_earliest_in_range(s: Seq<SchedulerTask>)
    requires
        s.len() > 0,
    ensures
        0 <= earliest_index(s) < s.len(),
    decreases s.len(),
{
    if s.len() > 1 {
        lemma_earliest_in_range(s.drop_last());
    }
}

/// If every entry of `u` is available no later than every entry of `w`,
/// the earliest entry of `u + w` is the earliest of `u`.
pub proof fn lemma_earliest_prefix(u: Seq<SchedulerTask>, w: Seq<SchedulerTask>)
    requires
        u.len() > 0,
        forall|i: int, j: int| 0 <= i < u.len() && 0 <= j < w.len() ==> #[trigger] u[i].available() <= #[trigger] w[j].available(),
    ensures
        earliest_index(u + w) == earliest_index(u),
    decreases w.len(),
{
    if w.len() == 0 {
        assert(u + w =~= u);
    } else {
        let w2 = w.drop_last();
        lemma_earliest_prefix(u, w2);
        lemma_earliest_in_range(u);
        assert((u + w).drop_last() =~= u + w2);
        let k = earliest_index(u);
        assert((u + w)[k] == u[k]);
        assert((u + w).last() == w[w.len() - 1]);
    }
}

/// The tasks handed out by successive scheduling rounds, each round being
/// (time of the request, instructions run, start, end) and reporting the
/// handed out entry back unchanged.
pub open spec fn handed_out(v: SchedView, rounds: Seq<(u64, u32, u64, u64)>) -> Seq<TaskId>
    decreases rounds.len(),
{
    if rounds.len() == 0 {
        Seq::empty()
    } else {
        let (now, iterations, start, end) = rounds[0];
        match schedule_result(v, now) {
            None => Seq::empty(),
            Some((e, _q, _w)) => seq![e.tid] + handed_out(
                report_state(schedule_state(v, now), Some(e), iterations, start, end),
                rounds.drop_first(),
            ),
        }
    }
}

/// No two entries belong to the same task.
pub open spec fn distinct_tasks(s: Seq<SchedulerTask>) -> bool {
    forall|i: int, j: int| 0 <= i < j < s.len() ==> #[trigger] s[i].tid != #[trigger] s[j].tid
}

/// Round ends never go back, and none is before `t0`.
pub open spec fn ends_from(rounds: Seq<(u64, u32, u64, u64)>, t0: int) -> bool {
    &&& forall|i: int| 0 <= i < rounds.len() ==> t0 <= #[trigger] rounds[i].3
    &&& forall|i: int, j: int| 0 <= i < j < rounds.len() ==> #[trigger] rounds[i].3 <= #[trigger] rounds[j].3
}

/// Bounded unfairness: when the ready tasks are all eligible at time `t0`,
/// none is marked for removal, and every round reports its task back without
/// a sleep at an end time no earlier than `t0` and no earlier than the last,
/// then as many rounds as there are tasks hand out every task exactly once.
pub proof fn lemma_round_robin(v: SchedView, rounds: Seq<(u64, u32, u64, u64)>, t0: u64)
    requires
        v.marked.len() == 0,
        distinct_tasks(v.ready),
        forall|i: int| 0 <= i < v.ready.len() ==> (#[trigger] v.ready[i]).available() <= t0,
        ends_from(rounds, t0 as int),
        rounds.len() == v.ready.len(),
    ensures
        handed_out(v, rounds).len() == rounds.len(),
        forall|i: int, j: int| 0 <= i < j < rounds.len() ==> #[trigger] handed_out(v, rounds)[i] != #[trigger] handed_out(v, rounds)[j],
        forall|i: int| 0 <= i < v.ready.len() ==> handed_out(v, rounds).contains(#[trigger] v.ready[i].tid),
{
    assert(v.ready + Seq::<SchedulerTask>::empty() =~= v.ready);
    assert(rounds_ready(v.ready, Seq::empty(), rounds, t0));
    lemma_rounds(v.ready, Seq::empty(), v, rounds, t0);
}

/// One round on a ready list `u + w` whose unmarked entries of `u` are all
/// available no later than those of `w`: the earliest entry of `u` is
/// handed out and comes back at the end with `last_ran` set to the round's end.
#[verifier::rlimit(50)]
proof fn lemma_round_step(u: Seq<SchedulerTask>, w: Seq<SchedulerTask>, v: SchedView, r: (u64, u32, u64, u64)) -> (k: int)
    requires
        v.ready == u + w,
        v.marked.len() == 0,
        u.len() > 0,
        forall|i: int, j: int| 0 <= i < u.len() && 0 <= j < w.len() ==> #[trigger] u[i].available() <= #[trigger] w[j].available(),
    ensures
        0 <= k < u.len(),
        schedule_result(v, r.0) is Some,
        schedule_result(v, r.0)->Some_0.0 == (SchedulerTask { sleep_for: None, ..u[k] }),
        report_state(schedule_state(v, r.0), Some(schedule_result(v, r.0)->Some_0.0), r.1, r.2, r.3).ready
            == u.remove(k) + w.push(SchedulerTask { last_ran: r.3, sleep_for: None, ..u[k] }),
        report_state(schedule_state(v, r.0), Some(schedule_result(v, r.0)->Some_0.0), r.1, r.2, r.3).marked.len() == 0,
{
    assert(v.marked =~= Seq::<TaskId>::empty());
    lemma_sweep_unmarked(v.ready);
    let l = live(v);
    lemma_earliest_prefix(u, w);
    lemma_earliest_in_range(u);
    let k = earliest_index(u);
    let e = SchedulerTask { sleep_for: None, ..u[k] };
    let v1 = schedule_state(v, r.0);
    assert(l.remove(k) =~= u.remove(k) + w);
    assert(!v1.marked.contains(e.tid));
    let v2 = report_state(v1, Some(e), r.1, r.2, r.3);
    assert(v2.ready =~= u.remove(k) + w.push(SchedulerTask { last_ran: r.3, ..e }));
    k
}

/// What `lemma_rounds` asks of a state: `u` holds the tasks not yet handed
/// out, `w` those reported back, all distinct, and the times line up.
pub open spec fn rounds_ready(u: Seq<SchedulerTask>, w: Seq<SchedulerTask>, rounds: Seq<(u64, u32, u64, u64)>, t0: u64) -> bool {
    &&& distinct_tasks(u + w)
    &&& forall|i: int| 0 <= i < u.len() ==> (#[trigger] u[i]).available() <= t0
    &&& forall|j: int, k: int| 0 <= j < w.len() && 0 <= k < rounds.len() ==> t0 <= (#[trigger] w[j]).available() <= (#[trigger] rounds[k]).3
    &&& ends_from(rounds, t0 as int)
}

proof fn lemma_rounds_ready_step(u: Seq<SchedulerTask>, w: Seq<SchedulerTask>, k: int, pushed: SchedulerTask, rounds: Seq<(u64, u32, u64, u64)>, t0: u64)
    requires
        rounds_ready(u, w, rounds, t0),
        0 <= k < u.len(),
        rounds.len() > 0,
        pushed.tid == u[k].tid,
        pushed.available() == rounds[0].3,
    ensures
        rounds_ready(u.remove(k), w.push(pushed), rounds.drop_first(), t0),
{
    let u2 = u.remove(k);
    let w2 = w.push(pushed);
    let rest = rounds.drop_first();
    let uw = u + w;
    assert forall|i: int, j: int| 0 <= i < j < (u2 + w2).len() implies #[trigger] (u2 + w2)[i].tid != #[trigger] (u2 + w2)[j].tid by {
        let ii = if i < k { i } else if i < u2.len() + w.len() { i + 1 } else { k };
        let jj = if j < k { j } else if j < u2.len() + w.len() { j + 1 } else { k };
        assert((u2 + w2)[i].tid == uw[ii].tid);
        assert((u2 + w2)[j].tid == uw[jj].tid);
        if ii < jj {
            assert(uw[ii].tid != uw[jj].tid);
        } else {
            assert(uw[jj].tid != uw[ii].tid);
        }
    }
    assert forall|i: int| 0 <= i < u2.len() implies (#[trigger] u2[i]).available() <= t0 by {
        if i < k {
            assert(u2[i] == u[i]);
        } else {
            assert(u2[i] == u[i + 1]);
        }
    }
    assert forall|j: int, m: int| 0 <= j < w2.len() && 0 <= m < rest.len() implies t0 <= (#[trigger] w2[j]).available() <= (#[trigger] rest[m]).3 by {
        assert(rest[m] == rounds[m + 1]);
        if j < w.len() {
            assert(w2[j] == w[j]);
        } else {
            assert(w2[j] == pushed);
            assert(rounds[0].3 <= rounds[m + 1].3);
        }
    }
    assert forall|i: int| 0 <= i < rest.len() implies t0 <= #[trigger] rest[i].3 by {
        assert(rest[i] == rounds[i + 1]);
    }
    assert forall|i: int, j: int| 0 <= i < j < rest.len() implies #[trigger] rest[i].3 <= #[trigger] rest[j].3 by {
        assert(rest[i] == rounds[i + 1]);
        assert(rest[j] == rounds[j + 1]);
    }
}

/// The induction behind `lemma_round_robin`: the ready list is `u + w`, where
/// `u` holds the tasks not yet handed out and `w` those already reported back.
proof fn lemma_rounds(u: Seq<SchedulerTask>, w: Seq<SchedulerTask>, v: SchedView, rounds: Seq<(u64, u32, u64, u64)>, t0: u64)
    requires
        v.ready == u + w,
        v.marked.len() == 0,
        rounds_ready(u, w, rounds, t0),
        rounds.len() <= u.len(),
    ensures
        handed_out(v, rounds).len() == rounds.len(),
        forall|i: int, j: int| 0 <= i < j < rounds.len() ==> #[trigger] handed_out(v, rounds)[i] != #[trigger] handed_out(v, rounds)[j],
        forall|a: int| 0 <= a < rounds.len() ==> exists|b: int| 0 <= b < u.len() && u[b].tid == #[trigger] handed_out(v, rounds)[a],
        rounds.len() == u.len() ==> forall|b: int| 0 <= b < u.len() ==> handed_out(v, rounds).contains(#[trigger] u[b].tid),
    decreases rounds.len(),
{
    if rounds.len() == 0 {
        return;
    }
    let r = rounds[0];
    assert forall|i: int, j: int| 0 <= i < u.len() && 0 <= j < w.len() implies #[trigger] u[i].available() <= #[trigger] w[j].available() by {
        assert(t0 <= w[j].available() <= rounds[0].3);
    }
    let k = lemma_round_step(u, w, v, r);
    let e = schedule_result(v, r.0)->Some_0.0;
    let v2 = report_state(schedule_state(v, r.0), Some(e), r.1, r.2, r.3);
    let pushed = SchedulerTask { last_ran: r.3, sleep_for: None, ..u[k] };
    let u2 = u.remove(k);
    let w2 = w.push(pushed);
    let rest = rounds.drop_first();
    lemma_rounds_ready_step(u, w, k, pushed, rounds, t0);
    lemma_rounds(u2, w2, v2, rest, t0);
    let tail = handed_out(v2, rest);
    let h = handed_out(v, rounds);
    assert(h == seq![e.tid] + tail);
    assert forall|a: int| 0 <= a < rounds.len() implies exists|b: int| 0 <= b < u.len() && u[b].tid == #[trigger] h[a] by {
        if a == 0 {
            assert(u[k].tid == h[0]);
        } else {
            assert(h[a] == tail[a - 1]);
            let b = choose|b: int| 0 <= b < u2.len() && u2[b].tid == tail[a - 1];
            if b < k {
                assert(u[b] == u2[b]);
            } else {
                assert(u[b + 1] == u2[b]);
            }
        }
    }
    if rounds.len() == u.len() {
        assert forall|b: int| 0 <= b < u.len() implies h.contains(#[trigger] u[b].tid) by {
            if b == k {
                assert(h[0] == u[b].tid);
            } else {
                let b2 = if b < k { b } else { b - 1 };
                assert(u2[b2] == u[b]);
                assert(tail.contains(u2[b2].tid));
                let a = choose|a: int| 0 <= a < tail.len() && tail[a] == u2[b2].tid;
                assert(h[a + 1] == tail[a]);
            }
        }
    }
    assert forall|i: int, j: int| 0 <= i < j < rounds.len() implies #[trigger] h[i] != #[trigger] h[j] by {
        if i == 0 {
            assert(h[j] == tail[j - 1]);
            let b = choose|b: int| 0 <= b < u2.len() && u2[b].tid == tail[j - 1];
            let uw = u + w;
            if b < k {
                assert(uw[b] == u[b]);
                assert(uw[b].tid != uw[k].tid);
            } else {
                assert(uw[b + 1] == u[b + 1]);
                assert(uw[k].tid != uw[b + 1].tid);
            }
        } else {
            assert(h[i] == tail[i - 1]);
            assert(h[j] == tail[j - 1]);
        }
    }
}

} // verus!
