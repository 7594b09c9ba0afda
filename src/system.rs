use vstd::prelude::*;
use vstd::utf8::{decode_utf8, valid_utf8};

use crate::ids::{ProcessId, TaskId};
use crate::memory::{load_byte, zero_page, PageId, TaskPoolSharedMemory, PAGE_COUNT};
use crate::interp::{run_outcome, slice_spec, SliceEnd};
use crate::isa::{mem_state, MemState};
use crate::scheduler::{
    distinct_tasks, earliest_index, lemma_earliest_in_range, lemma_sweep_unmarked, live, SchedView, Scheduler,
    SchedulerTask,
};
use crate::page::PAGE_SIZE;
use crate::task::{
    lemma_refs_in_zero, lemma_refs_in_beyond, lemma_refs_in_from, lemma_refs_in_push, refs_in, PageVAddressStart, Regs, Task, TaskError,
    TaskMemory, TaskRunResult,
};

use crate::taskpool::{lemma_refs_beyond, lemma_refs_push, lemma_refs_remove, lemma_refs_zero, refs, TaskPool};

verus! {

/// Call ids of the system calls.
pub const CALL_EXIT: u32 = 0;
pub const CALL_PRINT_I32: u32 = 1;
pub const CALL_PRINT_CSTR: u32 = 4;
pub const CALL_PRINT_CHAR: u32 = 5;
pub const CALL_TIME_NOW: u32 = 60;
pub const CALL_SPAWN: u32 = 100;
pub const CALL_SLEEP_NS: u32 = 101;
pub const CALL_YIELD: u32 = 102;
pub const CALL_FUTEX_WAKE: u32 = 200;
pub const CALL_FUTEX_WAIT: u32 = 201;

/// The one breakpoint id reserved for a debugger.
pub const BREAK_DEBUGGER: u32 = 534;

/// Virtual page number of a spawned task's private stack page.
pub const STACK_PAGE: PageVAddressStart = 0x7FFF;

/// Initial stack pointer of a spawned task: the top of its stack page.
pub const STACK_TOP: u32 = 0x8000_0000;

/// Return address given to a spawned task's entry function.
pub const RETURN_SENTINEL: u32 = 0xFFFF_FFFF;

/// Register of the first call argument.
pub const REG_A0: usize = 4;

/// Register of the second call argument.
pub const REG_A1: usize = 5;

/// Register of the first return value.
pub const REG_V0: usize = 2;

/// Register of the second return value.
pub const REG_V1: usize = 3;

pub const REG_SP: usize = 29;

pub const REG_RA: usize = 31;

/// A line of the output channel, keyed by the task that produced it.
pub enum LogEvent {
    /// A signed integer printed in decimal.
    Int(TaskId, i32),
    /// A zero-terminated string.
    Text(TaskId, String),
    /// A line printed one character at a time, without its newline; each byte is one character.
    Line(TaskId, Vec<u8>),
    /// A task was created.
    Spawned(TaskId),
    /// A task ended, with its exit code.
    Exited(TaskId, u32),
    /// A task was ended by a fault; its registers at the time are given.
    Faulted(TaskId, TaskError, VmSnapshot),
}

/// The state of a task, for the record of a fault: its registers and its page table.
#[derive(Debug)]
pub struct VmSnapshot {
    pub pc: u32,
    pub hi: u32,
    pub lo: u32,
    pub reg: [u32; 32],
    pub mapping: Vec<(PageId, PageVAddressStart)>,
}

/// What a system call or breakpoint asks of the interpreter.
#[derive(Clone, Copy, Debug, PartialEq, Eq, Structural)]
pub enum InterfaceCallResult {
    Continue,
    ImmediateKill(Option<TaskError>),
    MalformedCallArgs,
    InvalidCall(u32),
    Wait,
    Exit,
}

/// The zero-terminated string at `addr`: its bytes, or the first address
/// reached whose page is unmapped. A string that runs past the top of the
/// address space faults at the wrapped address 0.
pub open spec fn read_cstr(pages: Seq<Seq<u8>>, slots: Seq<Option<usize>>, addr: u32) -> Result<Seq<u8>, u32>
    decreases 0x1_0000_0000 - addr,
{
    match load_byte(pages, slots, addr) {
        None => Err(addr),
        Some(b) => if b == 0 {
            Ok(Seq::empty())
        } else if addr == u32::MAX {
            Err(0)
        } else {
            match read_cstr(pages, slots, (addr + 1) as u32) {
                Ok(s) => Ok(seq![b] + s),
                Err(e) => Err(e),
            }
        },
    }
}

/// `prefix` put before a string read, if it was read.
pub open spec fn prepend(prefix: Seq<u8>, r: Result<Seq<u8>, u32>) -> Result<Seq<u8>, u32> {
    match r {
        Ok(s) => Ok(prefix + s),
        Err(e) => Err(e),
    }
}

/// Reads the zero-terminated string at `addr` through the view `mem`.
pub fn read_zero_terminated(store: &TaskPoolSharedMemory, mem: &TaskMemory, addr: u32) -> (r: Result<Vec<u8>, u32>)
    requires
        store.wf(),
        mem.fits(store.contents().len()),
    ensures
        match r {
            Ok(v) => read_cstr(store.contents(), mem.slots(), addr) == Ok::<Seq<u8>, u32>(v@),
            Err(a) => read_cstr(store.contents(), mem.slots(), addr) == Err::<Seq<u8>, u32>(a),
        },
{
    let ghost pages = store.contents();
    let ghost slots = mem.slots();
    let mut bytes: Vec<u8> = Vec::new();
    let mut a = addr;
    loop
        invariant
            store.wf(),
            mem.fits(store.contents().len()),
            pages == store.contents(),
            slots == mem.slots(),
            read_cstr(pages, slots, addr) == prepend(bytes@, read_cstr(pages, slots, a)),
        decreases 0x1_0000_0000 - a,
    {
        match mem.read_u8(store, a) {
            None => {
                return Err(a);
            },
            Some(b) => {
                if b == 0 {
                    assert(bytes@ + Seq::<u8>::empty() =~= bytes@);
                    return Ok(bytes);
                }
                if a == u32::MAX {
                    return Err(0);
                }
                proof {
                    let rest = read_cstr(pages, slots, (a + 1) as u32);
                    match rest {
                        Ok(s) => {
                            assert(bytes@.push(b) + s =~= bytes@ + (seq![b] + s));
                        },
                        Err(e) => {},
                    }
                }
                bytes.push(b);
                a = a + 1;
            },
        }
    }
}

/// Relies on `String::from_utf8`: the bytes are accepted exactly when they
/// are valid UTF-8, and are then the text's encoding.
#[verifier::external_body]
fn utf8_string(bytes: Vec<u8>) -> (r: Option<String>)
    ensures
        r is Some <==> valid_utf8(bytes@),
        r matches Some(s) ==> s@ == decode_utf8(bytes@),
{
    String::from_utf8(bytes).ok()
}

/// The initial state of a task spawned at `entry` with argument `arg`.
pub open spec fn spawned_regs(entry: u32, arg: u32) -> Regs {
    Regs {
        pc: entry,
        hi: 0,
        lo: 0,
        reg: Seq::new(32, |i: int| 0u32).update(REG_A0 as int, arg).update(REG_SP as int, STACK_TOP).update(
            REG_RA as int,
            RETURN_SENTINEL,
        ),
    }
}

/// `child` is the task that `parent` (registers `p`, process `pid`) spawns
/// as task `tid`: it shares the parent's first mapping and has `stack` as
/// its stack page.
pub open spec fn is_child(child: Task, p: Regs, pid: ProcessId, tid: TaskId, shared: (PageId, PageVAddressStart), stack: PageId) -> bool {
    &&& child.tid == tid
    &&& child.pid == pid
    &&& child.memory_mapping.mapping@ == seq![shared, (stack, STACK_PAGE)]
    &&& child.vm_state@ == spawned_regs(p.reg[REG_A0 as int], p.reg[REG_A1 as int])
    &&& child.pending_line@.len() == 0
}

/// The answer system call `id` gives a task with registers `s` (its program
/// counter already past the call) and page table `mapping`, over memory
/// `pages` seen through `slots`, when the last task id handed out is
/// `next_id` and the pages' share counts are `owners`.
pub open spec fn syscall_answer(
    id: u32,
    s: Regs,
    pages: Seq<Seq<u8>>,
    slots: Seq<Option<usize>>,
    next_id: u32,
    mapping: Seq<(PageId, PageVAddressStart)>,
    owners: Seq<u64>,
) -> InterfaceCallResult {
    if id == CALL_EXIT {
        InterfaceCallResult::Exit
    } else if id == CALL_PRINT_CSTR {
        match read_cstr(pages, slots, s.reg[REG_A0 as int]) {
            Err(a) => InterfaceCallResult::ImmediateKill(Some(TaskError::MemoryDoesNotExistError(a, s.pc))),
            Ok(b) => if valid_utf8(b) {
                InterfaceCallResult::Continue
            } else {
                InterfaceCallResult::MalformedCallArgs
            },
        }
    } else if id == CALL_SPAWN {
        if mapping.len() == 0 {
            InterfaceCallResult::ImmediateKill(None)
        } else if next_id < u32::MAX && owners[mapping[0].0.0 as int] < u64::MAX {
            InterfaceCallResult::Continue
        } else {
            InterfaceCallResult::Wait
        }
    } else if id == CALL_SLEEP_NS || id == CALL_YIELD {
        InterfaceCallResult::Wait
    } else if id == CALL_PRINT_I32 || id == CALL_PRINT_CHAR || id == CALL_TIME_NOW || id == CALL_FUTEX_WAKE || id
        == CALL_FUTEX_WAIT {
        InterfaceCallResult::Continue
    } else {
        InterfaceCallResult::InvalidCall(id)
    }
}

/// The answer breakpoint `id` gives.
pub open spec fn break_answer(id: u32) -> InterfaceCallResult {
    if id == BREAK_DEBUGGER {
        InterfaceCallResult::Continue
    } else {
        InterfaceCallResult::InvalidCall(id)
    }
}

/// Each page's share count is the number of mapping entries that hold it:
/// those of the pooled `tasks`, and `extra`, the mapping of a task taken out
/// of the pool to run. So a page with a count of zero is mapped by no task.
pub open spec fn owners_match(store: TaskPoolSharedMemory, tasks: Seq<Task>, extra: Seq<(PageId, PageVAddressStart)>) -> bool {
    forall|p: int| 0 <= p < store.owners().len() ==> #[trigger] store.owners()[p] == refs(tasks, p) + refs_in(extra, p)
}

/// A page whose share count is zero appears in no mapping of a pooled task
/// nor in `extra`; so the page store only ever reuses pages that no task maps.
pub proof fn lemma_free_page_unmapped(store: TaskPoolSharedMemory, tasks: Seq<Task>, extra: Seq<(PageId, PageVAddressStart)>, p: int)
    requires
        owners_match(store, tasks, extra),
        0 <= p < store.owners().len(),
        store.owners()[p] == 0,
    ensures
        forall|i: int, j: int|
            0 <= i < tasks.len() && 0 <= j < tasks[i].memory_mapping.mapping@.len() ==> (#[trigger] tasks[i].memory_mapping.mapping@[j]).0.0 != p,
        forall|j: int| 0 <= j < extra.len() ==> (#[trigger] extra[j]).0.0 != p,
{
    assert(store.owners()[p] == refs(tasks, p) + refs_in(extra, p));
    lemma_refs_zero(tasks, p);
    lemma_refs_in_zero(extra, p);
}

/// Task `t` has an entry in `ready`.
pub open spec fn has_entry(ready: Seq<SchedulerTask>, t: TaskId) -> bool {
    exists|i: int| 0 <= i < ready.len() && ready[i].tid == t
}

/// Each live task has exactly one scheduler entry, and each entry belongs to
/// a live task; the exception is `flight`, the task whose entry is handed
/// out for the current slice, which has none. No task is marked for removal.
pub open spec fn entries_match(c: SystemCore, flight: Option<TaskId>) -> bool {
    let ready = c.scheduler@.ready;
    &&& c.scheduler@.marked.len() == 0
    &&& distinct_tasks(ready)
    &&& forall|t: TaskId| #[trigger] has_entry(ready, t) ==> c.tasks.holds(t)
    &&& forall|t: TaskId| #[trigger] c.tasks.holds(t) ==> has_entry(ready, t) || flight == Some(t)
    &&& flight matches Some(f) ==> !has_entry(ready, f) && f.raw() <= c.next_id()
}

/// Host-side state that system calls act on: the task pool, the scheduler,
/// the id counter and the output channel.
pub struct SystemCore {
    pub tasks: TaskPool,
    pub scheduler: Scheduler,
    pub next_task_id: u32,
    pub log: Vec<LogEvent>,
}

impl SystemCore {
    /// The last task id handed out.
    pub open spec fn next_id(&self) -> u32 {
        self.next_task_id
    }

    /// Output not yet taken.
    pub open spec fn log(&self) -> Seq<LogEvent> {
        self.log@
    }

    pub open spec fn wf(&self) -> bool {
        &&& self.tasks.wf()
        &&& self.scheduler.wf()
        &&& forall|i: int| 0 <= i < self.tasks.tasks().len() ==> #[trigger] self.tasks.tasks()[i].tid.raw() <= self.next_id()
    }

    /// Every pooled task maps only pages below `n`.
    pub open spec fn mappings_within(&self, n: nat) -> bool {
        forall|i: int| 0 <= i < self.tasks.tasks().len() ==> #[trigger] self.tasks.tasks()[i].memory_mapping.within(n)
    }

    pub proof fn lemma_mappings_grow(&self, a: nat, b: nat)
        requires
            self.mappings_within(a),
            a <= b,
        ensures
            self.mappings_within(b),
    {
        assert forall|i: int| 0 <= i < self.tasks.tasks().len() implies #[trigger] self.tasks.tasks()[i].memory_mapping.within(b) by {
            let m = self.tasks.tasks()[i].memory_mapping;
            assert forall|k: int| 0 <= k < m.mapping@.len() implies (#[trigger] m.mapping@[k]).0.0 < b by {
                assert(m.within(a));
            }
        }
    }

    pub fn new() -> (r: SystemCore)
        ensures
            r.wf(),
            r.next_id() == 0,
            r.log().len() == 0,
            r.tasks.tasks().len() == 0,
            r.scheduler@.ready.len() == 0,
            r.scheduler@.marked.len() == 0,
    {
        SystemCore { tasks: TaskPool::new(), scheduler: Scheduler::new(), next_task_id: 0, log: Vec::new() }
    }

    /// A fresh task id: one more than the last, or `None` once all are used.
    pub fn next_task_id(&mut self) -> (r: Option<TaskId>)
        requires
            old(self).wf(),
        ensures
            final(self).wf(),
            final(self).tasks == old(self).tasks,
            final(self).scheduler@ == old(self).scheduler@,
            final(self).log() == old(self).log(),
            old(self).next_id() == u32::MAX ==> r is None && final(self).next_id() == old(self).next_id(),
            old(self).next_id() < u32::MAX ==> final(self).next_id() == old(self).next_id() + 1 && (r matches Some(t)
                && t.raw() == final(self).next_id()),
    {
        if self.next_task_id == u32::MAX {
            None
        } else {
            self.next_task_id = self.next_task_id + 1;
            Some(TaskId::from_raw(self.next_task_id))
        }
    }

    /// Appends an event to the output channel.
    pub fn emit(&mut self, e: LogEvent)
        ensures
            final(self).log() == old(self).log().push(e),
            final(self).tasks == old(self).tasks,
            final(self).scheduler == old(self).scheduler,
            final(self).next_id() == old(self).next_id(),
    {
        self.log.push(e);
    }

    /// Takes the output produced so far.
    pub fn take_log(&mut self) -> (r: Vec<LogEvent>)
        ensures
            r@ == old(self).log(),
            final(self).log().len() == 0,
            final(self).tasks == old(self).tasks,
            final(self).scheduler == old(self).scheduler,
            final(self).next_id() == old(self).next_id(),
    {
        let mut out: Vec<LogEvent> = Vec::new();
        std::mem::swap(&mut out, &mut self.log);
        out
    }

    /// Spawns a task of `task`'s process: it shares `task`'s first mapped
    /// page, gets a fresh zeroed stack page at `STACK_PAGE`, starts at the
    /// address in A0 with A1 as its argument, and its id is returned in V0.
    /// Waits when no id or no further share of the page can be had.
    #[verifier::spinoff_prover]
    pub fn spawn(&mut self, task: &mut Task, store: &mut TaskPoolSharedMemory) -> (r: InterfaceCallResult)
        requires
            old(self).wf(),
            old(store).wf(),
            old(task).memory_mapping.within(old(store).contents().len()),
            old(self).mappings_within(old(store).contents().len()),
            owners_match(*old(store), old(self).tasks.tasks(), old(task).memory_mapping.mapping@),
        ensures
            final(self).wf(),
            final(store).wf(),
            final(store).contents().len() >= old(store).contents().len(),
            final(self).mappings_within(final(store).contents().len()),
            owners_match(*final(store), final(self).tasks.tasks(), final(task).memory_mapping.mapping@),
            entries_match(*old(self), Some(old(task).tid)) ==> entries_match(*final(self), Some(old(task).tid)),
            final(self).next_id() >= old(self).next_id(),
            forall|u: TaskId| #[trigger] final(self).tasks.holds(u) ==> old(self).tasks.holds(u) || u.raw() > old(self).next_id(),
            final(task).memory_mapping.mapping@ == old(task).memory_mapping.mapping@,
            final(task).tid == old(task).tid,
            final(task).pid == old(task).pid,
            final(task).pending_line@ == old(task).pending_line@,
            spawn_outcome(*old(self), *final(self), *old(task), *final(task), *old(store), *final(store), r),
    {
        if task.memory_mapping.mapping.len() == 0 {
            return InterfaceCallResult::ImmediateKill(None);
        }
        let shared = task.memory_mapping.mapping[0];
        if self.next_task_id == u32::MAX || store.owner_count(shared.0) == u64::MAX {
            return InterfaceCallResult::Wait;
        }
        let tid = match self.next_task_id() {
            Some(t) => t,
            None => {
                return InterfaceCallResult::Wait;
            },
        };
        proof {
            assert(old(task).memory_mapping.mapping@[0].0.0 < old(store).contents().len());
            old(store).lemma_wf();
        }
        store.share_page(shared.0);
        let ghost mid = *store;
        let stack = store.new_page();
        proof {
            assert(stack.0 != shared.0.0);
            assert(store.owners()[shared.0.0 as int] == old(store).owners()[shared.0.0 as int] + 1);
            assert(store.owners()[stack.0 as int] == 1);
            assert(store.contents()[stack.0 as int] == zero_page());
            assert forall|i: int| 0 <= i < old(store).contents().len() && i != stack.0 implies store.contents()[i] == old(store).contents()[i] by {
                assert(mid.contents()[i] == old(store).contents()[i]);
            }
        }
        let mut child = Task::new_subthread(task.pid, tid);
        child.memory_mapping.mapping.push(shared);
        child.memory_mapping.mapping.push((stack, STACK_PAGE));
        child.vm_state.pc = task.vm_state.reg[REG_A0];
        child.vm_state.reg[REG_A0] = task.vm_state.reg[REG_A1];
        child.vm_state.reg[REG_SP] = STACK_TOP;
        child.vm_state.reg[REG_RA] = RETURN_SENTINEL;
        task.vm_state.reg[REG_V0] = tid.into_raw();
        self.scheduler.add_task(tid);
        proof {
            assert(child.memory_mapping.mapping@ =~= seq![shared, (stack, STACK_PAGE)]);
            assert(child.vm_state@.reg =~= spawned_regs(old(task).vm_state.reg@[REG_A0 as int], old(task).vm_state.reg@[REG_A1 as int]).reg);
            assert(!self.tasks.holds(tid)) by {
                if self.tasks.holds(tid) {
                    let i = choose|i: int| 0 <= i < self.tasks.tasks().len() && self.tasks.tasks()[i].tid == tid;
                    assert(self.tasks.tasks()[i].tid.raw() <= old(self).next_id());
                }
            }
        }
        let ghost before = self.tasks.tasks();
        proof {
            old(self).lemma_mappings_grow(old(store).contents().len(), store.contents().len());
            assert(child.memory_mapping.within(store.contents().len()));
            let cm = child.memory_mapping.mapping@;
            assert(cm.drop_first() =~= seq![(stack, STACK_PAGE)]);
            assert(cm.drop_first().drop_first() =~= Seq::<(PageId, PageVAddressStart)>::empty());
            let extra = task.memory_mapping.mapping@;
            let n0 = old(store).contents().len();
            old(store).lemma_wf();
            store.lemma_wf();
            assert forall|p: int| 0 <= p < store.owners().len() implies #[trigger] store.owners()[p] == refs(before.push(child), p) + refs_in(extra, p) by {
                lemma_refs_push(before, child, p);
                assert(refs_in(cm.drop_first().drop_first(), p) == 0);
                assert(cm.drop_first()[0] == (stack, STACK_PAGE));
                assert(refs_in(cm.drop_first(), p) == (if stack.0 == p { 1nat } else { 0nat }));
                assert(cm[0] == shared);
                assert(refs_in(cm, p) == (if shared.0.0 == p { 1nat } else { 0nat }) + (if stack.0 == p { 1nat } else { 0nat }));
                if p < n0 {
                    assert(old(store).owners()[p] == refs(before, p) + refs_in(extra, p));
                    if p == stack.0 {
                        assert(mid.owners()[p] == 0);
                    }
                } else {
                    lemma_refs_beyond(before, n0, p);
                    lemma_refs_in_beyond(extra, n0, p);
                }
            }
        }
        self.tasks.add_task(child);
        assert(self.tasks.tasks() == before.push(child));
        self.emit(LogEvent::Spawned(tid));
        proof {
            assert(self.tasks.tasks().last() == child);
            if entries_match(*old(self), Some(old(task).tid)) {
                let r0 = old(self).scheduler@.ready;
                let r1 = self.scheduler@.ready;
                assert(r1 == r0.push(SchedulerTask { tid, last_ran: 0, sleep_for: None }));
                assert(!has_entry(r0, tid));
                assert forall|a: int, b: int| 0 <= a < b < r1.len() implies #[trigger] r1[a].tid != #[trigger] r1[b].tid by {
                    if b == r0.len() {
                        assert(r1[a] == r0[a]);
                    } else {
                        assert(r0[a].tid != r0[b].tid);
                    }
                }
                assert forall|t: TaskId| #[trigger] has_entry(r1, t) implies self.tasks.holds(t) by {
                    let i = choose|i: int| 0 <= i < r1.len() && r1[i].tid == t;
                    if i < r0.len() {
                        assert(r1[i] == r0[i]);
                        assert(has_entry(r0, t));
                        assert(old(self).tasks.holds(t));
                        let k = choose|k: int| 0 <= k < before.len() && before[k].tid == t;
                        assert(self.tasks.tasks()[k] == before[k]);
                    } else {
                        assert(self.tasks.tasks()[before.len() as int].tid == t);
                    }
                }
                assert forall|t: TaskId| #[trigger] self.tasks.holds(t) implies has_entry(r1, t) || Some(old(task).tid) == Some(t) by {
                    let k = choose|k: int| 0 <= k < self.tasks.tasks().len() && self.tasks.tasks()[k].tid == t;
                    if k < before.len() {
                        assert(old(self).tasks.tasks()[k].tid == t);
                        assert(old(self).tasks.holds(t));
                        if has_entry(r0, t) {
                            let i = choose|i: int| 0 <= i < r0.len() && r0[i].tid == t;
                            assert(r1[i] == r0[i]);
                        }
                    } else {
                        assert(r1[r0.len() as int].tid == t);
                    }
                }
                assert(!has_entry(r1, old(task).tid)) by {
                    if has_entry(r1, old(task).tid) {
                        let i = choose|i: int| 0 <= i < r1.len() && r1[i].tid == old(task).tid;
                        if i < r0.len() {
                            assert(r1[i] == r0[i]);
                        } else {
                            TaskId::lemma_raw_eq(tid, old(task).tid);
                        }
                    }
                }
            }
            assert forall|u: TaskId| #[trigger] self.tasks.holds(u) implies old(self).tasks.holds(u) || u.raw() > old(self).next_id() by {
                let k = choose|k: int| 0 <= k < self.tasks.tasks().len() && self.tasks.tasks()[k].tid == u;
                if k < before.len() {
                    assert(old(self).tasks.tasks()[k].tid == u);
                }
            }
            assert forall|i: int| 0 <= i < self.tasks.tasks().len() implies #[trigger] self.tasks.tasks()[i].memory_mapping.within(store.contents().len()) by {
                if i < before.len() {
                    assert(old(self).tasks.tasks()[i] == before[i]);
                    assert(self.tasks.tasks()[i] == before[i]);
                    assert(old(self).mappings_within(store.contents().len()));
                    assert(old(self).tasks.tasks()[i].memory_mapping.within(store.contents().len()));
                } else {
                    assert(self.tasks.tasks()[i] == child);
                }
            }
            assert forall|i: int| 0 <= i < self.tasks.tasks().len() implies #[trigger] self.tasks.tasks()[i].tid.raw() <= self.next_id() by {
                if i < before.len() {
                    assert(before[i].tid.raw() <= old(self).next_id());
                }
            }
        }
        InterfaceCallResult::Continue
    }
}

/// What a spawn request of `t0` leads to; see `SystemCore::spawn`.
pub open spec fn spawn_outcome(
    c0: SystemCore,
    c1: SystemCore,
    t0: Task,
    t1: Task,
    s0: TaskPoolSharedMemory,
    s1: TaskPoolSharedMemory,
    r: InterfaceCallResult,
) -> bool {
    &&& t0.memory_mapping.mapping@.len() == 0 ==> r == InterfaceCallResult::ImmediateKill(None)
    &&& r != InterfaceCallResult::Continue ==> c1 == c0 && s1.contents() == s0.contents() && s1.owners() == s0.owners()
        && t1.vm_state@ == t0.vm_state@
    &&& t0.memory_mapping.mapping@.len() > 0 ==> ({
        let shared = t0.memory_mapping.mapping@[0];
        let can = c0.next_id() < u32::MAX && s0.owners()[shared.0.0 as int] < u64::MAX;
        &&& !can ==> r == InterfaceCallResult::Wait
        &&& can ==> r == InterfaceCallResult::Continue && spawned(c0, c1, t0.vm_state@, t1.vm_state@, t0.pid, shared, s0, s1)
    })
}

/// The effect of a successful spawn by a task with registers `p` of process
/// `pid` whose first mapping is `shared`: the id counter advances, the new
/// task is added to the pool and the scheduler, its id is returned in V0, and
/// its stack is a page that no mapping held, now zeroed, distinct from the
/// shared one, whose share count goes up by one.
pub open spec fn spawned(
    c0: SystemCore,
    c1: SystemCore,
    p0: Regs,
    p1: Regs,
    pid: ProcessId,
    shared: (PageId, PageVAddressStart),
    s0: TaskPoolSharedMemory,
    s1: TaskPoolSharedMemory,
) -> bool {
    let tid = c1.next_id();
    let child = c1.tasks.tasks().last();
    let stack = child.memory_mapping.mapping@[1].0;
    &&& tid == c0.next_id() + 1
    &&& p1 == p0.set(REG_V0 as int, tid)
    &&& c1.tasks.tasks() == c0.tasks.tasks().push(child)
    &&& is_child(child, p0, pid, child.tid, shared, stack)
    &&& child.tid.raw() == tid
    &&& c1.scheduler@ == (SchedView { ready: c0.scheduler@.ready.push(SchedulerTask { tid: child.tid, last_ran: 0, sleep_for: None }), ..c0.scheduler@ })
    &&& c1.log() == c0.log().push(LogEvent::Spawned(child.tid))
    &&& stack.0 != shared.0.0
    &&& stack.0 < s1.contents().len()
    &&& s1.contents()[stack.0 as int] == zero_page()
    &&& s1.owners()[stack.0 as int] == 1
    &&& s1.owners()[shared.0.0 as int] == s0.owners()[shared.0.0 as int] + 1
    &&& forall|i: int| 0 <= i < s0.contents().len() && i != stack.0 ==> s1.contents()[i] == s0.contents()[i]
}

/// Relies on `SystemTime::elapsed`, taken from the Unix epoch: the wall
/// clock in nanoseconds since 1970, or zero where the clock reads earlier.
/// Nothing is promised of the value.
#[verifier::external_body]
pub fn systime_now() -> u64 {
    std::time::UNIX_EPOCH.elapsed().map(|d| d.as_nanos() as u64).unwrap_or(0)
}

/// Answers the time request: `now` is split over V0 (low half) and V1 (high half).
pub fn time_now_call(task: &mut Task, now: u64)
    ensures
        final(task).vm_state@ == old(task).vm_state@.set(REG_V0 as int, now as u32).set(REG_V1 as int, (now >> 32u64) as u32),
        final(task).memory_mapping.mapping@ == old(task).memory_mapping.mapping@,
        final(task).tid == old(task).tid,
        final(task).pid == old(task).pid,
        final(task).pending_line@ == old(task).pending_line@,
{
    task.vm_state.reg[REG_V0] = now as u32;
    task.vm_state.reg[REG_V1] = (now >> 32u64) as u32;
}

/// The 64-bit duration held by two argument registers, low half first.
pub open spec fn duration_of(lo: u32, hi: u32) -> u64 {
    (lo as u64 | ((hi as u64) << 32u64)) as u64
}

/// Everything of a task but its registers is as before.
pub open spec fn same_but_regs(t0: Task, t1: Task) -> bool {
    &&& t1.memory_mapping.mapping@ == t0.memory_mapping.mapping@
    &&& t1.tid == t0.tid
    &&& t1.pid == t0.pid
}

impl SystemCore {
    /// Carries out system call `id` for `task`, whose scheduler entry is
    /// `scheduler_task`, with `mem` the view of its memory.
    pub fn system_call(
        &mut self,
        id: u32,
        task: &mut Task,
        scheduler_task: &mut SchedulerTask,
        store: &mut TaskPoolSharedMemory,
        mem: &TaskMemory,
    ) -> (r: InterfaceCallResult)
        requires
            old(self).wf(),
            old(store).wf(),
            mem.fits(old(store).contents().len()),
            old(task).memory_mapping.within(old(store).contents().len()),
            old(self).mappings_within(old(store).contents().len()),
            owners_match(*old(store), old(self).tasks.tasks(), old(task).memory_mapping.mapping@),
        ensures
            final(self).wf(),
            final(store).wf(),
            final(store).contents().len() >= old(store).contents().len(),
            final(self).mappings_within(final(store).contents().len()),
            owners_match(*final(store), final(self).tasks.tasks(), final(task).memory_mapping.mapping@),
            entries_match(*old(self), Some(old(task).tid)) ==> entries_match(*final(self), Some(old(task).tid)),
            final(self).next_id() >= old(self).next_id(),
            forall|u: TaskId| #[trigger] final(self).tasks.holds(u) ==> old(self).tasks.holds(u) || u.raw() > old(self).next_id(),
            final(scheduler_task).tid == old(scheduler_task).tid,
            final(scheduler_task).last_ran == old(scheduler_task).last_ran,
            same_but_regs(*old(task), *final(task)),
            final(task).vm_state.pc == old(task).vm_state.pc,
            r == syscall_answer(
                id,
                old(task).vm_state@,
                old(store).contents(),
                mem.slots(),
                old(self).next_id(),
                old(task).memory_mapping.mapping@,
                old(store).owners(),
            ),
            id != CALL_SPAWN ==> *final(store) == *old(store) && final(self).tasks == old(self).tasks
                && final(self).scheduler == old(self).scheduler && final(self).next_id() == old(self).next_id(),
            id != CALL_SLEEP_NS ==> *final(scheduler_task) == *old(scheduler_task),
            id != CALL_PRINT_CHAR ==> final(task).pending_line@ == old(task).pending_line@,
            id != CALL_SPAWN && id != CALL_TIME_NOW ==> final(task).vm_state@ == old(task).vm_state@,
            id != CALL_SPAWN && id != CALL_PRINT_I32 && id != CALL_PRINT_CSTR && id != CALL_PRINT_CHAR ==> final(self).log() == old(self).log(),
            ({
                let a0 = old(task).vm_state.reg@[REG_A0 as int];
                let a1 = old(task).vm_state.reg@[REG_A1 as int];
                let tid = old(task).tid;
                if id == CALL_EXIT {
                    r == InterfaceCallResult::Exit
                } else if id == CALL_PRINT_I32 {
                    r == InterfaceCallResult::Continue && final(self).log() == old(self).log().push(LogEvent::Int(tid, a0 as i32))
                } else if id == CALL_PRINT_CSTR {
                    match read_cstr(old(store).contents(), mem.slots(), a0) {
                        Err(a) => r == InterfaceCallResult::ImmediateKill(Some(TaskError::MemoryDoesNotExistError(a, old(task).vm_state.pc)))
                            && final(self).log() == old(self).log(),
                        Ok(b) => if valid_utf8(b) {
                            &&& r == InterfaceCallResult::Continue
                            &&& final(self).log().len() == old(self).log().len() + 1
                            &&& final(self).log().drop_last() == old(self).log()
                            &&& final(self).log().last() matches LogEvent::Text(t, s) && t == tid && s@ == decode_utf8(b)
                        } else {
                            r == InterfaceCallResult::MalformedCallArgs && final(self).log() == old(self).log()
                        },
                    }
                } else if id == CALL_PRINT_CHAR {
                    &&& r == InterfaceCallResult::Continue
                    &&& a0 as u8 != 10u8 ==> final(task).pending_line@ == old(task).pending_line@.push(a0 as u8)
                        && final(self).log() == old(self).log()
                    &&& a0 as u8 == 10u8 ==> final(task).pending_line@.len() == 0
                        && final(self).log().len() == old(self).log().len() + 1
                        && final(self).log().drop_last() == old(self).log()
                        && (final(self).log().last() matches LogEvent::Line(t, l) && t == tid && l@ == old(task).pending_line@)
                } else if id == CALL_TIME_NOW {
                    r == InterfaceCallResult::Continue && exists|now: u64|
                        final(task).vm_state@ == old(task).vm_state@.set(REG_V0 as int, now as u32).set(REG_V1 as int, (now >> 32u64) as u32)
                } else if id == CALL_SPAWN {
                    spawn_outcome(*old(self), *final(self), *old(task), *final(task), *old(store), *final(store), r)
                } else if id == CALL_SLEEP_NS {
                    r == InterfaceCallResult::Wait && *final(scheduler_task) == (SchedulerTask { sleep_for: Some(duration_of(a0, a1)), ..*old(scheduler_task) })
                } else if id == CALL_YIELD {
                    r == InterfaceCallResult::Wait
                } else if id == CALL_FUTEX_WAKE || id == CALL_FUTEX_WAIT {
                    r == InterfaceCallResult::Continue
                } else {
                    r == InterfaceCallResult::InvalidCall(id)
                }
            }),
    {
        let a0 = task.vm_state.reg[REG_A0];
        let a1 = task.vm_state.reg[REG_A1];
        if id == CALL_EXIT {
            InterfaceCallResult::Exit
        } else if id == CALL_PRINT_I32 {
            self.emit(LogEvent::Int(task.tid, a0 as i32));
            InterfaceCallResult::Continue
        } else if id == CALL_PRINT_CSTR {
            match read_zero_terminated(store, mem, a0) {
                Err(a) => InterfaceCallResult::ImmediateKill(Some(TaskError::MemoryDoesNotExistError(a, task.vm_state.pc))),
                Ok(bytes) => match utf8_string(bytes) {
                    Some(text) => {
                        self.emit(LogEvent::Text(task.tid, text));
                        InterfaceCallResult::Continue
                    },
                    None => InterfaceCallResult::MalformedCallArgs,
                },
            }
        } else if id == CALL_PRINT_CHAR {
            let c = a0 as u8;
            if c != 10u8 {
                task.pending_line.push(c);
            } else {
                let mut line: Vec<u8> = Vec::new();
                std::mem::swap(&mut line, &mut task.pending_line);
                self.emit(LogEvent::Line(task.tid, line));
            }
            InterfaceCallResult::Continue
        } else if id == CALL_TIME_NOW {
            let now = systime_now();
            time_now_call(task, now);
            InterfaceCallResult::Continue
        } else if id == CALL_SPAWN {
            self.spawn(task, store)
        } else if id == CALL_SLEEP_NS {
            scheduler_task.sleep_for = Some(a0 as u64 | ((a1 as u64) << 32u64));
            InterfaceCallResult::Wait
        } else if id == CALL_YIELD {
            InterfaceCallResult::Wait
        } else if id == CALL_FUTEX_WAKE || id == CALL_FUTEX_WAIT {
            InterfaceCallResult::Continue
        } else {
            InterfaceCallResult::InvalidCall(id)
        }
    }

    /// Carries out breakpoint `id`: only the debugger's id is known.
    pub fn breakpoint(&mut self, id: u32, task: &mut Task, scheduler_task: &mut SchedulerTask, mem: &TaskMemory) -> (r: InterfaceCallResult)
        ensures
            *final(self) == *old(self),
            *final(task) == *old(task),
            *final(scheduler_task) == *old(scheduler_task),
            r == break_answer(id),
    {
        if id == BREAK_DEBUGGER {
            InterfaceCallResult::Continue
        } else {
            InterfaceCallResult::InvalidCall(id)
        }
    }
}

/// Why a program could not be loaded.
#[derive(Clone, Copy, Debug, PartialEq, Eq, Structural)]
pub enum LoadError {
    /// The image is larger than one page.
    ImageTooLarge,
    /// No page was asked for to hold the image.
    NoPages,
    /// Every task id has been handed out.
    IdsExhausted,
}

/// The pages of a new mapping `m`: pairwise distinct, each either added to
/// the store or one whose share count was zero in `s0` (so no task held it),
/// each now held once; the first holds `image` and zeros after it, the
/// others are all zeros.
pub open spec fn fresh_pages(s0: TaskPoolSharedMemory, s1: TaskPoolSharedMemory, m: Seq<(PageId, PageVAddressStart)>, image: Seq<u8>) -> bool {
    &&& forall|a: int, b: int| 0 <= a < b < m.len() ==> #[trigger] m[a].0 != #[trigger] m[b].0
    &&& forall|a: int|
        0 <= a < m.len() ==> ((#[trigger] m[a]).0.0 >= s0.contents().len() || s0.owners()[m[a].0.0 as int] == 0)
    &&& forall|a: int| 0 <= a < m.len() ==> s1.owners()[(#[trigger] m[a]).0.0 as int] == 1
    &&& forall|a: int| 1 <= a < m.len() ==> s1.contents()[(#[trigger] m[a]).0.0 as int] == zero_page()
    &&& m.len() > 0 ==> s1.contents()[m[0].0.0 as int] == image + zero_page().subrange(image.len() as int, PAGE_SIZE as int)
}

/// What one execution slice did: how many instructions completed, the
/// scheduler entry to hand back if the task is still alive, and the
/// interpreter's result (`None` when the task was not in the pool).
pub struct SliceReport {
    pub ran: u32,
    pub entry: Option<SchedulerTask>,
    pub result: Option<Result<TaskRunResult, (TaskError, u32)>>,
}

/// The view of a slice: each virtual page holds the page a mapping places there.
pub open spec fn mapped_view(m: Seq<(PageId, PageVAddressStart)>) -> Seq<Option<usize>> {
    Seq::new(PAGE_COUNT as nat, |v: int| crate::task::mapped_at(m, v))
}

/// Instructions completed according to a slice's result.
pub open spec fn ran_count(x: Result<TaskRunResult, (TaskError, u32)>, iterations: u32) -> u32 {
    match x {
        Ok(TaskRunResult::Continue) => iterations,
        Ok(TaskRunResult::Wait(n)) => n,
        Ok(TaskRunResult::Exit(n, _)) => n,
        Err((_, n)) => n,
    }
}

/// Whether a slice's result leaves the task alive.
pub open spec fn stays_alive(x: Result<TaskRunResult, (TaskError, u32)>) -> bool {
    x matches Ok(TaskRunResult::Continue) || x matches Ok(TaskRunResult::Wait(_))
}

/// A slice of task `t0` (the pooled task `entry.tid` of `s0`) for up to
/// `iterations` instructions went as the interpreter says (`run_outcome`),
/// from its registers over the pages its mapping places, ending in the
/// memory of `s1` with registers `regs`; if the task stays, its pooled
/// registers are `regs`, and its entry is handed back with only its sleep
/// changed (unchanged when no call was raised).
pub open spec fn slice_ok(s0: System, s1: System, t0: Task, entry: SchedulerTask, iterations: u32, r: SliceReport, regs: Regs) -> bool {
    let m0 = MemState { pages: s0.sys_mem.contents(), ll: s0.mem.ll() };
    let slots = mapped_view(t0.memory_mapping.mapping@);
    {
        &&& run_outcome(
            t0.vm_state@,
            m0,
            slots,
            s0.core.next_id(),
            t0.memory_mapping.mapping@,
            s0.sys_mem.owners(),
            iterations,
            r.result->Some_0,
            regs,
            mem_state(s1.sys_mem, s1.mem),
        )
        &&& r.entry matches Some(e) ==> {
            &&& e == SchedulerTask { sleep_for: e.sleep_for, ..entry }
            &&& !(slice_spec(t0.vm_state@, m0, slots, iterations as nat).2 is Call) ==> e == entry
            &&& exists|j: int| 0 <= j < s1.core.tasks.tasks().len() && s1.core.tasks.tasks()[j].tid == entry.tid
                && s1.core.tasks.tasks()[j].vm_state@ == regs
        }
    }
}

/// The whole machine: tasks, scheduler, pages, and the memory view that is
/// filled for one slice at a time.
///
/// A run is a sequence of rounds, each `schedule_next_task`, then a wait of
/// the time it returns, then `run_task` and `scheduled_task_report`. Across
/// rounds, each live task has exactly one scheduler entry (`entries_match`),
/// and each page's share count is the number of mappings that hold it
/// (`owners_match`); the rounds end when no task is left.
pub struct System {
    pub core: SystemCore,
    pub sys_mem: TaskPoolSharedMemory,
    pub mem: TaskMemory,
}

impl System {
    pub open spec fn wf(&self) -> bool {
        &&& self.core.wf()
        &&& self.sys_mem.wf()
        &&& self.core.mappings_within(self.sys_mem.contents().len())
        &&& owners_match(self.sys_mem, self.core.tasks.tasks(), Seq::empty())
        &&& self.mem.fits(self.sys_mem.contents().len())
        &&& forall|v: int| 0 <= v < self.mem.slots().len() ==> #[trigger] self.mem.slots()[v] is None
    }

    pub fn new() -> (r: System)
        ensures
            r.wf(),
            r.core.tasks.tasks().len() == 0,
            r.core.log().len() == 0,
            entries_match(r.core, None),
    {
        let r = System { core: SystemCore::new(), sys_mem: TaskPoolSharedMemory::new(), mem: TaskMemory::new() };
        proof {
            r.sys_mem.lemma_wf();
            assert forall|t: TaskId| #[trigger] has_entry(r.core.scheduler@.ready, t) implies r.core.tasks.holds(t) by {}
            assert forall|t: TaskId| #[trigger] r.core.tasks.holds(t) implies has_entry(r.core.scheduler@.ready, t) || None::<TaskId> == Some(t) by {}
        }
        r
    }

    /// Creates the main task of a new process with fresh zeroed pages at the
    /// virtual page numbers `initial_pages`, copies `image` to the start of
    /// the first of them, and hands the task to the scheduler.
    #[verifier::spinoff_prover]
    pub fn add_task_with_pages(&mut self, initial_pages: &Vec<u16>, image: &Vec<u8>) -> (r: Result<TaskId, LoadError>)
        requires
            old(self).wf(),
        ensures
            final(self).wf(),
            image@.len() > PAGE_SIZE ==> r == Err::<TaskId, LoadError>(LoadError::ImageTooLarge),
            image@.len() <= PAGE_SIZE && initial_pages@.len() == 0 && image@.len() > 0 ==> r == Err::<TaskId, LoadError>(LoadError::NoPages),
            image@.len() <= PAGE_SIZE && (initial_pages@.len() > 0 || image@.len() == 0) && old(self).core.next_id() == u32::MAX
                ==> r == Err::<TaskId, LoadError>(LoadError::IdsExhausted),
            image@.len() <= PAGE_SIZE && (initial_pages@.len() > 0 || image@.len() == 0) && old(self).core.next_id() < u32::MAX
                ==> r is Ok,
            r is Err ==> final(self).core == old(self).core,
            forall|f: Option<TaskId>| #[trigger] entries_match(old(self).core, f) ==> entries_match(final(self).core, f),
            r matches Ok(tid) ==> ({
                let t = final(self).core.tasks.tasks().last();
                &&& tid.raw() == old(self).core.next_id() + 1
                &&& final(self).core.tasks.tasks() == old(self).core.tasks.tasks().push(t)
                &&& t.tid == tid
                &&& t.pid.raw() == tid.raw()
                &&& t.memory_mapping.mapping@.len() == initial_pages@.len()
                &&& forall|i: int| 0 <= i < initial_pages@.len() ==> #[trigger] t.memory_mapping.mapping@[i].1 == initial_pages@[i]
                &&& fresh_pages(old(self).sys_mem, final(self).sys_mem, t.memory_mapping.mapping@, image@)
                &&& final(self).core.scheduler@ == (SchedView { ready: old(self).core.scheduler@.ready.push(SchedulerTask { tid, last_ran: 0, sleep_for: None }), ..old(self).core.scheduler@ })
            }),
    {
        if image.len() > PAGE_SIZE {
            return Err(LoadError::ImageTooLarge);
        }
        if initial_pages.len() == 0 && image.len() > 0 {
            return Err(LoadError::NoPages);
        }
        if self.core.next_task_id == u32::MAX {
            return Err(LoadError::IdsExhausted);
        }
        let tid = match self.core.next_task_id() {
            Some(t) => t,
            None => {
                return Err(LoadError::IdsExhausted);
            },
        };
        let mut task = Task::new(ProcessId::from_raw(tid.into_raw()));
        proof {
            TaskId::lemma_raw_eq(task.tid, tid);
        }
        let ghost core = self.core;
        let ghost view = self.mem;
        proof {
            self.sys_mem.lemma_wf();
            assert(core.tasks == old(self).core.tasks);
            assert forall|q: int| 0 <= q < self.sys_mem.owners().len() implies #[trigger] self.sys_mem.owners()[q] == refs(core.tasks.tasks(), q) + refs_in(task.memory_mapping.mapping@, q) by {
                assert(refs_in(task.memory_mapping.mapping@, q) == 0);
                assert(refs_in(Seq::<(PageId, PageVAddressStart)>::empty(), q) == 0);
            }
        }
        assert(Seq::<u8>::empty() + zero_page().subrange(0, PAGE_SIZE as int) =~= zero_page());
        let mut i: usize = 0;
        while i < initial_pages.len()
            invariant
                self.core == core,
                self.mem == view,
                self.sys_mem.wf(),
                self.sys_mem.contents().len() >= old(self).sys_mem.contents().len(),
                i <= initial_pages@.len(),
                task.tid == tid,
                task.pid.raw() == tid.raw(),
                task.memory_mapping.mapping@.len() == i,
                task.memory_mapping.within(self.sys_mem.contents().len()),
                forall|k: int| 0 <= k < i ==> #[trigger] task.memory_mapping.mapping@[k].1 == initial_pages@[k],
                owners_match(self.sys_mem, core.tasks.tasks(), task.memory_mapping.mapping@),
                core.mappings_within(self.sys_mem.contents().len()),
                fresh_pages(old(self).sys_mem, self.sys_mem, task.memory_mapping.mapping@, Seq::empty()),
                forall|a: int| 0 <= a < task.memory_mapping.mapping@.len() ==> self.sys_mem.contents()[(#[trigger] task.memory_mapping.mapping@[a]).0.0 as int] == zero_page(),
                forall|q: int| 0 <= q < old(self).sys_mem.contents().len() && (forall|a: int| 0 <= a < task.memory_mapping.mapping@.len() ==> (#[trigger] task.memory_mapping.mapping@[a]).0.0 != q)
                    ==> self.sys_mem.owners()[q] == old(self).sys_mem.owners()[q],
                self.sys_mem.owners().len() == self.sys_mem.contents().len(),
                old(self).sys_mem.owners().len() == old(self).sys_mem.contents().len(),
            decreases initial_pages@.len() - i,
        {
            let ghost pre = self.sys_mem;
            let ghost pre_m = task.memory_mapping.mapping@;
            let p = self.sys_mem.new_page();
            task.memory_mapping.mapping.push((p, initial_pages[i]));
            proof {
                pre.lemma_wf();
                self.sys_mem.lemma_wf();
                let n0 = pre.contents().len();
                assert forall|q: int| 0 <= q < self.sys_mem.owners().len() implies #[trigger] self.sys_mem.owners()[q] == refs(core.tasks.tasks(), q) + refs_in(task.memory_mapping.mapping@, q) by {
                    lemma_refs_in_push(pre_m, (p, initial_pages@[i as int]), q);
                    if q < n0 {
                        assert(pre.owners()[q] == refs(core.tasks.tasks(), q) + refs_in(pre_m, q));
                    } else {
                        lemma_refs_beyond(core.tasks.tasks(), n0, q);
                        lemma_refs_in_beyond(pre_m, n0, q);
                    }
                }
                core.lemma_mappings_grow(n0, self.sys_mem.contents().len());
                let m = task.memory_mapping.mapping@;
                assert(m == pre_m.push((p, initial_pages@[i as int])));
                assert forall|a: int| 0 <= a < pre_m.len() implies #[trigger] pre_m[a].0 != p by {
                    assert(pre.owners()[pre_m[a].0.0 as int] == 1);
                }
                assert forall|a: int, b: int| 0 <= a < b < m.len() implies #[trigger] m[a].0 != #[trigger] m[b].0 by {
                    if b == pre_m.len() {
                        assert(m[a] == pre_m[a]);
                    } else {
                        assert(m[a] == pre_m[a] && m[b] == pre_m[b]);
                    }
                }
                assert forall|a: int| 0 <= a < m.len() implies ((#[trigger] m[a]).0.0 >= old(self).sys_mem.contents().len() || old(self).sys_mem.owners()[m[a].0.0 as int] == 0) by {
                    if a == pre_m.len() {
                        if p.0 < old(self).sys_mem.contents().len() {
                            assert(forall|c: int| 0 <= c < pre_m.len() ==> (#[trigger] pre_m[c]).0.0 != p.0);
                            assert(pre.owners()[p.0 as int] == old(self).sys_mem.owners()[p.0 as int]);
                        }
                    } else {
                        assert(m[a] == pre_m[a]);
                    }
                }
                assert forall|a: int| 0 <= a < m.len() implies self.sys_mem.owners()[(#[trigger] m[a]).0.0 as int] == 1 by {
                    if a < pre_m.len() {
                        assert(m[a] == pre_m[a]);
                    }
                }
                assert forall|a: int| 0 <= a < m.len() implies self.sys_mem.contents()[(#[trigger] m[a]).0.0 as int] == zero_page() by {
                    if a < pre_m.len() {
                        assert(m[a] == pre_m[a]);
                    }
                }
                assert(Seq::<u8>::empty() + zero_page().subrange(0, PAGE_SIZE as int) =~= zero_page());
                assert forall|q: int| 0 <= q < old(self).sys_mem.contents().len() && (forall|a: int| 0 <= a < m.len() ==> (#[trigger] m[a]).0.0 != q)
                    implies self.sys_mem.owners()[q] == old(self).sys_mem.owners()[q] by {
                    assert(m[pre_m.len() as int].0.0 != q);
                    assert forall|a: int| 0 <= a < pre_m.len() implies (#[trigger] pre_m[a]).0.0 != q by {
                        assert(m[a] == pre_m[a]);
                    }
                }
            }
            i = i + 1;
        }
        let ghost pages_before = self.sys_mem;
        if task.memory_mapping.mapping.len() > 0 {
            let first = task.memory_mapping.mapping[0].0;
            proof {
                self.sys_mem.lemma_wf();
            }
            self.sys_mem.write_image(first, image);
        }
        proof {
            self.sys_mem.lemma_wf();
            let m = task.memory_mapping.mapping@;
            assert forall|a: int| 1 <= a < m.len() implies self.sys_mem.contents()[(#[trigger] m[a]).0.0 as int] == zero_page() by {
                assert(m[a].0 != m[0].0);
                assert(pages_before.contents()[m[a].0.0 as int] == zero_page());
            }
            if m.len() > 0 {
                assert(pages_before.contents()[m[0].0.0 as int] == zero_page());
            } else {
                assert(image@.len() == 0);
            }
            assert(fresh_pages(old(self).sys_mem, self.sys_mem, m, image@));
            old(self).core.lemma_mappings_grow(old(self).sys_mem.contents().len(), self.sys_mem.contents().len());
            assert(core.tasks == old(self).core.tasks);
            assert(!self.core.tasks.holds(tid)) by {
                if self.core.tasks.holds(tid) {
                    let k = choose|k: int| 0 <= k < self.core.tasks.tasks().len() && self.core.tasks.tasks()[k].tid == tid;
                    assert(old(self).core.tasks.tasks()[k].tid.raw() <= old(self).core.next_id());
                }
            }
        }
        let ghost c_pre = self.core;
        self.core.scheduler.add_task(tid);
        let ghost before = self.core.tasks.tasks();
        let ghost tm = task.memory_mapping.mapping@;
        self.core.tasks.add_task(task);
        proof {
            lemma_add_keeps_entries(old(self).core, c_pre, self.core, tid);
            assert forall|q: int| 0 <= q < self.sys_mem.owners().len() implies #[trigger] self.sys_mem.owners()[q] == refs(self.core.tasks.tasks(), q) + refs_in(Seq::<(PageId, PageVAddressStart)>::empty(), q) by {
                lemma_refs_push(before, self.core.tasks.tasks().last(), q);
                assert(self.core.tasks.tasks() == before.push(self.core.tasks.tasks().last()));
                assert(refs_in(Seq::<(PageId, PageVAddressStart)>::empty(), q) == 0);
            }
            assert forall|k: int| 0 <= k < self.core.tasks.tasks().len() implies #[trigger] self.core.tasks.tasks()[k].tid.raw() <= self.core.next_id() by {
                if k < before.len() {
                    assert(before[k].tid.raw() <= old(self).core.next_id());
                }
            }
            assert forall|k: int| 0 <= k < self.core.tasks.tasks().len() implies #[trigger] self.core.tasks.tasks()[k].memory_mapping.within(self.sys_mem.contents().len()) by {
                if k < before.len() {
                    assert(before[k] == self.core.tasks.tasks()[k]);
                }
            }
        }
        Ok(tid)
    }

    /// Picks the next slice at time `now`; see `Scheduler::schedule_next_task`.
    pub fn schedule_next_task(&mut self, now: u64) -> (r: Option<(SchedulerTask, u32, u128)>)
        requires
            old(self).wf(),
        ensures
            final(self).wf(),
            final(self).core.scheduler@ == crate::scheduler::schedule_state(old(self).core.scheduler@, now),
            r == crate::scheduler::schedule_result(old(self).core.scheduler@, now),
            final(self).core.tasks == old(self).core.tasks,
            entries_match(old(self).core, None) ==> match r {
                None => entries_match(final(self).core, None) && final(self).core.tasks.tasks().len() == 0,
                Some((e, _q, _w)) => entries_match(final(self).core, Some(e.tid)) && final(self).core.tasks.holds(e.tid),
            },
    {
        let ghost c0 = self.core;
        let r = self.core.scheduler.schedule_next_task(now);
        proof {
            if entries_match(c0, None) {
                lemma_handout_keeps_entries(c0, self.core, now);
            }
        }
        r
    }

    /// Runs task `entry.tid` for up to `iterations` instructions with its
    /// pages mapped into the view, which is cleared again afterwards. A task
    /// that exits or faults leaves the pool, releases its pages and is
    /// recorded in the output channel; a task that is not in the pool runs
    /// nothing and is dropped from scheduling.
    #[verifier::rlimit(60)]
    #[verifier::spinoff_prover]
    pub fn run_task(&mut self, entry: SchedulerTask, iterations: u32) -> (r: SliceReport)
        requires
            old(self).wf(),
        ensures
            final(self).wf(),
            r.ran <= iterations,
            r.entry matches Some(e) ==> e.tid == entry.tid && e.last_ran == entry.last_ran,
            !old(self).core.tasks.holds(entry.tid) ==> r.ran == 0 && r.entry is None,
            r.entry is Some ==> final(self).core.tasks.holds(entry.tid),
            r.entry is None ==> !final(self).core.tasks.holds(entry.tid),
            entries_match(old(self).core, Some(entry.tid)) ==> entries_match(final(self).core, Some(entry.tid)),
            !old(self).core.tasks.holds(entry.tid) ==> r.result is None,
            old(self).core.tasks.holds(entry.tid) ==> r.result is Some && exists|i: int|
                0 <= i < old(self).core.tasks.tasks().len() && #[trigger] old(self).core.tasks.tasks()[i].tid == entry.tid
                    && exists|regs: Regs| #[trigger] slice_ok(*old(self), *final(self), old(self).core.tasks.tasks()[i], entry, iterations, r, regs),
            r.result matches Some(x) ==> {
                &&& r.ran == ran_count(x, iterations)
                &&& (r.entry is Some <==> stays_alive(x))
                &&& x matches Ok(TaskRunResult::Exit(_, code)) ==> final(self).core.log().last() matches LogEvent::Exited(t, c)
                    && t == entry.tid && c == code
                &&& x matches Err((e, _)) ==> final(self).core.log().last() matches LogEvent::Faulted(t, e2, _) && t == entry.tid
                    && e2 == e
            },
    {
        let mut sched = entry;
        let mut task = match self.core.tasks.remove_task(entry.tid) {
            Some(t) => t,
            None => {
                return SliceReport { ran: 0, entry: None, result: None };
            },
        };
        proof {
            let k = choose|k: int| 0 <= k < old(self).core.tasks.tasks().len() && old(self).core.tasks.tasks()[k] == task;
            assert(old(self).core.tasks.tasks()[k].memory_mapping.within(self.sys_mem.contents().len()));
            assert(old(self).core.tasks.tasks()[k].tid.raw() <= old(self).core.next_id());
            assert forall|i: int| 0 <= i < self.core.tasks.tasks().len() implies #[trigger] self.core.tasks.tasks()[i].memory_mapping.within(self.sys_mem.contents().len()) by {
                assert(old(self).core.mappings_within(self.sys_mem.contents().len()));
                if i < k {
                    assert(self.core.tasks.tasks()[i] == old(self).core.tasks.tasks()[i]);
                    assert(old(self).core.tasks.tasks()[i].memory_mapping.within(self.sys_mem.contents().len()));
                } else {
                    assert(self.core.tasks.tasks()[i] == old(self).core.tasks.tasks()[i + 1]);
                    assert(old(self).core.tasks.tasks()[i + 1].memory_mapping.within(self.sys_mem.contents().len()));
                }
            }
            assert forall|i: int| 0 <= i < self.core.tasks.tasks().len() implies #[trigger] self.core.tasks.tasks()[i].tid.raw() <= self.core.next_id() by {
                if i < k {
                    assert(self.core.tasks.tasks()[i] == old(self).core.tasks.tasks()[i]);
                } else {
                    assert(self.core.tasks.tasks()[i] == old(self).core.tasks.tasks()[i + 1]);
                }
            }
            assert(self.core.tasks.tasks() == old(self).core.tasks.tasks().remove(k));
            assert forall|q: int| 0 <= q < self.sys_mem.owners().len() implies #[trigger] self.sys_mem.owners()[q] == refs(self.core.tasks.tasks(), q) + refs_in(task.memory_mapping.mapping@, q) by {
                lemma_refs_remove(old(self).core.tasks.tasks(), k, q);
                assert(refs_in(Seq::<(PageId, PageVAddressStart)>::empty(), q) == 0);
            }
        }
        proof {
            if entries_match(old(self).core, Some(entry.tid)) {
                lemma_pool_change_keeps_entries(old(self).core, self.core, entry.tid);
            }
        }
        let ghost empty_view = self.mem.slots();
        let ghost t0 = task;
        let ghost k0 = choose|k: int| 0 <= k < old(self).core.tasks.tasks().len() && old(self).core.tasks.tasks()[k] == task;
        self.mem.map_pages(&task.memory_mapping);
        proof {
            assert(self.mem.slots() =~= mapped_view(task.memory_mapping.mapping@)) by {
                assert forall|v: int| 0 <= v < PAGE_COUNT implies #[trigger] self.mem.slots()[v] == mapped_view(task.memory_mapping.mapping@)[v] by {
                    assert(empty_view[v] is None);
                }
            }
            assert forall|v: int| 0 <= v < self.mem.slots().len() implies (#[trigger] self.mem.slots()[v] matches Some(p) ==> p < self.sys_mem.contents().len()) by {
                if crate::task::mapped_at(task.memory_mapping.mapping@, v) is Some {
                    lemma_mapped_within(task.memory_mapping.mapping@, v, self.sys_mem.contents().len());
                }
            }
        }
        let ghost pre_core = self.core;
        let ghost pre_store = self.sys_mem;
        let ghost pre_mem = self.mem;
        let ghost sched0 = sched;
        proof {
            assert(t0 == old(self).core.tasks.tasks()[k0]);
            assert(pre_store == old(self).sys_mem);
            assert(pre_mem.ll() == old(self).mem.ll());
            assert(pre_core.next_id() == old(self).core.next_id());
            assert(mem_state(pre_store, pre_mem) == MemState { pages: old(self).sys_mem.contents(), ll: old(self).mem.ll() });
        }
        let res = task.run(&mut self.core, &mut sched, &mut self.sys_mem, &mut self.mem, iterations);
        let ghost ms_run = mem_state(self.sys_mem, self.mem);
        let ghost regs_run = task.vm_state@;
        proof {
            assert(run_outcome(
                t0.vm_state@,
                MemState { pages: old(self).sys_mem.contents(), ll: old(self).mem.ll() },
                mapped_view(t0.memory_mapping.mapping@),
                old(self).core.next_id(),
                t0.memory_mapping.mapping@,
                old(self).sys_mem.owners(),
                iterations,
                res,
                regs_run,
                ms_run,
            ));
        }
        proof {
            assert(!self.core.tasks.holds(task.tid)) by {
                if self.core.tasks.holds(task.tid) {
                    assert(pre_core.tasks.holds(task.tid) || task.tid.raw() > pre_core.next_id());
                }
            }
        }
        self.mem.unmap_pages(&task.memory_mapping);
        proof {
            assert forall|v: int| 0 <= v < self.mem.slots().len() implies #[trigger] self.mem.slots()[v] is None by {
                assert(empty_view[v] is None);
            }
        }
        let ghost regs = task.vm_state@;
        let (ran, alive) = match res {
            Ok(TaskRunResult::Continue) => (iterations, true),
            Ok(TaskRunResult::Wait(n)) => (n, true),
            Ok(TaskRunResult::Exit(n, _code)) => (n, false),
            Err((_e, n)) => (n, false),
        };
        if alive {
            let ghost before = self.core.tasks.tasks();
            proof {
                assert(!self.core.tasks.holds(task.tid)) by {
                    if self.core.tasks.holds(task.tid) {
                        let k = choose|k: int| 0 <= k < before.len() && before[k].tid == task.tid;
                        assert(before[k].tid.raw() <= self.core.next_id());
                    }
                }
            }
            let ghost tm = task.memory_mapping.mapping@;
            let ghost c_mid = self.core;
            self.core.tasks.add_task(task);
            proof {
                assert(self.core.tasks.tasks()[before.len() as int].tid == entry.tid);
                if entries_match(old(self).core, Some(entry.tid)) {
                    lemma_pool_change_keeps_entries(c_mid, self.core, entry.tid);
                }
                assert forall|q: int| 0 <= q < self.sys_mem.owners().len() implies #[trigger] self.sys_mem.owners()[q] == refs(self.core.tasks.tasks(), q) + refs_in(Seq::<(PageId, PageVAddressStart)>::empty(), q) by {
                    lemma_refs_push(before, self.core.tasks.tasks().last(), q);
                    assert(self.core.tasks.tasks() == before.push(self.core.tasks.tasks().last()));
                    assert(refs_in(Seq::<(PageId, PageVAddressStart)>::empty(), q) == 0);
                }
                assert forall|k: int| 0 <= k < self.core.tasks.tasks().len() implies #[trigger] self.core.tasks.tasks()[k].tid.raw() <= self.core.next_id() by {
                    if k < before.len() {
                        assert(before[k] == self.core.tasks.tasks()[k]);
                    }
                }
                assert forall|k: int| 0 <= k < self.core.tasks.tasks().len() implies #[trigger] self.core.tasks.tasks()[k].memory_mapping.within(self.sys_mem.contents().len()) by {
                    if k < before.len() {
                        assert(before[k] == self.core.tasks.tasks()[k]);
                        assert(c_mid.mappings_within(self.sys_mem.contents().len()));
                        assert(c_mid.tasks.tasks()[k].memory_mapping.within(self.sys_mem.contents().len()));
                    } else {
                        assert(self.core.tasks.tasks()[k] == task);
                    }
                }
            }
            let r = SliceReport { ran, entry: Some(sched), result: Some(res) };
            proof {
                assert(task.vm_state@ == regs);
                assert(self.core.tasks.tasks()[before.len() as int] == task);
                assert(mem_state(self.sys_mem, self.mem) == ms_run);
                assert(sched.tid == entry.tid && sched.last_ran == entry.last_ran);
                assert(sched == SchedulerTask { sleep_for: sched.sleep_for, ..entry });
                assert(regs == regs_run);
                let m0 = MemState { pages: old(self).sys_mem.contents(), ll: old(self).mem.ll() };
                let sl = mapped_view(t0.memory_mapping.mapping@);
                assert(!(slice_spec(t0.vm_state@, m0, sl, iterations as nat).2 is Call) ==> sched == entry);
                assert(self.core.tasks.tasks()[before.len() as int].tid == entry.tid
                    && self.core.tasks.tasks()[before.len() as int].vm_state@ == regs_run);
                assert(slice_ok(*old(self), *self, old(self).core.tasks.tasks()[k0], entry, iterations, r, regs_run));
            }
            r
        } else {
            let ghost core = self.core;
            let ghost view = self.mem;
            let ghost pages = self.sys_mem.contents();
            assert(task.memory_mapping.mapping@.subrange(0, task.memory_mapping.mapping@.len() as int) =~= task.memory_mapping.mapping@);
            let mut i: usize = 0;
            while i < task.memory_mapping.mapping.len()
                invariant
                    self.sys_mem.wf(),
                    self.sys_mem.contents() == pages,
                    self.core == core,
                    self.mem == view,
                    task.memory_mapping.within(self.sys_mem.contents().len()),
                    i <= task.memory_mapping.mapping@.len(),
                    owners_match(self.sys_mem, core.tasks.tasks(), task.memory_mapping.mapping@.subrange(i as int, task.memory_mapping.mapping@.len() as int)),
                decreases task.memory_mapping.mapping@.len() - i,
            {
                let (p, _v) = task.memory_mapping.mapping[i];
                let ghost pre = self.sys_mem;
                proof {
                    pre.lemma_wf();
                    assert(task.memory_mapping.mapping@[i as int].0.0 < pre.contents().len());
                }
                self.sys_mem.release_page(p);
                proof {
                    let m = task.memory_mapping.mapping@;
                    assert forall|q: int| 0 <= q < self.sys_mem.owners().len() implies #[trigger] self.sys_mem.owners()[q] == refs(core.tasks.tasks(), q) + refs_in(m.subrange(i + 1, m.len() as int), q) by {
                        lemma_refs_in_from(m, i as int, q);
                        assert(pre.owners()[q] == refs(core.tasks.tasks(), q) + refs_in(m.subrange(i as int, m.len() as int), q));
                    }
                }
                i = i + 1;
            }
            proof {
                let m = task.memory_mapping.mapping@;
                assert(m.subrange(m.len() as int, m.len() as int) =~= Seq::<(PageId, PageVAddressStart)>::empty());
            }
            let tid = task.tid;
            match res {
                Ok(TaskRunResult::Exit(_n, code)) => {
                    self.core.emit(LogEvent::Exited(tid, code));
                },
                Err((e, _n)) => {
                    let snap = VmSnapshot {
                        pc: task.vm_state.pc,
                        hi: task.vm_state.hi,
                        lo: task.vm_state.lo,
                        reg: task.vm_state.reg,
                        mapping: task.memory_mapping.mapping,
                    };
                    self.core.emit(LogEvent::Faulted(tid, e, snap));
                },
                _ => {},
            }
            let r = SliceReport { ran, entry: None, result: Some(res) };
            proof {
                assert(mem_state(self.sys_mem, self.mem) == ms_run);
                assert(slice_ok(*old(self), *self, old(self).core.tasks.tasks()[k0], entry, iterations, r, regs_run));
            }
            r
        }
    }

    /// Accounts for a slice that ran from `start` to `end`; see `Scheduler::scheduled_task_report`.
    pub fn scheduled_task_report(&mut self, report: SliceReport, start: u64, end: u64)
        requires
            old(self).wf(),
            start <= end,
        ensures
            final(self).wf(),
            final(self).core.scheduler@ == crate::scheduler::report_state(old(self).core.scheduler@, report.entry, report.ran, start, end),
            final(self).core.tasks == old(self).core.tasks,
            report.entry matches Some(e) && entries_match(old(self).core, Some(e.tid)) && old(self).core.tasks.holds(e.tid)
                ==> entries_match(final(self).core, None),
            forall|t: TaskId|
                report.entry is None && #[trigger] entries_match(old(self).core, Some(t)) && !old(self).core.tasks.holds(t)
                    ==> entries_match(final(self).core, None),
    {
        let ghost c0 = self.core;
        self.core.scheduler.scheduled_task_report(report.entry, report.ran, start, end);
        proof {
            match report.entry {
                Some(e) => {
                    if entries_match(c0, Some(e.tid)) && c0.tasks.holds(e.tid) {
                        let r0 = c0.scheduler@.ready;
                        let r1 = self.core.scheduler@.ready;
                        assert(!c0.scheduler@.marked.contains(e.tid));
                        assert(r1 == r0.push(SchedulerTask { last_ran: end, ..e }));
                        assert forall|a: int, b: int| 0 <= a < b < r1.len() implies #[trigger] r1[a].tid != #[trigger] r1[b].tid by {
                            if b == r0.len() {
                                assert(r1[a] == r0[a]);
                                assert(!has_entry(r0, e.tid));
                            } else {
                                assert(r0[a].tid != r0[b].tid);
                            }
                        }
                        assert forall|t: TaskId| #[trigger] has_entry(r1, t) implies self.core.tasks.holds(t) by {
                            let i = choose|i: int| 0 <= i < r1.len() && r1[i].tid == t;
                            if i < r0.len() {
                                assert(r1[i] == r0[i]);
                                assert(has_entry(r0, t));
                            }
                        }
                        assert forall|t: TaskId| #[trigger] self.core.tasks.holds(t) implies has_entry(r1, t) || None::<TaskId> == Some(t) by {
                            if has_entry(r0, t) {
                                let i = choose|i: int| 0 <= i < r0.len() && r0[i].tid == t;
                                assert(r1[i] == r0[i]);
                            } else {
                                assert(r1[r0.len() as int].tid == t);
                            }
                        }
                        assert(self.core.scheduler@.marked =~= c0.scheduler@.marked);
                    }
                },
                None => {
                    assert(self.core.scheduler@.ready == c0.scheduler@.ready);
                    assert(self.core.scheduler@.marked == c0.scheduler@.marked);
                },
            }
        }
    }

    /// Instructions run so far, over all tasks.
    pub fn total_iterations(&self) -> (r: u64)
        ensures
            r == self.core.scheduler@.total,
    {
        self.core.scheduler.total_iterations()
    }

    /// Whether no task is left.
    pub fn is_idle(&self) -> (r: bool)
        ensures
            r == (self.core.tasks.tasks().len() == 0),
    {
        self.core.tasks.is_empty()
    }
}

/// A page that a mapping places somewhere is one of the mapping's pages.
pub proof fn lemma_mapped_within(m: Seq<(PageId, PageVAddressStart)>, v: int, n: nat)
    requires
        forall|i: int| 0 <= i < m.len() ==> (#[trigger] m[i]).0.0 < n,
    ensures
        crate::task::mapped_at(m, v) matches Some(p) ==> p < n,
    decreases m.len(),
{
    if m.len() > 0 {
        assert(m.last() == m[m.len() - 1]);
        lemma_mapped_within(m.drop_last(), v, n);
    }
}

/// A successful spawn gives the child its parent's first mapping (the very
/// same page, at the same virtual page number) and, as second mapping, a
/// different page whose bytes are all zero.
pub proof fn lemma_spawn_shares_first_page(
    c0: SystemCore,
    c1: SystemCore,
    t0: Task,
    t1: Task,
    s0: TaskPoolSharedMemory,
    s1: TaskPoolSharedMemory,
)
    requires
        spawn_outcome(c0, c1, t0, t1, s0, s1, InterfaceCallResult::Continue),
    ensures
        ({
            let child = c1.tasks.tasks().last();
            &&& child.memory_mapping.mapping@.len() == 2
            &&& child.memory_mapping.mapping@[0] == t0.memory_mapping.mapping@[0]
            &&& child.memory_mapping.mapping@[1].0 != t0.memory_mapping.mapping@[0].0
            &&& s1.contents()[child.memory_mapping.mapping@[1].0.0 as int] == zero_page()
        }),
{
}

/// Handing out the next entry keeps one entry per live task, with the task
/// handed out as the one in flight; when nothing is handed out, no task is left.
proof fn lemma_handout_keeps_entries(c0: SystemCore, c1: SystemCore, now: u64)
    requires
        c0.wf(),
        entries_match(c0, None),
        c1.tasks == c0.tasks,
        c1.next_task_id == c0.next_task_id,
        c1.scheduler@ == crate::scheduler::schedule_state(c0.scheduler@, now),
    ensures
        match crate::scheduler::schedule_result(c0.scheduler@, now) {
            None => entries_match(c1, None) && c1.tasks.tasks().len() == 0,
            Some((e, _q, _w)) => entries_match(c1, Some(e.tid)) && c1.tasks.holds(e.tid),
        },
{
    let v = c0.scheduler@;
    assert(v.marked =~= Seq::<TaskId>::empty());
    lemma_sweep_unmarked(v.ready);
    let l = live(v);
    assert(l == v.ready);
    if l.len() == 0 {
        if c0.tasks.tasks().len() > 0 {
            assert(c0.tasks.holds(c0.tasks.tasks()[0].tid));
            assert(has_entry(l, c0.tasks.tasks()[0].tid));
        }
    } else {
        lemma_earliest_in_range(l);
        let k = earliest_index(l);
        let f = l[k].tid;
        let r1 = c1.scheduler@.ready;
        assert(r1 == l.remove(k));
        assert(has_entry(l, f));
        assert forall|a: int, b: int| 0 <= a < b < r1.len() implies #[trigger] r1[a].tid != #[trigger] r1[b].tid by {
            let aa = if a < k { a } else { a + 1 };
            let bb = if b < k { b } else { b + 1 };
            assert(r1[a] == l[aa]);
            assert(r1[b] == l[bb]);
            assert(l[aa].tid != l[bb].tid);
        }
        assert forall|t: TaskId| #[trigger] has_entry(r1, t) implies c1.tasks.holds(t) by {
            let i = choose|i: int| 0 <= i < r1.len() && r1[i].tid == t;
            let ii = if i < k { i } else { i + 1 };
            assert(r1[i] == l[ii]);
            assert(has_entry(l, t));
        }
        assert forall|t: TaskId| #[trigger] c1.tasks.holds(t) implies has_entry(r1, t) || Some(f) == Some(t) by {
            assert(has_entry(l, t));
            let i = choose|i: int| 0 <= i < l.len() && l[i].tid == t;
            if i < k {
                assert(r1[i] == l[i]);
            } else if i > k {
                assert(r1[i - 1] == l[i]);
            }
        }
        assert(!has_entry(r1, f)) by {
            if has_entry(r1, f) {
                let i = choose|i: int| 0 <= i < r1.len() && r1[i].tid == f;
                let ii = if i < k { i } else { i + 1 };
                assert(r1[i] == l[ii]);
                if ii < k {
                    assert(l[ii].tid != l[k].tid);
                } else {
                    assert(l[k].tid != l[ii].tid);
                }
            }
        }
        assert(c0.tasks.holds(f));
        let j = choose|j: int| 0 <= j < c0.tasks.tasks().len() && c0.tasks.tasks()[j].tid == f;
        assert(c0.tasks.tasks()[j].tid.raw() <= c0.next_id());
    }
}

/// Adding a task with a fresh id together with its entry keeps one entry per
/// live task, whatever task is in flight.
proof fn lemma_add_keeps_entries(c0: SystemCore, c_pre: SystemCore, c1: SystemCore, tid: TaskId)
    requires
        c0.wf(),
        c_pre.tasks == c0.tasks,
        c_pre.scheduler@ == c0.scheduler@,
        tid.raw() == c0.next_id() + 1,
        c1.next_id() == tid.raw(),
        !c0.tasks.holds(tid),
        c1.scheduler@ == (SchedView { ready: c0.scheduler@.ready.push(SchedulerTask { tid, last_ran: 0, sleep_for: None }), ..c0.scheduler@ }),
        exists|t: Task| t.tid == tid && c1.tasks.tasks() == c0.tasks.tasks().push(t),
    ensures
        forall|f: Option<TaskId>| #[trigger] entries_match(c0, f) ==> entries_match(c1, f),
{
    let t = choose|t: Task| t.tid == tid && c1.tasks.tasks() == c0.tasks.tasks().push(t);
    let before = c0.tasks.tasks();
    let r0 = c0.scheduler@.ready;
    let r1 = c1.scheduler@.ready;
    assert forall|f: Option<TaskId>| #[trigger] entries_match(c0, f) implies entries_match(c1, f) by {
        assert(!has_entry(r0, tid));
        assert forall|a: int, b: int| 0 <= a < b < r1.len() implies #[trigger] r1[a].tid != #[trigger] r1[b].tid by {
            if b == r0.len() {
                assert(r1[a] == r0[a]);
            } else {
                assert(r0[a].tid != r0[b].tid);
            }
        }
        assert forall|u: TaskId| #[trigger] has_entry(r1, u) implies c1.tasks.holds(u) by {
            let i = choose|i: int| 0 <= i < r1.len() && r1[i].tid == u;
            if i < r0.len() {
                assert(r1[i] == r0[i]);
                assert(has_entry(r0, u));
                let k = choose|k: int| 0 <= k < before.len() && before[k].tid == u;
                assert(c1.tasks.tasks()[k] == before[k]);
            } else {
                assert(c1.tasks.tasks()[before.len() as int].tid == u);
            }
        }
        assert forall|u: TaskId| #[trigger] c1.tasks.holds(u) implies has_entry(r1, u) || f == Some(u) by {
            let k = choose|k: int| 0 <= k < c1.tasks.tasks().len() && c1.tasks.tasks()[k].tid == u;
            if k < before.len() {
                assert(before[k].tid == u);
                assert(c0.tasks.holds(u));
                if has_entry(r0, u) {
                    let i = choose|i: int| 0 <= i < r0.len() && r0[i].tid == u;
                    assert(r1[i] == r0[i]);
                }
            } else {
                assert(r1[r0.len() as int].tid == u);
            }
        }
        if f is Some {
            let g = f->Some_0;
            assert(!has_entry(r1, g)) by {
                if has_entry(r1, g) {
                    let i = choose|i: int| 0 <= i < r1.len() && r1[i].tid == g;
                    if i < r0.len() {
                        assert(r1[i] == r0[i]);
                    } else {
                        TaskId::lemma_raw_eq(tid, g);
                    }
                }
            }
        }
    }
}

/// Taking the task in flight out of the pool, or putting it back, keeps one
/// entry per live task: the pool changes in that task alone.
proof fn lemma_pool_change_keeps_entries(c0: SystemCore, c1: SystemCore, f: TaskId)
    requires
        entries_match(c0, Some(f)),
        c1.scheduler@ == c0.scheduler@,
        c1.next_id() == c0.next_id(),
        forall|u: TaskId| u != f ==> (c1.tasks.holds(u) <==> c0.tasks.holds(u)),
    ensures
        entries_match(c1, Some(f)),
{
    let r = c0.scheduler@.ready;
    assert forall|t: TaskId| #[trigger] has_entry(r, t) implies c1.tasks.holds(t) by {
        assert(c0.tasks.holds(t));
        if t == f {
            assert(!has_entry(r, f));
        }
    }
    assert forall|t: TaskId| #[trigger] c1.tasks.holds(t) implies has_entry(r, t) || Some(f) == Some(t) by {
        if t != f {
            assert(c0.tasks.holds(t));
        }
    }
}

} // verus!
