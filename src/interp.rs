use vstd::prelude::*;

use crate::isa::{
    exec_immediate, exec_immediate_spec, exec_memory, exec_memory_spec, exec_special, exec_special_spec,
    is_memory_opcode, mem_state, opcode, wadd, wsub, MemState, Step,
};
use crate::memory::{load_word, TaskPoolSharedMemory};
use crate::ids::TaskId;
use crate::scheduler::SchedulerTask;
use crate::memory::PageId;
use crate::system::{break_answer, entries_match, owners_match, same_but_regs, syscall_answer, InterfaceCallResult, SystemCore};
use crate::task::PageVAddressStart;
use crate::task::{Regs, Task, TaskError, TaskMemory, TaskRunResult, VmState};

verus! {

/// Effect of one instruction `op` whose program counter already points past it.
pub open spec fn step_spec(s: Regs, m: MemState, slots: Seq<Option<usize>>, op: u32) -> (Regs, MemState, Step) {
    if opcode(op) == 0 {
        let (r, st) = exec_special_spec(s, op);
        (r, m, st)
    } else if is_memory_opcode(opcode(op)) {
        exec_memory_spec(s, m, slots, op)
    } else {
        let (r, st) = exec_immediate_spec(s, op);
        (r, m, st)
    }
}

/// The instruction at `pc`, or the fault of fetching it.
pub open spec fn fetch_spec(m: MemState, slots: Seq<Option<usize>>, pc: u32) -> Result<u32, TaskError> {
    if pc % 4 != 0 {
        Err(TaskError::MemoryAllignmentError(4, pc))
    } else {
        match load_word(m.pages, slots, pc) {
            Some(op) => Ok(op),
            None => Err(TaskError::MemoryDoesNotExistError(pc, pc)),
        }
    }
}

/// Fetch, advance the program counter by one instruction, execute.
pub open spec fn cycle_spec(s: Regs, m: MemState, slots: Seq<Option<usize>>) -> (Regs, MemState, Step) {
    match fetch_spec(m, slots, s.pc) {
        Err(e) => (s, m, Step::Fault(e)),
        Ok(op) => step_spec(s.jump(wadd(s.pc, 4)), m, slots, op),
    }
}

/// Executes instruction `op` on `vm`, whose program counter already points past it.
pub fn execute(vm: &mut VmState, store: &mut TaskPoolSharedMemory, mem: &mut TaskMemory, op: u32) -> (r: Step)
    requires
        old(store).wf(),
        old(mem).fits(old(store).contents().len()),
    ensures
        final(store).wf(),
        final(store).owners() == old(store).owners(),
        final(mem).slots() == old(mem).slots(),
        (final(vm)@, mem_state(*final(store), *final(mem)), r) == step_spec(old(vm)@, mem_state(*old(store), *old(mem)), old(mem).slots(), op),
{
    let c = op >> 26u32;
    if c == 0 {
        exec_special(vm, op)
    } else if c == 0x20 || c == 0x21 || c == 0x22 || c == 0x23 || c == 0x24 || c == 0x25 || c == 0x26 || c == 0x28
        || c == 0x29 || c == 0x2a || c == 0x2b || c == 0x2e || c == 0x30 || c == 0x38 {
        exec_memory(vm, store, mem, op)
    } else {
        exec_immediate(vm, op)
    }
}

/// Reads the instruction at `pc`.
pub fn fetch(store: &TaskPoolSharedMemory, mem: &TaskMemory, pc: u32) -> (r: Result<u32, TaskError>)
    requires
        store.wf(),
        mem.fits(store.contents().len()),
    ensures
        r == fetch_spec(mem_state(*store, *mem), mem.slots(), pc),
{
    if pc & 3u32 != 0 {
        assert((pc & 3u32 != 0) == (pc % 4 != 0)) by (bit_vector);
        Err(TaskError::MemoryAllignmentError(4, pc))
    } else {
        assert((pc & 3u32 == 0) == (pc % 4 == 0)) by (bit_vector);
        match mem.read_u32(store, pc) {
            Some(op) => Ok(op),
            None => Err(TaskError::MemoryDoesNotExistError(pc, pc)),
        }
    }
}

/// How a run of instructions ends, with how many completed before the end.
pub ghost enum SliceEnd {
    /// All of them completed.
    Quantum,
    /// An instruction faulted.
    Fault(TaskError, int),
    /// An instruction, the word given, raised the system call or breakpoint given.
    Call(int, Step, u32),
}

/// Up to `n` fetch-execute cycles from state `s`, stopping at the first fault
/// or call; returns the state reached and how the run ended.
pub open spec fn slice_spec(s: Regs, m: MemState, slots: Seq<Option<usize>>, n: nat) -> (Regs, MemState, SliceEnd)
    decreases n,
{
    if n == 0 {
        (s, m, SliceEnd::Quantum)
    } else {
        let (s1, m1, st) = cycle_spec(s, m, slots);
        match st {
            Step::Next => shift(slice_spec(s1, m1, slots, (n - 1) as nat), 1),
            Step::Fault(e) => (s1, m1, SliceEnd::Fault(e, 0)),
            Step::Call(_) => (s1, m1, SliceEnd::Call(0, st, fetch_spec(m, slots, s.pc)->Ok_0)),
            Step::Break(_) => (s1, m1, SliceEnd::Call(0, st, fetch_spec(m, slots, s.pc)->Ok_0)),
        }
    }
}

/// The same end, `k` instructions later.
pub open spec fn shift(x: (Regs, MemState, SliceEnd), k: int) -> (Regs, MemState, SliceEnd) {
    match x.2 {
        SliceEnd::Quantum => x,
        SliceEnd::Fault(e, c) => (x.0, x.1, SliceEnd::Fault(e, c + k)),
        SliceEnd::Call(c, st, op) => (x.0, x.1, SliceEnd::Call(c + k, st, op)),
    }
}

/// After a cycle that goes on, the rest of the run is the run from the next state, one instruction later.
pub proof fn lemma_slice_next(s: Regs, m: MemState, slots: Seq<Option<usize>>, n: nat, k: int)
    requires
        n > 0,
        cycle_spec(s, m, slots).2 == Step::Next,
    ensures
        shift(slice_spec(s, m, slots, n), k) == shift(
            slice_spec(cycle_spec(s, m, slots).0, cycle_spec(s, m, slots).1, slots, (n - 1) as nat),
            k + 1,
        ),
{
    let c = cycle_spec(s, m, slots);
    let x = slice_spec(c.0, c.1, slots, (n - 1) as nat);
    assert(slice_spec(s, m, slots, n) == shift(x, 1));
}

/// The answer that call or breakpoint `st` gets; see `syscall_answer`.
pub open spec fn call_answer(
    st: Step,
    s: Regs,
    m: MemState,
    slots: Seq<Option<usize>>,
    next_id: u32,
    mapping: Seq<(PageId, PageVAddressStart)>,
    owners: Seq<u64>,
) -> InterfaceCallResult {
    match st {
        Step::Call(id) => syscall_answer(id, s, m.pages, slots, next_id, mapping, owners),
        Step::Break(id) => break_answer(id),
        _ => InterfaceCallResult::Continue,
    }
}

/// What the interpreter makes of answer `a` to the call in instruction word
/// `op`, the `k`-th of the slice, with `pc` past it: the slice's result, or
/// `None` when the slice goes on.
pub open spec fn answer_result(a: InterfaceCallResult, pc: u32, op: u32, k: int) -> Option<Result<TaskRunResult, (TaskError, u32)>> {
    match a {
        InterfaceCallResult::Continue => None,
        InterfaceCallResult::ImmediateKill(Some(e)) => Some(Err((e, k as u32))),
        InterfaceCallResult::ImmediateKill(None) => Some(Err((TaskError::InvalidOperation(pc, op), k as u32))),
        InterfaceCallResult::Exit => Some(Ok(TaskRunResult::Exit(k as u32, 0))),
        InterfaceCallResult::InvalidCall(id) => Some(Err((TaskError::InvalidOperation(pc, id), k as u32))),
        InterfaceCallResult::MalformedCallArgs => Some(Err((TaskError::InvalidOperation(pc, op), k as u32))),
        InterfaceCallResult::Wait => Some(Ok(TaskRunResult::Wait(k as u32))),
    }
}

/// How a slice of up to `n` instructions from registers `s0` and memory `m0`
/// ends with result `r`, leaving registers `s1` and memory `m1`. Without a
/// call it is exactly `slice_spec`. At the first call the answer, fixed by
/// `call_answer`, ends the slice as `answer_result` says (a wait moves the
/// program counter back onto the call), or lets it go on, in which case it
/// ends later.
pub open spec fn run_outcome(
    s0: Regs,
    m0: MemState,
    slots: Seq<Option<usize>>,
    next_id: u32,
    mapping: Seq<(PageId, PageVAddressStart)>,
    owners: Seq<u64>,
    n: u32,
    r: Result<TaskRunResult, (TaskError, u32)>,
    s1: Regs,
    m1: MemState,
) -> bool {
    let (sf, mf, end) = slice_spec(s0, m0, slots, n as nat);
    match end {
        SliceEnd::Quantum => r == Ok::<TaskRunResult, (TaskError, u32)>(TaskRunResult::Continue) && s1 == sf && m1 == mf,
        SliceEnd::Fault(e, k) => r == Err::<TaskRunResult, (TaskError, u32)>((e, k as u32)) && s1 == sf && m1 == mf,
        SliceEnd::Call(k, st, op) => {
            let a = call_answer(st, sf, mf, slots, next_id, mapping, owners);
            match answer_result(a, sf.pc, op, k) {
                Some(x) => r == x && (a == InterfaceCallResult::Wait ==> s1.pc == wsub(sf.pc, 4)),
                None => r == Ok::<TaskRunResult, (TaskError, u32)>(TaskRunResult::Continue) || (ran_of(r) matches Some(c)
                    && c > k),
            }
        },
    }
}

/// Number of instructions a slice reports as completed.
pub open spec fn ran_of(r: Result<TaskRunResult, (TaskError, u32)>) -> Option<u32> {
    match r {
        Ok(TaskRunResult::Continue) => None,
        Ok(TaskRunResult::Wait(n)) => Some(n),
        Ok(TaskRunResult::Exit(n, _)) => Some(n),
        Err((_, n)) => Some(n),
    }
}

impl Task {
    /// Executes the instruction at the program counter. Calls, breakpoints
    /// and faults are returned, not acted on.
    pub fn step(&mut self, store: &mut TaskPoolSharedMemory, mem: &mut TaskMemory) -> (r: Step)
        requires
            old(store).wf(),
            old(mem).fits(old(store).contents().len()),
        ensures
            final(store).wf(),
            final(store).owners() == old(store).owners(),
            final(mem).slots() == old(mem).slots(),
            same_but_regs(*old(self), *final(self)),
            (final(self).vm_state@, mem_state(*final(store), *final(mem)), r) == cycle_spec(old(self).vm_state@, mem_state(*old(store), *old(mem)), old(mem).slots()),
    {
        match fetch(store, mem, self.vm_state.pc) {
            Err(e) => Step::Fault(e),
            Ok(op) => {
                self.vm_state.pc = self.vm_state.pc.wrapping_add(4);
                execute(&mut self.vm_state, store, mem, op)
            },
        }
    }

    /// Runs up to `iterations` instructions, handing system calls and
    /// breakpoints to `sys`. Ends early when a call asks to wait (the
    /// program counter is moved back so that the call runs again next time),
    /// when the task exits, or on a fault; each of these reports how many
    /// instructions completed before it.
    #[verifier::rlimit(40)]
    pub fn run(
        &mut self,
        sys: &mut SystemCore,
        scheduler_task: &mut SchedulerTask,
        store: &mut TaskPoolSharedMemory,
        mem: &mut TaskMemory,
        iterations: u32,
    ) -> (r: Result<TaskRunResult, (TaskError, u32)>)
        requires
            old(sys).wf(),
            old(store).wf(),
            old(mem).fits(old(store).contents().len()),
            old(self).memory_mapping.within(old(store).contents().len()),
            old(sys).mappings_within(old(store).contents().len()),
            owners_match(*old(store), old(sys).tasks.tasks(), old(self).memory_mapping.mapping@),
        ensures
            final(sys).wf(),
            owners_match(*final(store), final(sys).tasks.tasks(), final(self).memory_mapping.mapping@),
            entries_match(*old(sys), Some(old(self).tid)) ==> entries_match(*final(sys), Some(old(self).tid)),
            final(sys).mappings_within(final(store).contents().len()),
            final(sys).next_id() >= old(sys).next_id(),
            forall|u: TaskId| #[trigger] final(sys).tasks.holds(u) ==> old(sys).tasks.holds(u) || u.raw() > old(sys).next_id(),
            final(scheduler_task).tid == old(scheduler_task).tid,
            final(scheduler_task).last_ran == old(scheduler_task).last_ran,
            final(store).wf(),
            final(store).contents().len() >= old(store).contents().len(),
            final(mem).slots() == old(mem).slots(),
            final(mem).fits(final(store).contents().len()),
            same_but_regs(*old(self), *final(self)),
            final(self).memory_mapping.within(final(store).contents().len()),
            ran_of(r) matches Some(n) ==> n < iterations,
            r matches Ok(TaskRunResult::Exit(_, code)) ==> code == 0,
            run_outcome(
                old(self).vm_state@,
                mem_state(*old(store), *old(mem)),
                old(mem).slots(),
                old(sys).next_id(),
                old(self).memory_mapping.mapping@,
                old(store).owners(),
                iterations,
                r,
                final(self).vm_state@,
                mem_state(*final(store), *final(mem)),
            ),
            !(slice_spec(old(self).vm_state@, mem_state(*old(store), *old(mem)), old(mem).slots(), iterations as nat).2 is Call)
                ==> *final(sys) == *old(sys) && *final(scheduler_task) == *old(scheduler_task),
    {
        let ghost s0 = self.vm_state@;
        let ghost m0 = mem_state(*store, *mem);
        let ghost slots = mem.slots();
        let ghost mut called = false;
        let ghost mut first_call: int = 0;
        let mut ran: u32 = 0;
        while ran < iterations
            invariant
                sys.wf(),
                sys.mappings_within(store.contents().len()),
                owners_match(*store, sys.tasks.tasks(), self.memory_mapping.mapping@),
                entries_match(*old(sys), Some(old(self).tid)) ==> entries_match(*sys, Some(old(self).tid)),
                sys.next_id() >= old(sys).next_id(),
                forall|u: TaskId| #[trigger] sys.tasks.holds(u) ==> old(sys).tasks.holds(u) || u.raw() > old(sys).next_id(),
                scheduler_task.tid == old(scheduler_task).tid,
                scheduler_task.last_ran == old(scheduler_task).last_ran,
                slots == old(mem).slots(),
                s0 == old(self).vm_state@,
                m0 == mem_state(*old(store), *old(mem)),
                !called ==> slice_spec(s0, m0, slots, iterations as nat) == shift(
                    slice_spec(self.vm_state@, mem_state(*store, *mem), slots, (iterations - ran) as nat),
                    ran as int,
                ),
                !called ==> *sys == *old(sys) && *scheduler_task == *old(scheduler_task) && store.owners() == old(store).owners(),
                called ==> ({
                    let (sf, mf, end) = slice_spec(s0, m0, slots, iterations as nat);
                    match end {
                        SliceEnd::Call(k, st, op) => k == first_call && first_call < ran && answer_result(
                            call_answer(st, sf, mf, slots, old(sys).next_id(), old(self).memory_mapping.mapping@, old(store).owners()),
                            sf.pc,
                            op,
                            k,
                        ) is None,
                        _ => false,
                    }
                }),
                store.wf(),
                store.contents().len() >= old(store).contents().len(),
                mem.slots() == old(mem).slots(),
                mem.fits(store.contents().len()),
                same_but_regs(*old(self), *self),
                self.memory_mapping.within(store.contents().len()),
                ran <= iterations,
            decreases iterations - ran,
        {
            let ghost pre_s = self.vm_state@;
            let ghost pre_m = mem_state(*store, *mem);
            let op = match fetch(store, mem, self.vm_state.pc) {
                Err(e) => {
                    return Err((e, ran));
                },
                Ok(op) => op,
            };
            self.vm_state.pc = self.vm_state.pc.wrapping_add(4);
            let st = execute(&mut self.vm_state, store, mem, op);
            let ghost was_called = called;
            proof {
                assert((self.vm_state@, mem_state(*store, *mem), st) == cycle_spec(pre_s, pre_m, slots));
                if !called && st == Step::Next {
                    lemma_slice_next(pre_s, pre_m, slots, (iterations - ran) as nat, ran as int);
                }
                if !called {
                    match st {
                        Step::Call(_) => {
                            called = true;
                            first_call = ran as int;
                        },
                        Step::Break(_) => {
                            called = true;
                            first_call = ran as int;
                        },
                        _ => {},
                    }
                }
            }
            let ghost post_s = self.vm_state@;
            let ghost post_m = mem_state(*store, *mem);
            proof {
                if !was_called && (st is Call || st is Break) {
                    assert(fetch_spec(pre_m, slots, pre_s.pc) == Ok::<u32, TaskError>(op));
                    assert(slice_spec(pre_s, pre_m, slots, (iterations - ran) as nat) == (post_s, post_m, SliceEnd::Call(0, st, op)));
                    assert(slice_spec(s0, m0, slots, iterations as nat) == (post_s, post_m, SliceEnd::Call(ran as int, st, op)));
                }
            }
            let res = match st {
                Step::Next => InterfaceCallResult::Continue,
                Step::Fault(e) => {
                    return Err((e, ran));
                },
                Step::Call(id) => sys.system_call(id, self, scheduler_task, store, mem),
                Step::Break(id) => sys.breakpoint(id, self, scheduler_task, mem),
            };
            proof {
                if !was_called && (st is Call || st is Break) {
                    assert(res == call_answer(st, post_s, post_m, slots, old(sys).next_id(), old(self).memory_mapping.mapping@, old(store).owners()));
                }
            }
            match res {
                InterfaceCallResult::Continue => {},
                InterfaceCallResult::ImmediateKill(Some(e)) => {
                    return Err((e, ran));
                },
                InterfaceCallResult::ImmediateKill(None) => {
                    return Err((TaskError::InvalidOperation(self.vm_state.pc, op), ran));
                },
                InterfaceCallResult::Exit => {
                    return Ok(TaskRunResult::Exit(ran, 0));
                },
                InterfaceCallResult::InvalidCall(id) => {
                    return Err((TaskError::InvalidOperation(self.vm_state.pc, id), ran));
                },
                InterfaceCallResult::MalformedCallArgs => {
                    return Err((TaskError::InvalidOperation(self.vm_state.pc, op), ran));
                },
                InterfaceCallResult::Wait => {
                    self.vm_state.pc = self.vm_state.pc.wrapping_sub(4);
                    return Ok(TaskRunResult::Wait(ran));
                },
            }
            ran = ran + 1;
        }
        Ok(TaskRunResult::Continue)
    }
}

} // verus!
