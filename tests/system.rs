use vm_core::ids::TaskId;
use vm_core::system::{LoadError, LogEvent, System};
use vm_core::task::TaskError;

fn image(words: &[u32]) -> Vec<u8> {
    words.iter().flat_map(|w| w.to_le_bytes()).collect()
}

fn syscall(id: u32) -> u32 {
    (id << 6) | 0x0c
}

fn addiu(rt: u32, rs: u32, imm: u16) -> u32 {
    (0x09 << 26) | (rs << 21) | (rt << 16) | imm as u32
}

fn load(words: &[u32]) -> (System, TaskId) {
    let mut sys = System::new();
    let tid = sys.add_task_with_pages(&vec![0, 0x7fff], &image(words)).unwrap();
    (sys, tid)
}

/// Runs slices until no task is left, with a clock that advances by 1000 ns per slice.
fn run_all(sys: &mut System, mut now: u64) -> u64 {
    while let Some((entry, quantum, wait)) = sys.schedule_next_task(now) {
        now += wait as u64;
        let report = sys.run_task(entry, quantum);
        let end = now + 1000;
        sys.scheduled_task_report(report, now, end);
        now = end;
    }
    now
}

#[test]
fn print_then_exit_counts_instructions() {
    let (mut sys, tid) = load(&[addiu(4, 0, 42), syscall(1), syscall(0)]);
    let before = sys.total_iterations();
    run_all(&mut sys, 1);
    assert_eq!(sys.total_iterations() - before, 2);
    let log = sys.core.take_log();
    assert_eq!(log.len(), 2);
    assert!(matches!(log[0], LogEvent::Int(t, 42) if t == tid));
    assert!(matches!(log[1], LogEvent::Exited(t, 0) if t == tid));
    assert!(sys.is_idle());
}

#[test]
fn sleep_delays_next_slice() {
    // lui a0, 0x98; ori a0, a0, 0x9680 (10_000_000); a1 = 0; sleep; exit
    let lui = (0x0f << 26) | (4 << 16) | 0x98;
    let ori = (0x0d << 26) | (4 << 21) | (4 << 16) | 0x9680;
    let (mut sys, _tid) = load(&[lui, ori, syscall(101), syscall(0)]);
    let (entry, quantum, wait) = sys.schedule_next_task(5_000).unwrap();
    assert_eq!(wait, 0);
    let report = sys.run_task(entry, quantum);
    assert_eq!(report.ran, 2);
    assert_eq!(report.entry.unwrap().sleep_for, Some(10_000_000));
    sys.scheduled_task_report(report, 5_000, 6_000);
    let (entry, _quantum, wait) = sys.schedule_next_task(7_000).unwrap();
    assert_eq!(entry.sleep_for, None);
    assert_eq!(7_000 + wait, 6_000 + 10_000_000);
}

#[test]
fn spawned_task_shares_first_page() {
    let sb = (0x28 << 26) | (8 << 16) | 0x200;
    let lbu = (0x24 << 26) | (4 << 16) | 0x200;
    let mut words = vec![addiu(4, 0, 0x100), addiu(5, 0, 7), syscall(100), addiu(8, 0, 0x55), sb, syscall(0)];
    while words.len() < 0x40 {
        words.push(0);
    }
    words.extend_from_slice(&[lbu, syscall(1), syscall(0)]);
    let (mut sys, parent) = load(&words);
    let parent_page = sys.core.tasks.get_task(parent).unwrap().memory_mapping.mapping[0].0;
    let (entry, quantum, _) = sys.schedule_next_task(1).unwrap();
    let mut task = entry;
    task.sleep_for = None;
    let report = sys.run_task(task, quantum);
    assert!(report.entry.is_none());
    sys.scheduled_task_report(report, 1, 2);
    let child = TaskId::from_raw(2);
    let c = sys.core.tasks.get_task(child).unwrap();
    assert_eq!(c.memory_mapping.mapping[0].0, parent_page);
    assert_eq!(c.memory_mapping.mapping[1].1, 0x7fff);
    let stack = c.memory_mapping.mapping[1].0;
    assert_ne!(stack, parent_page);
    assert_eq!(c.vm_state.pc, 0x100);
    assert_eq!(c.vm_state.reg[4], 7);
    assert_eq!(c.vm_state.reg[29], 0x8000_0000);
    assert_eq!(c.vm_state.reg[31], 0xffff_ffff);
    for off in (0..0x10000usize).step_by(0x1000) {
        assert_eq!(sys.sys_mem.read_u8(stack.raw(), off as u16), 0);
    }
    run_all(&mut sys, 10);
    let log = sys.core.take_log();
    assert!(log.iter().any(|e| matches!(e, LogEvent::Spawned(t) if *t == child)));
    assert!(log.iter().any(|e| matches!(e, LogEvent::Int(t, 0x55) if *t == child)));
}

#[test]
fn spawn_returns_child_id() {
    let or_a0_v0 = (2 << 21) | (4 << 11) | 0x25;
    let (mut sys, parent) = load(&[addiu(4, 0, 0x100), syscall(100), or_a0_v0, syscall(1), syscall(0)]);
    run_all(&mut sys, 1);
    let log = sys.core.take_log();
    assert!(log.iter().any(|e| matches!(e, LogEvent::Int(t, 2) if *t == parent)));
}

#[test]
fn print_char_buffers_lines() {
    let words = [addiu(4, 0, b'h' as u16), syscall(5), addiu(4, 0, b'i' as u16), syscall(5), addiu(4, 0, 10), syscall(5), syscall(0)];
    let (mut sys, tid) = load(&words);
    run_all(&mut sys, 1);
    let log = sys.core.take_log();
    assert!(matches!(&log[0], LogEvent::Line(t, l) if *t == tid && l == b"hi"));
}

#[test]
fn print_cstr_reads_until_zero() {
    let mut words = vec![addiu(4, 0, 0x100), syscall(4), syscall(0)];
    while words.len() < 0x40 {
        words.push(0);
    }
    words.push(u32::from_le_bytes(*b"ok!\0"));
    let (mut sys, tid) = load(&words);
    run_all(&mut sys, 1);
    let log = sys.core.take_log();
    assert!(matches!(&log[0], LogEvent::Text(t, s) if *t == tid && s == "ok!"));
}

#[test]
fn print_cstr_malformed_utf8_is_invalid_operation() {
    let mut words = vec![addiu(4, 0, 0x100), syscall(4), syscall(0)];
    while words.len() < 0x40 {
        words.push(0);
    }
    words.push(0x0000_80ff);
    let (mut sys, tid) = load(&words);
    run_all(&mut sys, 1);
    let log = sys.core.take_log();
    assert!(matches!(&log[0], LogEvent::Faulted(t, TaskError::InvalidOperation(8, _), _) if *t == tid));
}

#[test]
fn print_cstr_unmapped_faults() {
    let lui = (0x0f << 26) | (4 << 16) | 0x0005;
    let (mut sys, tid) = load(&[lui, syscall(4), syscall(0)]);
    run_all(&mut sys, 1);
    let log = sys.core.take_log();
    assert!(matches!(&log[0], LogEvent::Faulted(t, TaskError::MemoryDoesNotExistError(0x0005_0000, 8), _) if *t == tid));
}

#[test]
fn invalid_call_faults() {
    let (mut sys, tid) = load(&[syscall(7)]);
    run_all(&mut sys, 1);
    let log = sys.core.take_log();
    assert!(matches!(&log[0], LogEvent::Faulted(t, TaskError::InvalidOperation(4, 7), _) if *t == tid));
}

#[test]
fn time_now_fills_two_registers() {
    // time; print v1 (high half); exit
    let or_a0_v1 = (3 << 21) | (4 << 11) | 0x25;
    let (mut sys, tid) = load(&[syscall(60), or_a0_v1, syscall(1), syscall(0)]);
    run_all(&mut sys, 1);
    let log = sys.core.take_log();
    assert!(matches!(&log[0], LogEvent::Int(t, v) if *t == tid && *v > 0));
}

#[test]
fn yield_waits_and_reruns() {
    let (mut sys, _tid) = load(&[syscall(102), syscall(0)]);
    let (entry, quantum, _) = sys.schedule_next_task(1).unwrap();
    let report = sys.run_task(entry, quantum);
    assert_eq!(report.ran, 0);
    let e = report.entry.unwrap();
    sys.scheduled_task_report(report, 1, 2);
    assert_eq!(e.sleep_for, None);
    let t = sys.core.tasks.get_task(e.tid).unwrap();
    assert_eq!(t.vm_state.pc, 0);
}

#[test]
fn image_larger_than_a_page_is_refused() {
    let mut sys = System::new();
    let r = sys.add_task_with_pages(&vec![0], &vec![0u8; 0x10001]);
    assert_eq!(r, Err(LoadError::ImageTooLarge));
}

#[test]
fn image_needs_a_page() {
    let mut sys = System::new();
    let r = sys.add_task_with_pages(&vec![], &vec![1u8]);
    assert_eq!(r, Err(LoadError::NoPages));
}

#[test]
fn quantum_is_exhausted_without_blocking() {
    // j 0: loops forever
    let (mut sys, _tid) = load(&[0x0800_0000]);
    let (entry, quantum, _) = sys.schedule_next_task(1).unwrap();
    assert_eq!(quantum, 500);
    let report = sys.run_task(entry, quantum);
    assert_eq!(report.ran, 500);
    assert!(report.entry.is_some());
}

#[test]
fn debugger_breakpoint_continues() {
    let brk = (534 << 6) | 0x0d;
    let (mut sys, tid) = load(&[brk, syscall(0)]);
    run_all(&mut sys, 1);
    let log = sys.core.take_log();
    assert!(matches!(&log[0], LogEvent::Exited(t, 0) if *t == tid));
}

#[test]
fn unknown_breakpoint_faults() {
    let brk = (9 << 6) | 0x0d;
    let (mut sys, tid) = load(&[brk]);
    run_all(&mut sys, 1);
    let log = sys.core.take_log();
    assert!(matches!(&log[0], LogEvent::Faulted(t, TaskError::InvalidOperation(4, 9), _) if *t == tid));
}

#[test]
fn exited_task_pages_are_reused() {
    let (mut sys, _tid) = load(&[syscall(0)]);
    run_all(&mut sys, 1);
    assert_eq!(sys.sys_mem.page_count(), 2);
    let second = sys.add_task_with_pages(&vec![0, 0x7fff], &image(&[syscall(0)])).unwrap();
    assert_eq!(sys.sys_mem.page_count(), 2);
    assert_eq!(second.into_raw(), 2);
}

#[test]
fn empty_image_needs_no_page() {
    let mut sys = System::new();
    let tid = sys.add_task_with_pages(&vec![], &vec![]).unwrap();
    assert_eq!(tid.into_raw(), 1);
    assert!(sys.core.tasks.get_task(tid).unwrap().memory_mapping.mapping.is_empty());
}

#[test]
fn loaded_pages_are_distinct_and_zero_after_image() {
    let mut sys = System::new();
    let tid = sys.add_task_with_pages(&vec![0, 1, 0x7fff], &vec![7, 8]).unwrap();
    let m = &sys.core.tasks.get_task(tid).unwrap().memory_mapping.mapping;
    assert_ne!(m[0].0, m[1].0);
    assert_ne!(m[1].0, m[2].0);
    assert_eq!(sys.sys_mem.read_u8(m[0].0.raw(), 0), 7);
    assert_eq!(sys.sys_mem.read_u8(m[0].0.raw(), 1), 8);
    assert_eq!(sys.sys_mem.read_u8(m[0].0.raw(), 2), 0);
    assert_eq!(sys.sys_mem.read_u8(m[1].0.raw(), 0), 0);
}

#[test]
fn slice_result_is_the_interpreters() {
    let (mut sys, tid) = load(&[syscall(102)]);
    let (entry, quantum, _) = sys.schedule_next_task(1).unwrap();
    let report = sys.run_task(entry, quantum);
    assert_eq!(report.result, Some(Ok(vm_core::task::TaskRunResult::Wait(0))));
    assert!(report.entry.is_some());
    sys.scheduled_task_report(report, 1, 2);
    let (mut sys2, tid2) = load(&[0xfc00_0000]);
    let (entry, quantum, _) = sys2.schedule_next_task(1).unwrap();
    let report = sys2.run_task(entry, quantum);
    assert_eq!(report.result, Some(Err((TaskError::InvalidOperation(4, 0xfc00_0000), 0))));
    assert!(report.entry.is_none());
    assert!(sys2.core.tasks.get_task(tid2).is_none());
    assert!(sys.core.tasks.get_task(tid).is_some());
}
