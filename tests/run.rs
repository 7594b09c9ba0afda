use vm_core::ids::{ProcessId, TaskId};
use vm_core::memory::TaskPoolSharedMemory;
use vm_core::scheduler::SchedulerTask;
use vm_core::system::SystemCore;
use vm_core::task::{Task, TaskError, TaskMemory, TaskRunResult};

fn setup(code: &[u32]) -> (Task, TaskPoolSharedMemory, TaskMemory) {
    let mut store = TaskPoolSharedMemory::new();
    let page = store.new_page();
    for (i, w) in code.iter().enumerate() {
        store.write_u32(page.raw(), (i * 4) as u16, *w);
    }
    let mut task = Task::new(ProcessId::from_raw(1));
    task.memory_mapping.mapping.push((page, 0));
    let mut view = TaskMemory::new();
    view.map_pages(&task.memory_mapping);
    (task, store, view)
}

#[test]
fn run_uses_whole_quantum() {
    let (mut t, mut s, mut v) = setup(&[0, 0, 0, 0]);
    let mut core = SystemCore::new();
    let mut entry = SchedulerTask::new(TaskId::from_raw(1));
    let r = t.run(&mut core, &mut entry, &mut s, &mut v, 3);
    assert_eq!(r, Ok(TaskRunResult::Continue));
    assert_eq!(t.vm_state.pc, 12);
}

#[test]
fn run_reports_instructions_before_fault() {
    let (mut t, mut s, mut v) = setup(&[0, 0, 0xfc00_0000]);
    let mut core = SystemCore::new();
    let mut entry = SchedulerTask::new(TaskId::from_raw(1));
    let r = t.run(&mut core, &mut entry, &mut s, &mut v, 10);
    assert_eq!(r, Err((TaskError::InvalidOperation(12, 0xfc00_0000), 2)));
}

#[test]
fn run_rewinds_on_wait() {
    let (mut t, mut s, mut v) = setup(&[0, (102 << 6) | 0x0c]);
    let mut core = SystemCore::new();
    let mut entry = SchedulerTask::new(TaskId::from_raw(1));
    let r = t.run(&mut core, &mut entry, &mut s, &mut v, 10);
    assert_eq!(r, Ok(TaskRunResult::Wait(1)));
    assert_eq!(t.vm_state.pc, 4);
}

#[test]
fn run_reports_exit() {
    let (mut t, mut s, mut v) = setup(&[0, 0, 0x0c]);
    let mut core = SystemCore::new();
    let mut entry = SchedulerTask::new(TaskId::from_raw(1));
    let r = t.run(&mut core, &mut entry, &mut s, &mut v, 10);
    assert_eq!(r, Ok(TaskRunResult::Exit(2, 0)));
}

#[test]
fn sleep_call_sets_entry_sleep() {
    // a0 = 5, a1 = 1: 2^32 + 5 ns
    let (mut t, mut s, mut v) = setup(&[(0x09 << 26) | (4 << 16) | 5, (0x09 << 26) | (5 << 16) | 1, (101 << 6) | 0x0c]);
    let mut core = SystemCore::new();
    let mut entry = SchedulerTask::new(TaskId::from_raw(1));
    let r = t.run(&mut core, &mut entry, &mut s, &mut v, 10);
    assert_eq!(r, Ok(TaskRunResult::Wait(2)));
    assert_eq!(entry.sleep_for, Some((1u64 << 32) + 5));
}
