use vm_core::ids::TaskId;
use vm_core::scheduler::{RollingAverage, Scheduler, SchedulerTask};

#[test]
fn equally_eligible_tasks_each_run_before_any_twice() {
    let mut s = Scheduler::new();
    for i in 1..=4 {
        s.add_task(TaskId::from_raw(i));
    }
    let mut now = 100u64;
    let mut seen = Vec::new();
    for _ in 0..8 {
        let (e, _q, wait) = s.schedule_next_task(now).unwrap();
        assert_eq!(wait, 0);
        seen.push(e.tid.into_raw());
        s.scheduled_task_report(Some(e), 10, now, now + 5);
        now += 5;
    }
    assert_eq!(seen, vec![1, 2, 3, 4, 1, 2, 3, 4]);
}

#[test]
fn ties_keep_insertion_order() {
    let mut s = Scheduler::new();
    s.add_task(TaskId::from_raw(2));
    s.add_task(TaskId::from_raw(1));
    let (e, _, _) = s.schedule_next_task(1).unwrap();
    assert_eq!(e.tid.into_raw(), 2);
}

#[test]
fn removed_task_is_never_handed_out() {
    let mut s = Scheduler::new();
    s.add_task(TaskId::from_raw(1));
    s.add_task(TaskId::from_raw(2));
    s.remove_task(TaskId::from_raw(1));
    assert!(!s.has_task(TaskId::from_raw(1)));
    let (e, _, _) = s.schedule_next_task(1).unwrap();
    assert_eq!(e.tid.into_raw(), 2);
    s.scheduled_task_report(None, 1, 1, 2);
    assert!(s.schedule_next_task(3).is_none());
}

#[test]
fn report_of_removed_task_drops_it() {
    let mut s = Scheduler::new();
    s.add_task(TaskId::from_raw(1));
    let (e, _, _) = s.schedule_next_task(1).unwrap();
    s.remove_task(TaskId::from_raw(1));
    s.scheduled_task_report(Some(e), 3, 1, 2);
    assert!(s.schedule_next_task(3).is_none());
    assert_eq!(s.total_iterations(), 3);
}

#[test]
fn empty_scheduler_has_nothing() {
    let mut s = Scheduler::new();
    assert!(s.schedule_next_task(0).is_none());
}

#[test]
fn sleeping_task_waits_for_its_time() {
    let mut s = Scheduler::new();
    s.add_task(TaskId::from_raw(1));
    let (mut e, _, _) = s.schedule_next_task(1000).unwrap();
    e.sleep_for = Some(10_000_000);
    s.scheduled_task_report(Some(e), 1, 1000, 2000);
    let (e, _, wait) = s.schedule_next_task(3000).unwrap();
    assert_eq!(wait, 10_000_000 - 1000);
    assert_eq!(e.sleep_for, None);
}

#[test]
fn earlier_task_goes_first() {
    let mut s = Scheduler::new();
    s.add_task(TaskId::from_raw(1));
    s.add_task(TaskId::from_raw(2));
    let (mut e1, _, _) = s.schedule_next_task(10).unwrap();
    e1.sleep_for = Some(100);
    s.scheduled_task_report(Some(e1), 1, 10, 20);
    let (e2, _, _) = s.schedule_next_task(20).unwrap();
    assert_eq!(e2.tid.into_raw(), 2);
}

#[test]
fn quantum_follows_history() {
    let mut s = Scheduler::new();
    s.add_task(TaskId::from_raw(1));
    let (e, q, _) = s.schedule_next_task(0).unwrap();
    assert_eq!(q, 500);
    // 1000 instructions in 400_000 ns: 1000 * 200_000 / 400_000 = 500
    s.scheduled_task_report(Some(e), 1000, 0, 400_000);
    let (e, q, _) = s.schedule_next_task(400_000).unwrap();
    assert_eq!(q, 500);
    // second sample: averages (1000 + (3000-1000)/2, 400000 + (200000-400000)/2) = (2000, 300000)
    s.scheduled_task_report(Some(e), 3000, 400_000, 600_000);
    let (_e, q, _) = s.schedule_next_task(600_000).unwrap();
    assert_eq!(q, 2000 * 200_000 / 300_000);
}

#[test]
fn time_available_adds_sleep() {
    let e = SchedulerTask { tid: TaskId::from_raw(3), last_ran: 50, sleep_for: Some(7) };
    assert_eq!(e.time_available_to_run(), 57);
    let f = SchedulerTask::new(TaskId::from_raw(3));
    assert_eq!(f.time_available_to_run(), 0);
}

#[test]
fn rolling_average_caps_window() {
    let mut a = RollingAverage::new();
    a.roll(10);
    assert_eq!(a.average(), 10);
    a.roll(20);
    assert_eq!(a.average(), 15);
    a.roll(0);
    assert_eq!(a.average(), 10);
    for _ in 0..300 {
        a.roll(1000);
    }
    assert!(a.average() <= 1000);
    let before = a.average();
    a.roll(0);
    assert_eq!(a.average(), before - before / 150);
}

#[test]
fn one_mark_is_cleared_per_discarded_entry() {
    let mut s = Scheduler::new();
    s.add_task(TaskId::from_raw(1));
    s.remove_task(TaskId::from_raw(1));
    s.remove_task(TaskId::from_raw(1));
    assert!(s.schedule_next_task(1).is_none());
    // one mark is left: a new entry of the same task is discarded too
    s.add_task(TaskId::from_raw(1));
    assert!(s.schedule_next_task(2).is_none());
    s.add_task(TaskId::from_raw(1));
    let (e, _, _) = s.schedule_next_task(3).unwrap();
    assert_eq!(e.tid.into_raw(), 1);
}
