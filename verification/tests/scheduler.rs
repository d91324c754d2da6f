use round_robin::init::initialize;
use round_robin::node::ProcessId;
use round_robin::sched::{Outcome, SchedulerCore, DEFAULT_TIMESLICE_US};

fn pid(id: u32) -> ProcessId {
    ProcessId::new(id)
}

fn seeded_scheduler(capacity: usize, ids: &[u32]) -> SchedulerCore {
    let mut table: Vec<Option<ProcessId>> = Vec::new();
    for id in ids {
        table.push(Some(pid(*id)));
    }
    initialize(capacity, &table)
}

fn run_one(s: &mut SchedulerCore) -> ProcessId {
    let chosen = s.next().expect("queue unexpectedly idle");
    s.notify(chosen, Outcome::Exhausted);
    chosen
}

#[test]
fn seeding_skips_empty_slots() {
    let table: Vec<Option<ProcessId>> = vec![Some(pid(1)), None, Some(pid(2)), Some(pid(3))];
    let s = initialize(4, &table);
    assert_eq!(s.len(), 3);
    assert_eq!(s.queued(), vec![pid(1), pid(2), pid(3)]);
    assert_eq!(s.next(), Some(pid(1)));
}

#[test]
fn next_is_idempotent_without_notify() {
    let s = seeded_scheduler(3, &[7, 8]);
    assert_eq!(s.next(), Some(pid(7)));
    assert_eq!(s.next(), Some(pid(7)));
    assert_eq!(s.next(), Some(pid(7)));
}

#[test]
fn round_robin_closure_period_three() {
    let mut s = seeded_scheduler(3, &[1, 2, 3]);
    let mut order: Vec<ProcessId> = Vec::new();
    for _ in 0..6 {
        order.push(run_one(&mut s));
    }
    assert_eq!(order, vec![pid(1), pid(2), pid(3), pid(1), pid(2), pid(3)]);
}

#[test]
fn yield_rotates_like_exhaustion() {
    let mut yielded = seeded_scheduler(3, &[1, 2, 3]);
    let mut exhausted = seeded_scheduler(3, &[1, 2, 3]);
    yielded.notify(pid(1), Outcome::Yielded);
    exhausted.notify(pid(1), Outcome::Exhausted);
    assert_eq!(yielded.queued(), exhausted.queued());
    assert_eq!(yielded.queued(), vec![pid(2), pid(3), pid(1)]);
}

#[test]
fn fault_removes_without_reenqueue() {
    let mut s = seeded_scheduler(2, &[1, 2]);
    assert_eq!(s.next(), Some(pid(1)));
    s.notify(pid(1), Outcome::Faulted);
    assert_eq!(s.next(), Some(pid(2)));
    s.notify(pid(2), Outcome::Exhausted);
    assert_eq!(s.next(), Some(pid(2)));
    assert_eq!(s.len(), 1);
    assert!(!s.queued().contains(&pid(1)));
}

#[test]
fn idle_queue_stays_idle() {
    let table: Vec<Option<ProcessId>> = vec![None, None, None];
    let s = initialize(3, &table);
    assert!(s.is_idle());
    for _ in 0..100 {
        assert_eq!(s.next(), None);
    }
    assert_eq!(s.len(), 0);
}

#[test]
fn empty_store_is_idle() {
    let table: Vec<Option<ProcessId>> = Vec::new();
    let s = initialize(0, &table);
    assert!(s.is_idle());
    assert_eq!(s.next(), None);
}

#[test]
fn removal_mid_queue_preserves_relative_order() {
    let mut s = seeded_scheduler(4, &[1, 2, 3, 4]);
    assert!(s.remove(pid(3)));
    assert_eq!(s.queued(), vec![pid(1), pid(2), pid(4)]);
    let mut order: Vec<ProcessId> = Vec::new();
    for _ in 0..6 {
        order.push(run_one(&mut s));
    }
    assert_eq!(order, vec![pid(1), pid(2), pid(4), pid(1), pid(2), pid(4)]);
}

#[test]
fn remove_absent_is_benign_noop() {
    let mut s = seeded_scheduler(3, &[1, 2]);
    assert!(!s.remove(pid(9)));
    assert_eq!(s.queued(), vec![pid(1), pid(2)]);
}

#[test]
fn remove_head_advances_to_next() {
    let mut s = seeded_scheduler(3, &[1, 2, 3]);
    assert!(s.remove(pid(1)));
    assert_eq!(s.next(), Some(pid(2)));
    assert_eq!(s.queued(), vec![pid(2), pid(3)]);
}

#[test]
fn duplicate_fault_report_is_benign_noop() {
    let mut s = seeded_scheduler(2, &[1, 2]);
    assert!(s.remove(pid(2)));
    s.notify(pid(2), Outcome::Faulted);
    assert_eq!(s.len(), 1);
    assert_eq!(s.next(), Some(pid(1)));
}

#[test]
fn add_process_joins_at_tail() {
    let mut s = seeded_scheduler(3, &[1]);
    s.add_process(pid(2));
    assert_eq!(s.queued(), vec![pid(1), pid(2)]);
    assert_eq!(run_one(&mut s), pid(1));
    assert_eq!(run_one(&mut s), pid(2));
    assert_eq!(s.next(), Some(pid(1)));
}

#[test]
fn add_process_wakes_an_idle_scheduler() {
    let table: Vec<Option<ProcessId>> = vec![None, None];
    let mut s = initialize(2, &table);
    assert_eq!(s.next(), None);
    s.add_process(pid(5));
    assert_eq!(s.next(), Some(pid(5)));
}

#[test]
fn scheduler_reports_default_timeslice() {
    let s = SchedulerCore::new(4);
    assert_eq!(s.timeslice_us(), DEFAULT_TIMESLICE_US);
    assert_eq!(s.timeslice_us(), 10000);
    let seeded = seeded_scheduler(2, &[1]);
    assert_eq!(seeded.timeslice_us(), DEFAULT_TIMESLICE_US);
}

#[test]
fn seeding_fills_store_to_capacity() {
    let mut s = seeded_scheduler(3, &[1, 2, 3]);
    assert_eq!(s.len(), 3);
    let mut order: Vec<ProcessId> = Vec::new();
    for _ in 0..3 {
        order.push(run_one(&mut s));
    }
    assert_eq!(order, vec![pid(1), pid(2), pid(3)]);
}

#[test]
fn fault_of_sole_process_leaves_idle_queue() {
    let mut s = seeded_scheduler(1, &[4]);
    assert_eq!(s.next(), Some(pid(4)));
    s.notify(pid(4), Outcome::Faulted);
    assert!(s.is_idle());
    assert_eq!(s.next(), None);
}
