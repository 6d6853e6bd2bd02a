use pal_os_event::scheduler::{Scheduler, SchedulerError, TimerEntry};

#[test]
fn fires_exactly_due_subset_in_deadline_order() {
    let mut s = Scheduler::new(8);
    assert_eq!(s.add(30, 1), Ok(()));
    assert_eq!(s.add(10, 2), Ok(()));
    assert_eq!(s.add(20, 3), Ok(()));
    let fired = s.expire(20);
    assert_eq!(
        fired,
        vec![
            TimerEntry { deadline: 10, token: 2 },
            TimerEntry { deadline: 20, token: 3 },
        ]
    );
    assert_eq!(s.len(), 1);
    let rest = s.expire(30);
    assert_eq!(rest, vec![TimerEntry { deadline: 30, token: 1 }]);
    assert_eq!(s.len(), 0);
}

#[test]
fn each_entry_fires_exactly_once() {
    let mut s = Scheduler::new(4);
    s.add(5, 7).unwrap();
    assert_eq!(s.expire(5).len(), 1);
    assert_eq!(s.expire(5).len(), 0);
    assert_eq!(s.expire(u64::MAX).len(), 0);
}

#[test]
fn ties_fire_in_insertion_order() {
    let mut s = Scheduler::new(8);
    s.add(5, 1).unwrap();
    s.add(5, 2).unwrap();
    s.add(5, 3).unwrap();
    let fired = s.expire(5);
    let tokens: Vec<u64> = fired.iter().map(|e| e.token).collect();
    assert_eq!(tokens, vec![1, 2, 3]);
}

#[test]
fn past_deadline_is_legal_and_fires_on_next_sweep() {
    let mut s = Scheduler::new(2);
    s.add(0, 9).unwrap();
    let fired = s.expire(0);
    assert_eq!(fired, vec![TimerEntry { deadline: 0, token: 9 }]);
}

#[test]
fn not_yet_due_entries_stay_pending() {
    let mut s = Scheduler::new(2);
    s.add(100, 1).unwrap();
    assert_eq!(s.expire(99).len(), 0);
    assert_eq!(s.len(), 1);
    assert_eq!(s.expire(100).len(), 1);
}

#[test]
fn capacity_exceeded_is_reported_and_nothing_is_dropped() {
    let mut s = Scheduler::new(1);
    assert_eq!(s.capacity(), 1);
    assert_eq!(s.add(10, 1), Ok(()));
    assert_eq!(s.add(20, 2), Err(SchedulerError::CapacityExceeded));
    assert_eq!(s.len(), 1);
    assert_eq!(s.expire(20), vec![TimerEntry { deadline: 10, token: 1 }]);
}

#[test]
fn entries_added_after_a_sweep_wait_for_the_next() {
    let mut s = Scheduler::new(4);
    assert_eq!(s.expire(10).len(), 0);
    s.add(5, 1).unwrap();
    assert_eq!(s.len(), 1);
    assert_eq!(s.expire(10).len(), 1);
}

#[test]
fn zero_capacity_accepts_nothing() {
    let mut s = Scheduler::new(0);
    assert_eq!(s.add(1, 1), Err(SchedulerError::CapacityExceeded));
    assert_eq!(s.len(), 0);
}
