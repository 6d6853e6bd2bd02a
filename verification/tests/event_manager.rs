use pal_os_event::event::{ArmError, EventHandle, EventManager, Firing, DEFAULT_DELAY_US};

#[test]
fn create_with_absent_callback_and_context_autostarts() {
    // The inherited convenience path: no callback, non-null context.
    let mut m = EventManager::new(4);
    let (h, arm) = m.create(None, 7, 100);
    assert!(!h.is_null());
    assert_eq!(arm, Ok(()));
    assert!(m.slot.triggered);
    assert_eq!(m.slot.context, 7);
    assert_eq!(m.scheduler.len(), 1);

    // Nothing is due at arm time...
    assert_eq!(m.process(100), vec![]);
    // ...and just past the default delay the completion arrives exactly once,
    // carrying the context verbatim.
    let fired = m.process(100 + DEFAULT_DELAY_US + 1);
    assert_eq!(fired, vec![Firing { callback: None, context: 7 }]);
    assert_eq!(m.process(u64::MAX), vec![]);
}

#[test]
fn create_with_callback_present_does_not_autostart() {
    let mut m = EventManager::new(4);
    let (h, arm) = m.create(Some(3), 7, 0);
    assert!(!h.is_null());
    assert_eq!(arm, Ok(()));
    assert!(!m.slot.triggered);
    assert_eq!(m.scheduler.len(), 0);
}

#[test]
fn create_with_null_context_does_not_autostart() {
    let mut m = EventManager::new(4);
    let (_, arm) = m.create(None, 0, 0);
    assert_eq!(arm, Ok(()));
    assert!(!m.slot.triggered);
    assert_eq!(m.scheduler.len(), 0);
}

#[test]
fn start_twice_leaves_exactly_one_entry_outstanding() {
    let mut m = EventManager::new(4);
    let h = m.create(Some(1), 9, 0).0;
    assert_eq!(m.start(h, Some(1), 9, 0), Ok(()));
    assert_eq!(m.scheduler.len(), 1);
    // The slot is armed; a second start is an idempotent no-op.
    assert_eq!(m.start(h, Some(2), 8, 0), Ok(()));
    assert_eq!(m.scheduler.len(), 1);
    assert_eq!(m.slot.callback, Some(1));
    assert_eq!(m.slot.context, 9);
    // Exactly one completion ever comes out of the one arming.
    let fired = m.process(DEFAULT_DELAY_US);
    assert_eq!(fired, vec![Firing { callback: Some(1), context: 9 }]);
    assert_eq!(m.process(u64::MAX), vec![]);
}

#[test]
fn trigger_consumes_the_callback_so_a_second_does_nothing() {
    let mut m = EventManager::new(4);
    let h = m.create(Some(9), 5, 0).0;
    assert_eq!(m.start(h, Some(9), 5, 0), Ok(()));
    let first = m.trigger_registered_callback();
    assert_eq!(first, Some(Firing { callback: Some(9), context: 5 }));
    // The flag is re-affirmed, but the callback is gone from the slot.
    assert!(m.slot.triggered);
    assert_eq!(m.slot.callback, None);
    assert_eq!(m.trigger_registered_callback(), None);
    // The pending timer entry now finds no callback to hand out.
    let fired = m.process(DEFAULT_DELAY_US);
    assert_eq!(fired, vec![Firing { callback: None, context: 5 }]);
}

#[test]
fn trigger_on_an_idle_slot_does_nothing() {
    let mut m = EventManager::new(4);
    assert_eq!(m.trigger_registered_callback(), None);
    let _ = m.create(Some(2), 4, 0);
    assert_eq!(m.trigger_registered_callback(), None);
}

#[test]
fn stop_does_not_cancel_the_armed_timer() {
    let mut m = EventManager::new(4);
    let h = m.create(Some(6), 11, 0).0;
    assert_eq!(m.start(h, Some(6), 11, 0), Ok(()));
    m.stop(h);
    assert!(!m.slot.triggered);
    // The callback still fires past the original deadline: accepted
    // behavior, asserted rather than assumed to be cancellation.
    let fired = m.process(DEFAULT_DELAY_US + 5);
    assert_eq!(fired, vec![Firing { callback: Some(6), context: 11 }]);
}

#[test]
fn stop_only_clears_the_flag() {
    let mut m = EventManager::new(4);
    let h = m.create(Some(6), 11, 0).0;
    assert_eq!(m.start(h, Some(6), 11, 0), Ok(()));
    m.stop(h);
    assert_eq!(m.slot.callback, Some(6));
    assert_eq!(m.slot.context, 11);
    assert_eq!(m.scheduler.len(), 1);
}

#[test]
fn reregistering_overwrites_instead_of_queuing() {
    let mut m = EventManager::new(4);
    let h = m.create(Some(1), 1, 0).0;
    assert_eq!(m.register_callback_oneshot(h, Some(10), 11, 500, 0), Ok(()));
    assert_eq!(m.register_callback_oneshot(h, Some(20), 22, 10, 0), Ok(()));
    // Only the later registration completes, at its own deadline.
    let fired = m.process(10);
    assert_eq!(fired, vec![Firing { callback: Some(20), context: 22 }]);
    // The stale entry of the overwritten registration fires on nothing.
    assert_eq!(m.process(500), vec![]);
    assert_eq!(m.process(u64::MAX), vec![]);
}

#[test]
fn register_deadline_is_now_plus_delay() {
    let mut m = EventManager::new(4);
    let h = m.create(Some(1), 1, 0).0;
    assert_eq!(m.register_callback_oneshot(h, Some(2), 3, 500, 100), Ok(()));
    assert_eq!(m.process(599), vec![]);
    assert_eq!(m.process(600), vec![Firing { callback: Some(2), context: 3 }]);
}

#[test]
fn register_overwrites_the_slot_whole() {
    let mut m = EventManager::new(4);
    let h = m.create(None, 7, 0).0;
    assert!(m.slot.triggered);
    assert_eq!(m.register_callback_oneshot(h, Some(2), 3, 50, 0), Ok(()));
    assert!(!m.slot.triggered);
    assert_eq!(m.slot.callback, Some(2));
    assert_eq!(m.slot.context, 3);
    assert_eq!(m.slot.sync_flag, 0);
    assert_eq!(m.slot.timeout_us, 0);
}

#[test]
fn null_handle_is_a_guarded_noop() {
    let mut m = EventManager::new(4);
    let null = EventHandle::null();
    assert!(null.is_null());
    assert_eq!(m.start(null, Some(1), 2, 0), Ok(()));
    assert_eq!(m.register_callback_oneshot(null, Some(1), 2, 3, 0), Ok(()));
    m.stop(null);
    assert!(!m.slot.triggered);
    assert_eq!(m.scheduler.len(), 0);
}

#[test]
fn destroy_is_a_noop_by_design() {
    let mut m = EventManager::new(4);
    let h = m.create(None, 7, 0).0;
    m.destroy(h);
    assert!(m.slot.triggered);
    assert_eq!(m.scheduler.len(), 1);
}

#[test]
fn scheduler_capacity_error_reaches_the_caller() {
    let mut m = EventManager::new(0);
    let h = m.create(Some(1), 2, 0).0;
    assert_eq!(m.start(h, Some(1), 2, 0), Err(ArmError::CapacityExceeded));
    assert!(!m.slot.triggered);
    assert_eq!(m.slot.callback, None);
}

#[test]
fn exhausted_arming_tokens_are_reported() {
    let mut m = EventManager::new(4);
    let h = m.create(Some(1), 2, 0).0;
    m.next_token = u64::MAX;
    assert_eq!(
        m.register_callback_oneshot(h, Some(1), 2, 3, 0),
        Err(ArmError::TokensExhausted)
    );
    assert_eq!(m.scheduler.len(), 0);
}

#[test]
fn host_dispatch_runs_each_completion_once() {
    // A host-side callback table, as the surrounding driver would keep one:
    // the core hands back tokens, the host performs the calls.
    let mut m = EventManager::new(4);
    let h = m.create(Some(0), 40, 0).0;
    let mut counts = [0u32; 2];
    assert_eq!(m.start(h, Some(0), 40, 0), Ok(()));
    for now in [0, 500, DEFAULT_DELAY_US, DEFAULT_DELAY_US + 1, 9999] {
        for firing in m.process(now) {
            if let Some(cb) = firing.callback {
                counts[cb as usize] += 1;
                assert_eq!(firing.context, 40);
            }
        }
    }
    assert_eq!(counts, [1, 0]);
}
