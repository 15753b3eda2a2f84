use lithe_shim::guard::{GuardState, StreamGuard};

// An exchange aborted before marking its guard complete: teardown directs
// exactly one cancel for its handle, and never more than one.
#[test]
fn guard_cancels_exactly_once_on_abort() {
    let mut guard = StreamGuard::new(7);
    assert_eq!(guard.release(), Some(7));
    // every further teardown path finds the guard spent
    assert_eq!(guard.release(), None);
    assert_eq!(guard.release(), None);
}

#[test]
fn guard_completed_never_cancels() {
    let mut guard = StreamGuard::new(9);
    guard.complete();
    assert_eq!(guard.release(), None);
    assert_eq!(guard.release(), None);
}

#[test]
fn guard_states_follow_events() {
    let mut guard = StreamGuard::new(3);
    assert!(matches!(guard.state, GuardState::Active));
    assert_eq!(guard.release(), Some(3));
    assert!(matches!(guard.state, GuardState::Cancelled));
    // completing a spent guard changes nothing
    guard.complete();
    assert!(matches!(guard.state, GuardState::Cancelled));
    assert_eq!(guard.release(), None);
}
