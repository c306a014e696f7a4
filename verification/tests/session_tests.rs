use consul_external_dns::consul::{
    acquire_granted, lock_is_free, KvEntry, SessionDuration, CONSUL_STORE_KEY,
};
use consul_external_dns::session::{
    session_step, LockRegister, SessionAction, SessionEvent, SessionState,
};

#[test]
fn lock_acquisition_is_mutually_exclusive() {
    // Two acquisition attempts against the same backend state: exactly one
    // succeeds; the second succeeds only after the first releases.
    let mut lock = LockRegister::new();
    assert!(!lock.is_held());
    assert!(lock.acquire("session-a"));
    assert!(!lock.acquire("session-b"));
    assert!(lock.is_held());
    // Re-acquiring with the holding session stays granted.
    assert!(lock.acquire("session-a"));
    // Only the holder can release.
    assert!(!lock.release("session-b"));
    assert!(lock.release("session-a"));
    assert!(!lock.is_held());
    assert!(lock.acquire("session-b"));
}

#[test]
fn session_state_machine_follows_the_lease_protocol() {
    let (s, a) = session_step(SessionState::NoSession, SessionEvent::Created);
    assert_eq!(s, SessionState::SessionActive);
    assert_eq!(a, SessionAction::DoNothing);

    let (s, a) = session_step(SessionState::SessionActive, SessionEvent::RenewDue);
    assert_eq!(s, SessionState::Renewing);
    assert_eq!(a, SessionAction::Renew);

    let (s, a) = session_step(SessionState::Renewing, SessionEvent::RenewSucceeded);
    assert_eq!(s, SessionState::SessionActive);
    assert_eq!(a, SessionAction::DoNothing);

    // A failed renewal is fatal: the lease is presumed lost and the whole
    // process must cancel.
    let (s, a) = session_step(SessionState::Renewing, SessionEvent::RenewFailed);
    assert_eq!(s, SessionState::Expired);
    assert_eq!(a, SessionAction::CancelAndDestroy);

    let (s, a) = session_step(SessionState::SessionActive, SessionEvent::Cancelled);
    assert_eq!(s, SessionState::Terminated);
    assert_eq!(a, SessionAction::Destroy);

    let (s, a) = session_step(SessionState::Expired, SessionEvent::Cancelled);
    assert_eq!(s, SessionState::Terminated);
    assert_eq!(a, SessionAction::DoNothing);

    // Terminated is final.
    for e in [
        SessionEvent::Created,
        SessionEvent::RenewDue,
        SessionEvent::RenewSucceeded,
        SessionEvent::RenewFailed,
        SessionEvent::Cancelled,
    ] {
        let (s, a) = session_step(SessionState::Terminated, e);
        assert_eq!(s, SessionState::Terminated);
        assert_eq!(a, SessionAction::DoNothing);
    }
}

#[test]
fn session_duration_bounds_and_renewal() {
    let d = SessionDuration::try_from_secs(30).expect("30 s fits");
    assert_eq!(d.as_secs(), 30);
    assert_eq!(d.renew_period_secs(), 15);
    assert!(SessionDuration::try_from_secs(86400).is_some());
    assert!(SessionDuration::try_from_secs(86401).is_none());
}

fn entry(key: &str, session: Option<&str>) -> KvEntry {
    KvEntry {
        key: key.to_string(),
        value: None,
        session: session.map(|s| s.to_string()),
    }
}

#[test]
fn lock_listing_shows_free_lock() {
    assert!(lock_is_free(&vec![entry(CONSUL_STORE_KEY, None)]));
    assert!(!lock_is_free(&vec![entry(CONSUL_STORE_KEY, Some("sid"))]));
    assert!(!lock_is_free(&vec![entry("some_other_key", None)]));
    assert!(!lock_is_free(&vec![]));
    assert!(lock_is_free(&vec![
        entry("some_other_key", None),
        entry(CONSUL_STORE_KEY, Some("sid")),
        entry(CONSUL_STORE_KEY, None),
    ]));
}

#[test]
fn acquire_response_is_read_from_the_body() {
    assert!(acquire_granted("true"));
    assert!(acquire_granted("true\n"));
    assert!(!acquire_granted("false"));
    assert!(!acquire_granted(""));
    assert!(!acquire_granted("TRUE"));
}
