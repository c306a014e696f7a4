//! The session lease protocol: the per-instance state machine that drives
//! renewal and teardown, and the model of the coordination backend's lock
//! key, whose compare-and-swap acquisition gives the reconciler its
//! single-writer guarantee.

use vstd::prelude::*;

use crate::strutil;

verus! {

/// How often a waiting instance re-checks a lock it failed to acquire, in
/// seconds, bounding the load it puts on the coordination backend.
pub const LOCK_RETRY_SECS: u64 = 10;

/// The lease states of one process instance.
#[derive(Clone, Copy, Debug, PartialEq, Eq, Structural)]
pub enum SessionState {
    /// No lease has been registered yet.
    NoSession,
    /// A live lease backs the instance's lock ownership.
    SessionActive,
    /// A renewal attempt is in flight.
    Renewing,
    /// A renewal failed; the lease must be presumed lost.
    Expired,
    /// The lease was destroyed and the instance is shutting down.
    Terminated,
}

/// What the instance observes between lease states.
#[derive(Clone, Copy, Debug, PartialEq, Eq, Structural)]
pub enum SessionEvent {
    /// The backend registered the lease.
    Created,
    /// The renewal interval elapsed.
    RenewDue,
    /// The backend confirmed the renewal.
    RenewSucceeded,
    /// The renewal failed.
    RenewFailed,
    /// Shutdown was requested.
    Cancelled,
}

/// What the instance must do on a transition.
#[derive(Clone, Copy, Debug, PartialEq, Eq, Structural)]
pub enum SessionAction {
    /// Nothing.
    DoNothing,
    /// Ask the backend to renew the lease.
    Renew,
    /// Raise the process-wide cancellation signal, then destroy the lease
    /// best-effort: a silently expired lease risks two writers.
    CancelAndDestroy,
    /// Destroy the lease so its locks release promptly.
    Destroy,
}

/// The lease protocol: a lease is renewed while it is due, a failed
/// renewal is fatal and cancels the whole process, and cancellation from
/// any live state tears the lease down.
pub open spec fn session_step_spec(s: SessionState, e: SessionEvent) -> (
    SessionState,
    SessionAction,
) {
    match (s, e) {
        (SessionState::NoSession, SessionEvent::Created) => (
            SessionState::SessionActive,
            SessionAction::DoNothing,
        ),
        (SessionState::SessionActive, SessionEvent::RenewDue) => (
            SessionState::Renewing,
            SessionAction::Renew,
        ),
        (SessionState::Renewing, SessionEvent::RenewSucceeded) => (
            SessionState::SessionActive,
            SessionAction::DoNothing,
        ),
        (SessionState::Renewing, SessionEvent::RenewFailed) => (
            SessionState::Expired,
            SessionAction::CancelAndDestroy,
        ),
        (SessionState::SessionActive, SessionEvent::Cancelled) => (
            SessionState::Terminated,
            SessionAction::Destroy,
        ),
        (SessionState::Renewing, SessionEvent::Cancelled) => (
            SessionState::Terminated,
            SessionAction::Destroy,
        ),
        (SessionState::Expired, SessionEvent::Cancelled) => (
            SessionState::Terminated,
            SessionAction::DoNothing,
        ),
        (_, _) => (s, SessionAction::DoNothing),
    }
}

/// Take one step of the lease protocol.
pub fn session_step(state: SessionState, event: SessionEvent) -> (r: (
    SessionState,
    SessionAction,
))
    ensures
        r == session_step_spec(state, event),
{
    match (state, event) {
        (SessionState::NoSession, SessionEvent::Created) => (
            SessionState::SessionActive,
            SessionAction::DoNothing,
        ),
        (SessionState::SessionActive, SessionEvent::RenewDue) => (
            SessionState::Renewing,
            SessionAction::Renew,
        ),
        (SessionState::Renewing, SessionEvent::RenewSucceeded) => (
            SessionState::SessionActive,
            SessionAction::DoNothing,
        ),
        (SessionState::Renewing, SessionEvent::RenewFailed) => (
            SessionState::Expired,
            SessionAction::CancelAndDestroy,
        ),
        (SessionState::SessionActive, SessionEvent::Cancelled) => (
            SessionState::Terminated,
            SessionAction::Destroy,
        ),
        (SessionState::Renewing, SessionEvent::Cancelled) => (
            SessionState::Terminated,
            SessionAction::Destroy,
        ),
        (SessionState::Expired, SessionEvent::Cancelled) => (
            SessionState::Terminated,
            SessionAction::DoNothing,
        ),
        (s, _) => (s, SessionAction::DoNothing),
    }
}

/// A terminated instance never comes back: no event leaves `Terminated`.
pub proof fn lemma_terminated_is_final(e: SessionEvent)
    ensures
        session_step_spec(SessionState::Terminated, e).0 == SessionState::Terminated,
{
}

/// A failed renewal is never absorbed silently: it expires the lease and
/// demands process-wide cancellation.
pub proof fn lemma_renewal_failure_is_fatal()
    ensures
        session_step_spec(SessionState::Renewing, SessionEvent::RenewFailed) == (
            SessionState::Expired,
            SessionAction::CancelAndDestroy,
        ),
{
}

/// What an acquisition attempt does to the lock key: bind a free key to
/// the session; leave a held key as it is, granting only the session that
/// already holds it.
pub open spec fn acquire_spec(holder: Option<Seq<char>>, session: Seq<char>) -> (
    Option<Seq<char>>,
    bool,
) {
    match holder {
        None => (Some(session), true),
        Some(cur) => if cur == session {
            (Some(cur), true)
        } else {
            (Some(cur), false)
        },
    }
}

/// What a release does to the lock key: only the holding session can free
/// it; any other request leaves it untouched.
pub open spec fn release_spec(holder: Option<Seq<char>>, session: Seq<char>) -> (
    Option<Seq<char>>,
    bool,
) {
    match holder {
        Some(cur) => if cur == session {
            (None, true)
        } else {
            (Some(cur), false)
        },
        None => (None, false),
    }
}

/// The well-known lock key of the coordination backend, holding at most
/// the one session it is bound to. Acquisition is a compare-and-swap:
/// exactly this exclusivity is what the reconciler's single-writer
/// guarantee rests on.
pub struct LockRegister {
    holder: Option<String>,
}

impl LockRegister {
    /// The session the key is bound to, if any.
    pub closed spec fn holder(&self) -> Option<Seq<char>> {
        match self.holder {
            Some(ref s) => Some(s@),
            None => None,
        }
    }

    /// A free lock key.
    pub fn new() -> (r: LockRegister)
        ensures
            r.holder() is None,
    {
        LockRegister { holder: None }
    }

    /// Whether any session holds the key.
    pub fn is_held(&self) -> (r: bool)
        ensures
            r == (self.holder() is Some),
    {
        self.holder.is_some()
    }

    /// Try to bind the key to a session.
    pub fn acquire(&mut self, session_id: &str) -> (granted: bool)
        ensures
            (final(self).holder(), granted) == acquire_spec(old(self).holder(), session_id@),
    {
        match &self.holder {
            None => {
                self.holder = Some(session_id.to_owned());
                true
            },
            Some(cur) => strutil::str_eq(cur.as_str(), session_id),
        }
    }

    /// Release the key if this session holds it.
    pub fn release(&mut self, session_id: &str) -> (released: bool)
        ensures
            (final(self).holder(), released) == release_spec(old(self).holder(), session_id@),
    {
        match &self.holder {
            Some(cur) => {
                if strutil::str_eq(cur.as_str(), session_id) {
                    self.holder = None;
                    true
                } else {
                    false
                }
            },
            None => false,
        }
    }
}

/// Mutual exclusion: on a free lock key, of two acquisition attempts by
/// different sessions the first is granted and the second is refused, and
/// the key stays bound to the first session.
pub proof fn lemma_mutual_exclusion(a: Seq<char>, b: Seq<char>)
    requires
        a != b,
    ensures
        acquire_spec(None, a).1,
        acquire_spec(None, a).0 == Some(a),
        !acquire_spec(acquire_spec(None, a).0, b).1,
        acquire_spec(acquire_spec(None, a).0, b).0 == Some(a),
{
}

/// While one session holds the key, no other session's attempt is granted
/// or changes the binding.
pub proof fn lemma_holder_excludes(a: Seq<char>, b: Seq<char>)
    requires
        a != b,
    ensures
        !acquire_spec(Some(a), b).1,
        acquire_spec(Some(a), b).0 == Some(a),
{
}

/// The refused session succeeds once the holder releases: blocking until
/// the key is observed free and retrying is a sound waiting strategy.
pub proof fn lemma_release_unblocks(a: Seq<char>, b: Seq<char>)
    requires
        a != b,
    ensures
        release_spec(Some(a), a).0 is None,
        release_spec(Some(a), a).1,
        acquire_spec(release_spec(Some(a), a).0, b).1,
        acquire_spec(release_spec(Some(a), a).0, b).0 == Some(b),
{
}

} // verus!
