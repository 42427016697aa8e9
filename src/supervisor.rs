use vstd::prelude::*;

verus! {

/// Wait after a navigation so that the page can render.
pub const SETTLE_SECS: u64 = 2;

/// Wait before another attempt to reach the browser endpoint.
pub const CONNECT_RETRY_SECS: u64 = 5;

/// Wait before the whole pipeline restarts after an error.
pub const RESTART_SECS: u64 = 5;

/// Wait between two scan cycles.
pub const CYCLE_PAUSE_SECS: u64 = 5;

/// Where the supervisor stands.
#[derive(Clone, Copy, Debug, PartialEq, Eq, Structural)]
pub enum SessionPhase {
    Disconnected,
    Connecting,
    LoggingIn,
    Scanning,
    Failed,
}

/// What the outside world reports back.
#[derive(Clone, Copy, Debug, PartialEq, Eq, Structural)]
pub enum SessionEvent {
    Started,
    ConnectFailed,
    Connected,
    LoggedIn,
    CycleDone,
    Error,
    BackoffElapsed,
}

/// What to do next, after waiting the given number of seconds.
#[derive(Clone, Copy, Debug, PartialEq, Eq, Structural)]
pub enum SessionAction {
    /// Open a new browser session; an old one is abandoned.
    Connect { after_secs: u64 },
    /// Clear the cookies, inject the cookie file and load the search page.
    Login,
    /// Run one scan cycle.
    Scan { after_secs: u64 },
    /// Drop the session and scan state and wait for the back-off to elapse.
    Backoff { secs: u64 },
}

/// The supervisor's transitions. Connection failures are retried forever;
/// any other error, and any event that does not fit the phase, restarts the
/// whole pipeline after a fixed back-off.
pub open spec fn transition(phase: SessionPhase, event: SessionEvent) -> (SessionPhase, SessionAction) {
    match (phase, event) {
        (SessionPhase::Disconnected, SessionEvent::Started) => (SessionPhase::Connecting, SessionAction::Connect { after_secs: 0 }),
        (SessionPhase::Connecting, SessionEvent::ConnectFailed) => (SessionPhase::Connecting, SessionAction::Connect { after_secs: CONNECT_RETRY_SECS }),
        (SessionPhase::Connecting, SessionEvent::Connected) => (SessionPhase::LoggingIn, SessionAction::Login),
        (SessionPhase::LoggingIn, SessionEvent::LoggedIn) => (SessionPhase::Scanning, SessionAction::Scan { after_secs: 0 }),
        (SessionPhase::Scanning, SessionEvent::CycleDone) => (SessionPhase::Scanning, SessionAction::Scan { after_secs: CYCLE_PAUSE_SECS }),
        (SessionPhase::Failed, SessionEvent::BackoffElapsed) => (SessionPhase::Connecting, SessionAction::Connect { after_secs: 0 }),
        _ => (SessionPhase::Failed, SessionAction::Backoff { secs: RESTART_SECS }),
    }
}

/// The next phase and action of the supervisor.
pub fn on_event(phase: SessionPhase, event: SessionEvent) -> (r: (SessionPhase, SessionAction))
    ensures
        r == transition(phase, event),
{
    match (phase, event) {
        (SessionPhase::Disconnected, SessionEvent::Started) => (SessionPhase::Connecting, SessionAction::Connect { after_secs: 0 }),
        (SessionPhase::Connecting, SessionEvent::ConnectFailed) => (SessionPhase::Connecting, SessionAction::Connect { after_secs: CONNECT_RETRY_SECS }),
        (SessionPhase::Connecting, SessionEvent::Connected) => (SessionPhase::LoggingIn, SessionAction::Login),
        (SessionPhase::LoggingIn, SessionEvent::LoggedIn) => (SessionPhase::Scanning, SessionAction::Scan { after_secs: 0 }),
        (SessionPhase::Scanning, SessionEvent::CycleDone) => (SessionPhase::Scanning, SessionAction::Scan { after_secs: CYCLE_PAUSE_SECS }),
        (SessionPhase::Failed, SessionEvent::BackoffElapsed) => (SessionPhase::Connecting, SessionAction::Connect { after_secs: 0 }),
        _ => (SessionPhase::Failed, SessionAction::Backoff { secs: RESTART_SECS }),
    }
}

/// An error in any phase leads to the back-off, and the back-off only ever
/// leads to a fresh connection: recovery always restarts from the session.
pub proof fn lemma_errors_restart_from_connect(phase: SessionPhase)
    ensures
        transition(phase, SessionEvent::Error) == (SessionPhase::Failed, SessionAction::Backoff { secs: RESTART_SECS }),
        transition(SessionPhase::Failed, SessionEvent::BackoffElapsed).0 == SessionPhase::Connecting,
{
}

} // verus!
