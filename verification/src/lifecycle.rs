//! The server lifecycle's decision logic.
//!
//! The embedding program owns the threads, the TCP listener and the
//! channels; this module owns the decisions: which confirmation a request
//! waits for, what a received status event means for the waiting caller,
//! and which requests the listener and signal threads act on. The wait
//! routes an `Error` status straight to the caller instead of letting it
//! drown in a timeout.

use vstd::prelude::*;
use crossbeam_channel::Receiver;

verus! {

/// A lifecycle request (`Start`, `Stop`), confirmation (`Started`,
/// `Stopped`), a failed wait (`Timeout`), or a failure report (`Error`).
#[derive(Debug, Clone)]
pub enum ServerState {
    Start,
    Started,
    Stop,
    Stopped,
    Timeout,
    Error(String),
}

/// How long a caller waits for a lifecycle confirmation, in milliseconds.
pub const CONFIRM_WAIT_MILLIS: u64 = 10000;

/// The confirmation a lifecycle request waits for: `Started` answers
/// `Start` and `Stopped` answers `Stop`; no other state is a request.
pub open spec fn spec_expected_confirmation(req: ServerState) -> Option<ServerState> {
    match req {
        ServerState::Start => Some(ServerState::Started),
        ServerState::Stop => Some(ServerState::Stopped),
        _ => None,
    }
}

pub fn expected_confirmation(req: &ServerState) -> (r: Option<ServerState>)
    ensures
        r == spec_expected_confirmation(*req),
{
    match req {
        ServerState::Start => Some(ServerState::Started),
        ServerState::Stop => Some(ServerState::Stopped),
        _ => None,
    }
}

/// What a status event observed during a wait means for the caller: the
/// expected confirmation satisfies the wait; an `Error` is handed through
/// as it is; anything else leaves the caller with `Timeout`.
pub open spec fn spec_wait_outcome(expected: ServerState, event: ServerState) -> ServerState {
    match event {
        ServerState::Error(m) => ServerState::Error(m),
        ServerState::Started => if expected is Started {
            ServerState::Started
        } else {
            ServerState::Timeout
        },
        ServerState::Stopped => if expected is Stopped {
            ServerState::Stopped
        } else {
            ServerState::Timeout
        },
        _ => ServerState::Timeout,
    }
}

pub fn wait_outcome(expected: &ServerState, event: ServerState) -> (r: ServerState)
    ensures
        r == spec_wait_outcome(*expected, event),
{
    match event {
        ServerState::Error(m) => ServerState::Error(m),
        ServerState::Started => match expected {
            ServerState::Started => ServerState::Started,
            _ => ServerState::Timeout,
        },
        ServerState::Stopped => match expected {
            ServerState::Stopped => ServerState::Stopped,
            _ => ServerState::Timeout,
        },
        _ => ServerState::Timeout,
    }
}

/// The listener thread acts exactly on `Start` requests.
pub fn is_start_request(req: &ServerState) -> (r: bool)
    ensures
        r == (*req is Start),
{
    match req {
        ServerState::Start => true,
        _ => false,
    }
}

/// The signal thread acts exactly on `Stop` requests.
pub fn is_stop_request(req: &ServerState) -> (r: bool)
    ensures
        r == (*req is Stop),
{
    match req {
        ServerState::Stop => true,
        _ => false,
    }
}

#[verifier::external_type_specification]
#[verifier::external_body]
#[verifier::reject_recursive_types(T)]
pub struct ExReceiver<T>(Receiver<T>);

/// Relies on crossbeam_channel::Receiver::recv_timeout: it blocks until a
/// message arrives, the timeout passes, or the channel disconnects, and
/// returns the message only in the first case. Which message arrives, if
/// any, depends on other threads and on timing, so nothing is promised of
/// the result.
#[verifier::external_body]
fn recv_state_within(rx: &Receiver<ServerState>, millis: u64) -> Option<ServerState> {
    match rx.recv_timeout(std::time::Duration::from_millis(millis)) {
        Ok(state) => Some(state),
        Err(_) => None,
    }
}

/// Wait up to `millis` for the expected confirmation on the status stream:
/// the caller sees the confirmation itself, an `Error` routed straight
/// through, or `Timeout` — never a silent hang.
pub fn await_confirmation(rx: &Receiver<ServerState>, expected: &ServerState, millis: u64) -> (r:
    ServerState)
    requires
        *expected is Started || *expected is Stopped,
    ensures
        r == *expected || r is Error || r is Timeout,
{
    match recv_state_within(rx, millis) {
        Some(event) => wait_outcome(expected, event),
        None => ServerState::Timeout,
    }
}

/// An `Error` observed during the wait reaches the caller as itself — it is
/// never masked as `Timeout`; the expected confirmation satisfies the
/// wait; any other event leaves the wait with `Timeout`.
pub proof fn lemma_wait_decision(expected: ServerState, event: ServerState)
    requires
        expected is Started || expected is Stopped,
    ensures
        event is Error ==> spec_wait_outcome(expected, event) == event,
        (expected is Started && event is Started) ==> spec_wait_outcome(expected, event) == event,
        (expected is Stopped && event is Stopped) ==> spec_wait_outcome(expected, event) == event,
        !(event is Error) && !(expected is Started && event is Started) && !(expected is Stopped
            && event is Stopped) ==> spec_wait_outcome(expected, event) is Timeout,
{
}

} // verus!
