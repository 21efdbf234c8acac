//! The lifecycle of one proxied connection: resolving the server, the
//! handshake, interception, then the raw relay.

use vstd::prelude::*;

verus! {

/// Bytes of the first handshake round in each direction (C0+C1, S0+S1).
pub const HANDSHAKE_FIRST_LEN: usize = 1537;

/// Bytes of the second handshake round in each direction (C2, S2).
pub const HANDSHAKE_SECOND_LEN: usize = 1536;

/// Where a connection stands.
#[derive(Clone, Copy, Debug, PartialEq, Eq)]
pub enum Phase {
    Resolving,
    Handshaking,
    Intercepting,
    Relaying,
    Closed,
    Failed,
}

/// What the work of a phase came to.
#[derive(Clone, Copy, Debug, PartialEq, Eq)]
pub enum Event {
    /// The phase's work ended well: the server is connected, the handshake
    /// is relayed, or the relay reached the end of a stream.
    Succeeded,
    /// A message was forwarded; `complete` once `publish` was intercepted.
    Forwarded { complete: bool },
    /// The phase's work failed.
    Failed,
}

/// What the connection does next.
#[derive(Clone, Copy, Debug, PartialEq, Eq)]
pub enum Action {
    /// Relay the two handshake rounds.
    Handshake,
    /// Read and forward the next client message.
    ReadMessage,
    /// Relay raw bytes in both directions.
    Relay,
    /// Close both sockets.
    Close,
    /// Nothing is left to do.
    Idle,
}

/// The next phase and action: each phase moves on when its work succeeds,
/// interception goes on until `publish` was intercepted, and any failure is
/// terminal, with no retry.
pub open spec fn transition(phase: Phase, event: Event) -> (Phase, Action) {
    match (phase, event) {
        (Phase::Closed, _) => (Phase::Closed, Action::Idle),
        (Phase::Failed, _) => (Phase::Failed, Action::Idle),
        (_, Event::Failed) => (Phase::Failed, Action::Close),
        (Phase::Resolving, Event::Succeeded) => (Phase::Handshaking, Action::Handshake),
        (Phase::Handshaking, Event::Succeeded) => (Phase::Intercepting, Action::ReadMessage),
        (Phase::Intercepting, Event::Forwarded { complete }) => if complete {
            (Phase::Relaying, Action::Relay)
        } else {
            (Phase::Intercepting, Action::ReadMessage)
        },
        (Phase::Relaying, Event::Succeeded) => (Phase::Closed, Action::Close),
        _ => (Phase::Failed, Action::Close),
    }
}

/// Decides what a connection does after the work of its phase.
pub fn next_step(phase: Phase, event: Event) -> (r: (Phase, Action))
    ensures
        r == transition(phase, event),
{
    match (phase, event) {
        (Phase::Closed, _) => (Phase::Closed, Action::Idle),
        (Phase::Failed, _) => (Phase::Failed, Action::Idle),
        (_, Event::Failed) => (Phase::Failed, Action::Close),
        (Phase::Resolving, Event::Succeeded) => (Phase::Handshaking, Action::Handshake),
        (Phase::Handshaking, Event::Succeeded) => (Phase::Intercepting, Action::ReadMessage),
        (Phase::Intercepting, Event::Forwarded { complete }) => if complete {
            (Phase::Relaying, Action::Relay)
        } else {
            (Phase::Intercepting, Action::ReadMessage)
        },
        (Phase::Relaying, Event::Succeeded) => (Phase::Closed, Action::Close),
        _ => (Phase::Failed, Action::Close),
    }
}

/// A failure ends the connection from any live phase, and nothing leaves
/// the failed state.
pub proof fn lemma_failure_is_terminal(phase: Phase, event: Event)
    ensures
        phase != Phase::Closed && phase != Phase::Failed ==> transition(phase, Event::Failed) == (
        Phase::Failed, Action::Close),
        transition(Phase::Failed, event).0 == Phase::Failed,
{
}

} // verus!
