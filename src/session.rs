use vstd::prelude::*;

verus! {

use crate::components::ClientId;

/// Identifies a match.
pub type ArenaUkey = u64;

/// What a client presents to join a match.
#[derive(Debug, Clone, Copy, PartialEq, Eq, Structural)]
pub struct ArenaTicket {
    pub arena_ukey: ArenaUkey,
}

/// A client's connection offer.
pub struct ClientOffer {
    pub ticket: ArenaTicket,
    pub sdp: String,
}

/// The server's answer to an offer, with the slot the client got.
pub struct ServerAnswer {
    pub client_id: ClientId,
    pub sdp: String,
}

/// Where a session is in its lifecycle.
#[derive(Debug, Clone, Copy, PartialEq, Eq, Structural)]
pub enum SessionState {
    Connecting,
    Connected,
    Disconnected,
    Closed,
}

/// The lifecycle moves a session may make: connecting either succeeds or fails,
/// a connected transport may drop, and any open session may be closed.
pub open spec fn can_transition(from: SessionState, to: SessionState) -> bool {
    match (from, to) {
        (SessionState::Connecting, SessionState::Connected) => true,
        (SessionState::Connecting, SessionState::Closed) => true,
        (SessionState::Connected, SessionState::Disconnected) => true,
        (SessionState::Connected, SessionState::Closed) => true,
        (SessionState::Disconnected, SessionState::Closed) => true,
        _ => false,
    }
}

/// Whether `from` may move to `to`.
pub fn is_valid_transition(from: SessionState, to: SessionState) -> (r: bool)
    ensures
        r == can_transition(from, to),
{
    match (from, to) {
        (SessionState::Connecting, SessionState::Connected) => true,
        (SessionState::Connecting, SessionState::Closed) => true,
        (SessionState::Connected, SessionState::Disconnected) => true,
        (SessionState::Connected, SessionState::Closed) => true,
        (SessionState::Disconnected, SessionState::Closed) => true,
        _ => false,
    }
}

/// Remembers whether a close was already requested, so the transport's close
/// runs at most once however often it is asked for.
pub struct CloseLatch {
    requested: bool,
}

impl CloseLatch {
    pub closed spec fn is_requested(&self) -> bool {
        self.requested
    }

    pub fn new() -> (r: Self)
        ensures
            !r.is_requested(),
    {
        CloseLatch { requested: false }
    }

    /// Marks the session as closing; true only on the first call, when the
    /// caller should perform the close.
    pub fn request_close(&mut self) -> (r: bool)
        ensures
            r == !old(self).is_requested(),
            final(self).is_requested(),
    {
        let first = !self.requested;
        self.requested = true;
        first
    }

    pub fn requested(&self) -> (r: bool)
        ensures
            r == self.is_requested(),
    {
        self.requested
    }
}

/// What the orchestrator does for one client in one tick.
#[derive(Debug, Clone, Copy, PartialEq, Eq, Structural)]
pub enum ClientTickAction {
    /// Send this tick's batch.
    Send,
    /// Still negotiating; nothing to do yet.
    Wait,
    /// The transport dropped; close the session.
    Close,
    /// The session is closed; remove the client.
    Drop,
}

pub open spec fn tick_action_for(state: SessionState) -> ClientTickAction {
    match state {
        SessionState::Connected => ClientTickAction::Send,
        SessionState::Connecting => ClientTickAction::Wait,
        SessionState::Disconnected => ClientTickAction::Close,
        SessionState::Closed => ClientTickAction::Drop,
    }
}

/// The orchestrator's decision for a client whose session reports `state`.
pub fn client_tick_action(state: SessionState) -> (r: ClientTickAction)
    ensures
        r == tick_action_for(state),
{
    match state {
        SessionState::Connected => ClientTickAction::Send,
        SessionState::Connecting => ClientTickAction::Wait,
        SessionState::Disconnected => ClientTickAction::Close,
        SessionState::Closed => ClientTickAction::Drop,
    }
}

} // verus!
