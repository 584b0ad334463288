//! A reliable, ordered byte stream per session, carried by datagrams.
//!
//! Nothing in this module performs I/O. Every function maps the state and an
//! event (a datagram, an acknowledgment, a write, a timer tick) to the next
//! state and to what has to be sent or delivered.

use vstd::prelude::*;
pub use crate::peer::PeerAddr;

pub mod message;
pub mod session_write;
pub mod socket;
pub mod state;

verus! {

/// The identifier that a peer gives to one of its sessions.
pub type SessionId = u32;

/// The largest datagram that is ever sent or accepted.
pub const MAX_PACKET_SIZE: usize = 1000;

/// The bytes of a data message around its payload when both numbers have ten
/// digits: `/data/`, the session, `/`, the position, `/`, and the last `/`.
pub const DATA_FRAMING_SIZE: usize = 29;

/// The largest payload of one data message.
pub const MAX_DATA_SIZE: usize = MAX_PACKET_SIZE - DATA_FRAMING_SIZE;

/// Why the read side of a session ended.
#[derive(Debug, Clone, Copy, PartialEq, Eq, Structural)]
pub enum LrcpSessionError {
    PeerClosed,
    PeerMisbehaved,
}

impl LrcpSessionError {
    /// The text that describes the error.
    pub fn message(&self) -> (text: &'static str)
        ensures
            *self == LrcpSessionError::PeerClosed ==> text@ == "peer closed session"@,
            *self == LrcpSessionError::PeerMisbehaved ==> text@ == "peer misbehaved"@,
    {
        match self {
            LrcpSessionError::PeerClosed => "peer closed session",
            LrcpSessionError::PeerMisbehaved => "peer misbehaved",
        }
    }
}

/// The identity of one logical stream: who the peer is and which of its
/// sessions is meant.
#[derive(Debug, Clone, Copy, PartialEq, Eq, Structural, Hash)]
pub struct LrcpSessionHandle {
    pub peer: PeerAddr,
    pub session: SessionId,
}

/// Where a session stands in its life. A session that was closed has no
/// state: it is no longer in the table.
#[derive(Debug, Clone, Copy, PartialEq, Eq, Structural)]
pub enum LrcpSessionState {
    Opening,
    Running,
}

} // verus!
