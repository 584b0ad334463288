//! A speed-camera service: the messages that cameras, dispatchers and the
//! server exchange, their binary form, and the rule by which tickets are
//! issued.

use vstd::prelude::*;

pub mod client;
pub mod codec;
pub mod heartbeat;
pub mod message;
pub mod parse;
pub mod state;

verus! {

/// A road's number.
pub type Road = u16;

/// A position on a road, in miles.
pub type Mile = u16;

/// A moment, in seconds.
pub type Timestamp = u32;

/// A speed: in miles per hour where it is a limit, in hundredths of a mile
/// per hour in a ticket.
pub type Speed = u16;

/// A car's number plate.
pub type Plate = String;

/// The time between two heartbeats. Zero means that none is wanted.
#[derive(Debug, Clone, Copy, PartialEq, Eq, Structural)]
pub struct HeartbeatInterval {
    pub millis: u64,
}

impl HeartbeatInterval {
    /// An interval of so many milliseconds.
    pub fn from_millis(millis: u64) -> (interval: Self)
        ensures
            interval.millis == millis,
    {
        HeartbeatInterval { millis }
    }

    /// An interval of so many seconds, as far as its milliseconds can be
    /// counted.
    pub fn from_secs(secs: u64) -> (interval: Self)
        ensures
            interval.millis == if secs * 1000 <= u64::MAX {
                (secs * 1000) as u64
            } else {
                u64::MAX
            },
    {
        if secs <= 0xffff_ffff_ffff_ffff / 1000 {
            HeartbeatInterval { millis: secs * 1000 }
        } else {
            HeartbeatInterval { millis: 0xffff_ffff_ffff_ffff }
        }
    }

    /// Whether no heartbeat is wanted.
    pub fn is_zero(&self) -> (zero: bool)
        ensures
            zero == (self.millis == 0),
    {
        self.millis == 0
    }
}

} // verus!
