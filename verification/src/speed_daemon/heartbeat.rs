//! The heartbeat that a client may ask for, once.

use vstd::prelude::*;
use super::HeartbeatInterval;

verus! {

/// A client asked for a heartbeat a second time.
#[derive(Debug, Clone, Copy, PartialEq, Eq, Structural)]
pub struct HeartbeatExistsError;

impl HeartbeatExistsError {
    /// The text that describes the error.
    pub fn message(&self) -> (text: &'static str)
        ensures
            text@ == "heartbeat already exists"@,
    {
        "heartbeat already exists"
    }
}

/// What is to be done for a client that asked for a heartbeat.
#[derive(Debug, Clone, Copy, PartialEq, Eq, Structural)]
pub enum HeartbeatPlan {
    /// The client asked for an interval of zero: nothing is ever sent.
    Silent,
    /// A heartbeat message is to be sent each time the interval has passed.
    Every(HeartbeatInterval),
}

/// Whether a client has asked for a heartbeat.
#[derive(Debug)]
pub struct Heartbeat {
    started: bool,
}

impl Heartbeat {
    /// Whether a heartbeat was asked for.
    pub closed spec fn started(&self) -> bool {
        self.started
    }

    pub fn new() -> (heartbeat: Self)
        ensures
            !heartbeat.started(),
    {
        Heartbeat { started: false }
    }

    /// The client asks for a heartbeat. The first request is granted, and
    /// says what is to be sent; any later one is an error, whatever its
    /// interval and that of the first.
    pub fn start(&mut self, interval: HeartbeatInterval) -> (plan: Result<
        HeartbeatPlan,
        HeartbeatExistsError,
    >)
        ensures
            final(self).started(),
            plan == if old(self).started() {
                Err::<HeartbeatPlan, HeartbeatExistsError>(HeartbeatExistsError)
            } else if interval.millis == 0 {
                Ok(HeartbeatPlan::Silent)
            } else {
                Ok(HeartbeatPlan::Every(interval))
            },
    {
        if self.started {
            return Err(HeartbeatExistsError);
        }
        self.started = true;
        if interval.is_zero() {
            Ok(HeartbeatPlan::Silent)
        } else {
            Ok(HeartbeatPlan::Every(interval))
        }
    }
}

} // verus!
