//! What a connected client may say, and what follows from it.
//!
//! A client is nothing in particular until it says that it is a camera or a
//! dispatcher; from then on it is that. A camera reports plates. Any client
//! may ask for a heartbeat, once. Anything else ends the connection with an
//! error.

use vstd::prelude::*;
use super::heartbeat::{Heartbeat, HeartbeatPlan};
use super::message::{MessageToServer, ServerMessageView};
use super::{Mile, Plate, Road, Speed, Timestamp};

verus! {

/// What a client is.
#[derive(Debug, Clone, Copy, PartialEq, Eq, Structural)]
pub enum Role {
    /// It has not said yet.
    Unknown,
    Camera { road: Road, mile: Mile, limit: Speed },
    Dispatcher,
}

/// Why a connection ends with an error.
#[derive(Debug, Clone, Copy, PartialEq, Eq, Structural)]
pub enum Failure {
    /// A message that could not be read, or a second request for a
    /// heartbeat.
    InvalidMessage,
    /// The client has not said what it is, and said something that only a
    /// camera may say.
    ExpectedInitial,
    /// A camera said that it is a camera or a dispatcher.
    ExpectedCamera,
    /// A dispatcher said something else than that it wants a heartbeat.
    ExpectedDispatcher,
}

impl Failure {
    /// The beginning of what the client is told; for all but an invalid
    /// message, the message that came is put behind it.
    pub fn message(&self) -> (text: &'static str)
        ensures
            *self == Failure::InvalidMessage ==> text@ == "invalid message"@,
            *self == Failure::ExpectedInitial ==> text@ == "expected initial message, got "@,
            *self == Failure::ExpectedCamera ==> text@ == "expected camera message, got "@,
            *self == Failure::ExpectedDispatcher ==> text@ == "expected dispatcher message, got "@,
    {
        match self {
            Failure::InvalidMessage => "invalid message",
            Failure::ExpectedInitial => "expected initial message, got ",
            Failure::ExpectedCamera => "expected camera message, got ",
            Failure::ExpectedDispatcher => "expected dispatcher message, got ",
        }
    }
}

/// What is to be done after a message of a client.
#[derive(Debug, PartialEq, Eq)]
pub enum ClientAction {
    /// Nothing: the client is a camera from now on.
    BecomeCamera,
    /// The client is a dispatcher of these roads from now on.
    BecomeDispatcher { roads: Vec<Road> },
    /// The heartbeat starts.
    Heartbeat(HeartbeatPlan),
    /// The camera saw a car.
    Report { road: Road, mile: Mile, limit: Speed, plate: Plate, timestamp: Timestamp },
    /// The connection ends with an error.
    Fail(Failure),
}

/// A client action as a mathematical value.
pub enum ActionView {
    BecomeCamera,
    BecomeDispatcher { roads: Seq<u16> },
    Heartbeat(HeartbeatPlan),
    Report { road: u16, mile: u16, limit: u16, plate: Seq<char>, timestamp: u32 },
    Fail(Failure),
}

impl View for ClientAction {
    type V = ActionView;

    open spec fn view(&self) -> ActionView {
        match *self {
            ClientAction::BecomeCamera => ActionView::BecomeCamera,
            ClientAction::BecomeDispatcher { roads } => ActionView::BecomeDispatcher {
                roads: roads@,
            },
            ClientAction::Heartbeat(plan) => ActionView::Heartbeat(plan),
            ClientAction::Report { road, mile, limit, plate, timestamp } => ActionView::Report {
                road,
                mile,
                limit,
                plate: plate@,
                timestamp,
            },
            ClientAction::Fail(failure) => ActionView::Fail(failure),
        }
    }
}

/// What a message leads to, for a client of the given role that has or has
/// not asked for a heartbeat: the role after it, and the action.
pub open spec fn step(role: Role, has_heartbeat: bool, message: ServerMessageView) -> (
    Role,
    ActionView,
) {
    match message {
        ServerMessageView::WantHeartbeat { interval } => if has_heartbeat {
            (role, ActionView::Fail(Failure::InvalidMessage))
        } else if interval.millis == 0 {
            (role, ActionView::Heartbeat(HeartbeatPlan::Silent))
        } else {
            (role, ActionView::Heartbeat(HeartbeatPlan::Every(interval)))
        },
        ServerMessageView::IAmCamera { road, mile, limit } => match role {
            Role::Unknown => (Role::Camera { road, mile, limit }, ActionView::BecomeCamera),
            Role::Camera { .. } => (role, ActionView::Fail(Failure::ExpectedCamera)),
            Role::Dispatcher => (role, ActionView::Fail(Failure::ExpectedDispatcher)),
        },
        ServerMessageView::IAmDispatcher { roads } => match role {
            Role::Unknown => (Role::Dispatcher, ActionView::BecomeDispatcher { roads }),
            Role::Camera { .. } => (role, ActionView::Fail(Failure::ExpectedCamera)),
            Role::Dispatcher => (role, ActionView::Fail(Failure::ExpectedDispatcher)),
        },
        ServerMessageView::Plate { plate, timestamp } => match role {
            Role::Unknown => (role, ActionView::Fail(Failure::ExpectedInitial)),
            Role::Camera { road, mile, limit } => (
                role,
                ActionView::Report { road, mile, limit, plate, timestamp },
            ),
            Role::Dispatcher => (role, ActionView::Fail(Failure::ExpectedDispatcher)),
        },
    }
}

/// One connected client.
#[derive(Debug)]
pub struct Client {
    role: Role,
    heartbeat: Heartbeat,
}

impl Client {
    /// What the client is.
    pub closed spec fn role(&self) -> Role {
        self.role
    }

    /// Whether the client has asked for a heartbeat.
    pub closed spec fn has_heartbeat(&self) -> bool {
        self.heartbeat.started()
    }

    /// A client that has said nothing yet.
    pub fn new() -> (client: Self)
        ensures
            client.role() == Role::Unknown,
            !client.has_heartbeat(),
    {
        Client { role: Role::Unknown, heartbeat: Heartbeat::new() }
    }

    /// What the client is.
    pub fn current_role(&self) -> (role: Role)
        ensures
            role == self.role(),
    {
        self.role
    }

    /// A message of the client.
    pub fn handle(&mut self, message: MessageToServer) -> (action: ClientAction)
        ensures
            (final(self).role(), action@) == step(old(self).role(), old(self).has_heartbeat(), message@),
            final(self).has_heartbeat() == (old(self).has_heartbeat()
                || message@ is WantHeartbeat),
    {
        match message {
            MessageToServer::WantHeartbeat { interval } => match self.heartbeat.start(interval) {
                Ok(plan) => ClientAction::Heartbeat(plan),
                Err(_) => ClientAction::Fail(Failure::InvalidMessage),
            },
            MessageToServer::IAmCamera { road, mile, limit } => match self.role {
                Role::Unknown => {
                    self.role = Role::Camera { road, mile, limit };
                    ClientAction::BecomeCamera
                },
                Role::Camera { .. } => ClientAction::Fail(Failure::ExpectedCamera),
                Role::Dispatcher => ClientAction::Fail(Failure::ExpectedDispatcher),
            },
            MessageToServer::IAmDispatcher { roads } => match self.role {
                Role::Unknown => {
                    self.role = Role::Dispatcher;
                    ClientAction::BecomeDispatcher { roads }
                },
                Role::Camera { .. } => ClientAction::Fail(Failure::ExpectedCamera),
                Role::Dispatcher => ClientAction::Fail(Failure::ExpectedDispatcher),
            },
            MessageToServer::Plate { plate, timestamp } => match self.role {
                Role::Unknown => ClientAction::Fail(Failure::ExpectedInitial),
                Role::Camera { road, mile, limit } => ClientAction::Report {
                    road,
                    mile,
                    limit,
                    plate,
                    timestamp,
                },
                Role::Dispatcher => ClientAction::Fail(Failure::ExpectedDispatcher),
            },
        }
    }
}

/// A client says what it is at most once: once it is a camera or a
/// dispatcher, no message makes it anything else.
pub proof fn lemma_role_is_kept(role: Role, has_heartbeat: bool, message: ServerMessageView)
    requires
        role != Role::Unknown,
    ensures
        step(role, has_heartbeat, message).0 == role,
{
}

/// Only a camera reports plates, and with the road, the place and the limit
/// that it said when it said that it is a camera.
pub proof fn lemma_only_cameras_report(role: Role, has_heartbeat: bool, message: ServerMessageView)
    requires
        step(role, has_heartbeat, message).1 is Report,
    ensures
        role is Camera,
        message is Plate,
        step(role, has_heartbeat, message).1 == (ActionView::Report {
            road: role->road,
            mile: role->mile,
            limit: role->limit,
            plate: message->plate,
            timestamp: message->timestamp,
        }),
{
}

} // verus!
