//! The messages of the speed-camera service and the binary form of those
//! that the server sends.

use vstd::prelude::*;
use vstd::utf8::encode_utf8;
use bytes::BytesMut;
use crate::buffer::{
    be16, be32, buffer_bytes, buffer_put_u16, buffer_put_u32, buffer_put_u8,
};
use super::{HeartbeatInterval, Mile, Plate, Road, Speed, Timestamp};

verus! {

/// A message from the server to a client.
#[derive(Debug, PartialEq, Eq, Clone)]
pub enum MessageToClient {
    Error { msg: String },
    Ticket {
        plate: Plate,
        road: Road,
        mile1: Mile,
        timestamp1: Timestamp,
        mile2: Mile,
        timestamp2: Timestamp,
        speed: Speed,
    },
    Heartbeat,
}

/// A message to a client as a mathematical value.
pub enum ClientMessageView {
    Error { msg: Seq<char> },
    Ticket {
        plate: Seq<char>,
        road: u16,
        mile1: u16,
        timestamp1: u32,
        mile2: u16,
        timestamp2: u32,
        speed: u16,
    },
    Heartbeat,
}

impl View for MessageToClient {
    type V = ClientMessageView;

    open spec fn view(&self) -> ClientMessageView {
        match *self {
            MessageToClient::Error { msg } => ClientMessageView::Error { msg: msg@ },
            MessageToClient::Ticket {
                plate,
                road,
                mile1,
                timestamp1,
                mile2,
                timestamp2,
                speed,
            } => ClientMessageView::Ticket {
                plate: plate@,
                road,
                mile1,
                timestamp1,
                mile2,
                timestamp2,
                speed,
            },
            MessageToClient::Heartbeat => ClientMessageView::Heartbeat,
        }
    }
}

/// A message from a client to the server.
#[derive(Debug, PartialEq, Eq, Clone)]
pub enum MessageToServer {
    Plate { plate: Plate, timestamp: Timestamp },
    WantHeartbeat { interval: HeartbeatInterval },
    IAmCamera { road: Road, mile: Mile, limit: Speed },
    IAmDispatcher { roads: Vec<Road> },
}

/// A message to the server as a mathematical value.
pub enum ServerMessageView {
    Plate { plate: Seq<char>, timestamp: u32 },
    WantHeartbeat { interval: HeartbeatInterval },
    IAmCamera { road: u16, mile: u16, limit: u16 },
    IAmDispatcher { roads: Seq<u16> },
}

impl View for MessageToServer {
    type V = ServerMessageView;

    open spec fn view(&self) -> ServerMessageView {
        match *self {
            MessageToServer::Plate { plate, timestamp } => ServerMessageView::Plate {
                plate: plate@,
                timestamp,
            },
            MessageToServer::WantHeartbeat { interval } => ServerMessageView::WantHeartbeat {
                interval,
            },
            MessageToServer::IAmCamera { road, mile, limit } => ServerMessageView::IAmCamera {
                road,
                mile,
                limit,
            },
            MessageToServer::IAmDispatcher { roads } => ServerMessageView::IAmDispatcher {
                roads: roads@,
            },
        }
    }
}

/// A text on the wire: the number of its bytes, in one byte, and then its
/// bytes in UTF-8.
pub open spec fn text_field(text: Seq<char>) -> Seq<u8> {
    seq![encode_utf8(text).len() as u8] + encode_utf8(text)
}

/// Whether a text can be written: its UTF-8 form has at most 255 bytes.
pub open spec fn fits_text_field(text: Seq<char>) -> bool {
    encode_utf8(text).len() <= 255
}

/// Whether a message can be written: its text has at most 255 bytes.
pub open spec fn writable(m: ClientMessageView) -> bool {
    match m {
        ClientMessageView::Error { msg } => fits_text_field(msg),
        ClientMessageView::Ticket { plate, .. } => fits_text_field(plate),
        ClientMessageView::Heartbeat => true,
    }
}

/// The binary form of a message to a client.
pub open spec fn client_wire(m: ClientMessageView) -> Seq<u8> {
    match m {
        ClientMessageView::Error { msg } => seq![0x10u8] + text_field(msg),
        ClientMessageView::Ticket { plate, road, mile1, timestamp1, mile2, timestamp2, speed } => {
            seq![0x21u8] + text_field(plate) + be16(road) + be16(mile1) + be32(timestamp1) + be16(
                mile2,
            ) + be32(timestamp2) + be16(speed)
        },
        ClientMessageView::Heartbeat => seq![0x41u8],
    }
}

fn put_text(dst: &mut BytesMut, text: &str)
    requires
        fits_text_field(text@),
        buffer_bytes(*old(dst)).len() + 256 <= usize::MAX,
    ensures
        buffer_bytes(*final(dst)) == buffer_bytes(*old(dst)) + text_field(text@),
{
    let bytes = text.as_bytes();
    buffer_put_u8(dst, bytes.len() as u8);
    dst.extend_from_slice(bytes);
    assert(buffer_bytes(*dst) =~= buffer_bytes(*old(dst)) + text_field(text@));
}

impl MessageToClient {
    /// An error message with the given text.
    pub fn error(message: &str) -> (error: Self)
        ensures
            error@ == (ClientMessageView::Error { msg: message@ }),
    {
        MessageToClient::Error { msg: message.to_owned() }
    }

    /// Appends the message's binary form to `dst`.
    pub fn into_bytes_mut(&self, dst: &mut BytesMut)
        requires
            writable(self@),
            buffer_bytes(*old(dst)).len() + 512 <= usize::MAX,
        ensures
            buffer_bytes(*final(dst)) == buffer_bytes(*old(dst)) + client_wire(self@),
    {
        match self {
            MessageToClient::Error { msg } => {
                dst.reserve(1 + 1 + msg.as_str().as_bytes().len());
                buffer_put_u8(dst, 0x10);
                put_text(dst, msg.as_str());
            },
            MessageToClient::Ticket {
                plate,
                road,
                mile1,
                timestamp1,
                mile2,
                timestamp2,
                speed,
            } => {
                dst.reserve(1 + 1 + plate.as_str().as_bytes().len() + 2 + 2 + 4 + 2 + 4 + 2);
                buffer_put_u8(dst, 0x21);
                put_text(dst, plate.as_str());
                buffer_put_u16(dst, *road);
                buffer_put_u16(dst, *mile1);
                buffer_put_u32(dst, *timestamp1);
                buffer_put_u16(dst, *mile2);
                buffer_put_u32(dst, *timestamp2);
                buffer_put_u16(dst, *speed);
            },
            MessageToClient::Heartbeat => {
                buffer_put_u8(dst, 0x41);
            },
        }
        assert(buffer_bytes(*dst) =~= buffer_bytes(*old(dst)) + client_wire(self@));
    }

    /// Whether the message can be written: its text has at most 255 bytes.
    pub fn is_writable(&self) -> (fits: bool)
        ensures
            fits == writable(self@),
    {
        match self {
            MessageToClient::Error { msg } => msg.as_str().as_bytes().len() <= 0xFF,
            MessageToClient::Ticket { plate, .. } => plate.as_str().as_bytes().len() <= 0xFF,
            MessageToClient::Heartbeat => true,
        }
    }

    /// Whether the message is an error.
    pub fn is_error(&self) -> (error: bool)
        ensures
            error == (self@ is Error),
    {
        match self {
            MessageToClient::Error { .. } => true,
            _ => false,
        }
    }
}

} // verus!
