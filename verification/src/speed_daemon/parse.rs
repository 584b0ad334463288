//! Reading the binary form of the speed-camera messages from a stream.
//!
//! A message starts with one byte that says which message it is. Numbers are
//! big-endian. A text is its length in one byte, then its bytes in UTF-8.
//! Bytes arrive in pieces: what is there may be a message and more, or the
//! beginning of one, or nothing that can become one.

use vstd::prelude::*;
use vstd::utf8::{decode_utf8, valid_utf8};
use vstd::string::StringSliceAdditionalSpecFns;
use vstd::utf8::encode_utf8;
use crate::buffer::{be16, be32};
use super::message::{
    client_wire, text_field, writable, ClientMessageView, MessageToClient, MessageToServer,
    ServerMessageView,
};
use super::HeartbeatInterval;

verus! {

/// Why no message was read.
#[derive(Debug, Clone, Copy, PartialEq, Eq, Structural)]
pub enum ParseError {
    /// The bytes may be the beginning of a message: more are needed.
    Incomplete,
    /// The bytes are not the beginning of any message.
    Invalid,
}

/// What the front of a byte stream holds.
pub enum Parsed<T> {
    /// A whole message, which takes up so many bytes.
    Done(T, int),
    /// The beginning of a message.
    Incomplete,
    /// Nothing that can become a message.
    Invalid,
}

/// The number that two bytes at `at` denote.
pub open spec fn read_be16(s: Seq<u8>, at: int) -> u16 {
    (s[at] * 256 + s[at + 1]) as u16
}

/// The number that four bytes at `at` denote.
pub open spec fn read_be32(s: Seq<u8>, at: int) -> u32 {
    (s[at] * 16777216 + s[at + 1] * 65536 + s[at + 2] * 256 + s[at + 3]) as u32
}

/// A text at `at`: its characters and the index behind it.
pub open spec fn read_text(s: Seq<u8>, at: int) -> Parsed<Seq<char>> {
    if at >= s.len() || at + 1 + s[at] > s.len() {
        Parsed::Incomplete
    } else {
        let bytes = s.subrange(at + 1, at + 1 + s[at]);
        if valid_utf8(bytes) {
            Parsed::Done(decode_utf8(bytes), at + 1 + s[at])
        } else {
            Parsed::Invalid
        }
    }
}

/// `count` road numbers from `at` on.
pub open spec fn read_roads(s: Seq<u8>, at: int, count: int) -> Seq<u16> {
    Seq::new(count as nat, |i: int| read_be16(s, at + 2 * i))
}

/// The message to a client that the bytes begin with.
pub open spec fn parse_client_spec(s: Seq<u8>) -> Parsed<ClientMessageView> {
    if s.len() == 0 {
        Parsed::Incomplete
    } else if s[0] == 0x10 {
        match read_text(s, 1) {
            Parsed::Done(msg, end) => Parsed::Done(ClientMessageView::Error { msg }, end),
            Parsed::Incomplete => Parsed::Incomplete,
            Parsed::Invalid => Parsed::Invalid,
        }
    } else if s[0] == 0x21 {
        match read_text(s, 1) {
            Parsed::Done(plate, end) => if end + 16 <= s.len() {
                Parsed::Done(
                    ClientMessageView::Ticket {
                        plate,
                        road: read_be16(s, end),
                        mile1: read_be16(s, end + 2),
                        timestamp1: read_be32(s, end + 4),
                        mile2: read_be16(s, end + 8),
                        timestamp2: read_be32(s, end + 10),
                        speed: read_be16(s, end + 14),
                    },
                    end + 16,
                )
            } else {
                Parsed::Incomplete
            },
            Parsed::Incomplete => Parsed::Incomplete,
            Parsed::Invalid => Parsed::Invalid,
        }
    } else if s[0] == 0x41 {
        Parsed::Done(ClientMessageView::Heartbeat, 1)
    } else {
        Parsed::Invalid
    }
}

/// The message to the server that the bytes begin with.
pub open spec fn parse_server_spec(s: Seq<u8>) -> Parsed<ServerMessageView> {
    if s.len() == 0 {
        Parsed::Incomplete
    } else if s[0] == 0x20 {
        match read_text(s, 1) {
            Parsed::Done(plate, end) => if end + 4 <= s.len() {
                Parsed::Done(
                    ServerMessageView::Plate { plate, timestamp: read_be32(s, end) },
                    end + 4,
                )
            } else {
                Parsed::Incomplete
            },
            Parsed::Incomplete => Parsed::Incomplete,
            Parsed::Invalid => Parsed::Invalid,
        }
    } else if s[0] == 0x40 {
        if s.len() >= 5 {
            Parsed::Done(
                ServerMessageView::WantHeartbeat {
                    interval: HeartbeatInterval { millis: (read_be32(s, 1) * 100) as u64 },
                },
                5,
            )
        } else {
            Parsed::Incomplete
        }
    } else if s[0] == 0x80 {
        if s.len() >= 7 {
            Parsed::Done(
                ServerMessageView::IAmCamera {
                    road: read_be16(s, 1),
                    mile: read_be16(s, 3),
                    limit: read_be16(s, 5),
                },
                7,
            )
        } else {
            Parsed::Incomplete
        }
    } else if s[0] == 0x81 {
        if s.len() >= 2 && s.len() >= 2 + 2 * s[1] {
            Parsed::Done(
                ServerMessageView::IAmDispatcher { roads: read_roads(s, 2, s[1] as int) },
                2 + 2 * s[1],
            )
        } else {
            Parsed::Incomplete
        }
    } else {
        Parsed::Invalid
    }
}

/// `std::str::from_utf8`: the text that the bytes are, where they are valid
/// UTF-8, and none where they are not.
#[verifier::external_body]
fn text_of(bytes: &[u8]) -> (text: Option<&str>)
    ensures
        match text {
            Some(t) => valid_utf8(bytes@) && t.spec_bytes() == bytes@,
            None => !valid_utf8(bytes@),
        },
{
    match std::str::from_utf8(bytes) {
        Ok(text) => Some(text),
        Err(_) => None,
    }
}

fn be16_at(input: &[u8], at: usize) -> (n: u16)
    requires
        at + 2 <= input@.len(),
    ensures
        n == read_be16(input@, at as int),
{
    (input[at] as u16) * 256 + (input[at + 1] as u16)
}

fn be32_at(input: &[u8], at: usize) -> (n: u32)
    requires
        at + 4 <= input@.len(),
    ensures
        n == read_be32(input@, at as int),
{
    (input[at] as u32) * 16777216 + (input[at + 1] as u32) * 65536 + (input[at + 2] as u32) * 256
        + (input[at + 3] as u32)
}

/// A text at `at`.
fn parse_str(input: &[u8], at: usize) -> (text: Result<(String, usize), ParseError>)
    requires
        at <= input@.len(),
    ensures
        match text {
            Ok((t, end)) => at < end <= input@.len() && read_text(input@, at as int)
                == Parsed::Done(t@, end as int),
            Err(ParseError::Incomplete) => read_text(input@, at as int) is Incomplete,
            Err(ParseError::Invalid) => read_text(input@, at as int) is Invalid,
        },
{
    if at >= input.len() {
        return Err(ParseError::Incomplete);
    }
    let len = input[at] as usize;
    if input.len() - at - 1 < len {
        return Err(ParseError::Incomplete);
    }
    let bytes = vstd::slice::slice_subrange(input, at + 1, at + 1 + len);
    match text_of(bytes) {
        Some(text) => {
            proof {
                vstd::utf8::decode_utf8_encode_utf8(bytes@);
                vstd::utf8::encode_utf8_decode_utf8(text@);
            }
            Ok((text.to_owned(), at + 1 + len))
        },
        None => Err(ParseError::Invalid),
    }
}

fn rest_from(input: &[u8], at: usize) -> (rest: &[u8])
    requires
        at <= input@.len(),
    ensures
        rest@ == input@.skip(at as int),
{
    let rest = vstd::slice::slice_subrange(input, at, input.len());
    assert(rest@ =~= input@.skip(at as int));
    rest
}

/// Reads the message to a client that `input` begins with, and hands back
/// what follows it.
pub fn parse_message_to_client(input: &[u8]) -> (parsed: Result<
    (&[u8], MessageToClient),
    ParseError,
>)
    ensures
        match parsed {
            Ok((rest, message)) => rest@.len() <= input@.len() && parse_client_spec(input@)
                == Parsed::Done(message@, input@.len() - rest@.len()) && rest@ == input@.skip(
                input@.len() - rest@.len(),
            ),
            Err(ParseError::Incomplete) => parse_client_spec(input@) is Incomplete,
            Err(ParseError::Invalid) => parse_client_spec(input@) is Invalid,
        },
{
    if input.len() == 0 {
        return Err(ParseError::Incomplete);
    }
    let kind = input[0];
    if kind == 0x10 {
        match parse_str(input, 1) {
            Ok((msg, end)) => Ok((rest_from(input, end), MessageToClient::Error { msg })),
            Err(error) => Err(error),
        }
    } else if kind == 0x21 {
        match parse_str(input, 1) {
            Ok((plate, end)) => {
                if input.len() - end < 16 {
                    return Err(ParseError::Incomplete);
                }
                let message = MessageToClient::Ticket {
                    plate,
                    road: be16_at(input, end),
                    mile1: be16_at(input, end + 2),
                    timestamp1: be32_at(input, end + 4),
                    mile2: be16_at(input, end + 8),
                    timestamp2: be32_at(input, end + 10),
                    speed: be16_at(input, end + 14),
                };
                Ok((rest_from(input, end + 16), message))
            },
            Err(error) => Err(error),
        }
    } else if kind == 0x41 {
        Ok((rest_from(input, 1), MessageToClient::Heartbeat))
    } else {
        Err(ParseError::Invalid)
    }
}

/// Reads the message to the server that `input` begins with, and hands back
/// what follows it.
pub fn parse_message_to_server(input: &[u8]) -> (parsed: Result<
    (&[u8], MessageToServer),
    ParseError,
>)
    ensures
        match parsed {
            Ok((rest, message)) => rest@.len() <= input@.len() && parse_server_spec(input@)
                == Parsed::Done(message@, input@.len() - rest@.len()) && rest@ == input@.skip(
                input@.len() - rest@.len(),
            ),
            Err(ParseError::Incomplete) => parse_server_spec(input@) is Incomplete,
            Err(ParseError::Invalid) => parse_server_spec(input@) is Invalid,
        },
{
    if input.len() == 0 {
        return Err(ParseError::Incomplete);
    }
    let kind = input[0];
    if kind == 0x20 {
        match parse_str(input, 1) {
            Ok((plate, end)) => {
                if input.len() - end < 4 {
                    return Err(ParseError::Incomplete);
                }
                let message = MessageToServer::Plate { plate, timestamp: be32_at(input, end) };
                Ok((rest_from(input, end + 4), message))
            },
            Err(error) => Err(error),
        }
    } else if kind == 0x40 {
        if input.len() < 5 {
            return Err(ParseError::Incomplete);
        }
        let raw = be32_at(input, 1);
        let interval = HeartbeatInterval::from_millis((raw as u64) * 100);
        Ok((rest_from(input, 5), MessageToServer::WantHeartbeat { interval }))
    } else if kind == 0x80 {
        if input.len() < 7 {
            return Err(ParseError::Incomplete);
        }
        let message = MessageToServer::IAmCamera {
            road: be16_at(input, 1),
            mile: be16_at(input, 3),
            limit: be16_at(input, 5),
        };
        Ok((rest_from(input, 7), message))
    } else if kind == 0x81 {
        if input.len() < 2 {
            return Err(ParseError::Incomplete);
        }
        let count = input[1] as usize;
        if input.len() - 2 < 2 * count {
            return Err(ParseError::Incomplete);
        }
        let mut roads: Vec<u16> = Vec::new();
        let mut i: usize = 0;
        while i < count
            invariant
                i <= count,
                count == input@[1],
                2 + 2 * count <= input@.len(),
                roads@ == read_roads(input@, 2, i as int),
            decreases count - i,
        {
            roads.push(be16_at(input, 2 + 2 * i));
            i += 1;
            assert(roads@ =~= read_roads(input@, 2, i as int));
        }
        Ok((rest_from(input, 2 + 2 * count), MessageToServer::IAmDispatcher { roads }))
    } else {
        Err(ParseError::Invalid)
    }
}

/// A number of two bytes reads back as it was written.
pub proof fn lemma_be16_round_trip(s: Seq<u8>, at: int, n: u16)
    requires
        0 <= at,
        at + 2 <= s.len(),
        s.subrange(at, at + 2) == be16(n),
    ensures
        read_be16(s, at) == n,
{
    let two = s.subrange(at, at + 2);
    assert(two[0] == s[at]);
    assert(two[1] == s[at + 1]);
}

/// A number of four bytes reads back as it was written.
pub proof fn lemma_be32_round_trip(s: Seq<u8>, at: int, n: u32)
    requires
        0 <= at,
        at + 4 <= s.len(),
        s.subrange(at, at + 4) == be32(n),
    ensures
        read_be32(s, at) == n,
{
    let four = s.subrange(at, at + 4);
    assert(four[0] == s[at]);
    assert(four[1] == s[at + 1]);
    assert(four[2] == s[at + 2]);
    assert(four[3] == s[at + 3]);
}

/// A text reads back as it was written, where it was short enough to be
/// written.
pub proof fn lemma_text_round_trip(s: Seq<u8>, at: int, text: Seq<char>)
    requires
        0 <= at,
        encode_utf8(text).len() <= 255,
        at + text_field(text).len() <= s.len(),
        s.subrange(at, at + text_field(text).len()) == text_field(text),
    ensures
        read_text(s, at) == Parsed::Done(text, at + text_field(text).len()),
{
    let field = s.subrange(at, at + text_field(text).len());
    let bytes = encode_utf8(text);
    assert(field[0] == s[at]);
    assert(s[at] == bytes.len());
    assert(s.subrange(at + 1, at + 1 + s[at]) =~= bytes) by {
        assert forall|i: int| 0 <= i < bytes.len() implies s[at + 1 + i] == bytes[i] by {
            assert(field[1 + i] == s[at + 1 + i]);
        }
    }
    vstd::utf8::encode_utf8_valid_utf8(text);
    vstd::utf8::encode_utf8_decode_utf8(text);
}

/// Reading undoes writing: a message to a client that was short enough to
/// be written reads back from its binary form as it was, whatever follows
/// it, and takes up exactly its binary form.
pub proof fn lemma_client_round_trip(m: ClientMessageView, rest: Seq<u8>)
    requires
        writable(m),
    ensures
        parse_client_spec(client_wire(m) + rest) == Parsed::Done(m, client_wire(m).len() as int),
{
    let wire = client_wire(m);
    let s = wire + rest;
    match m {
        ClientMessageView::Error { msg } => {
            assert(s[0] == 0x10u8);
            assert(s.subrange(1, 1 + text_field(msg).len() as int) =~= text_field(msg));
            lemma_text_round_trip(s, 1, msg);
        },
        ClientMessageView::Ticket { plate, road, mile1, timestamp1, mile2, timestamp2, speed } => {
            let end: int = 1 + text_field(plate).len() as int;
            assert(s[0] == 0x21u8);
            assert(s.subrange(1, end) =~= text_field(plate));
            lemma_text_round_trip(s, 1, plate);
            assert(s.subrange(end, end + 2) =~= be16(road));
            assert(s.subrange(end + 2, end + 4) =~= be16(mile1));
            assert(s.subrange(end + 4, end + 8) =~= be32(timestamp1));
            assert(s.subrange(end + 8, end + 10) =~= be16(mile2));
            assert(s.subrange(end + 10, end + 14) =~= be32(timestamp2));
            assert(s.subrange(end + 14, end + 16) =~= be16(speed));
            lemma_be16_round_trip(s, end, road);
            lemma_be16_round_trip(s, end + 2, mile1);
            lemma_be32_round_trip(s, end + 4, timestamp1);
            lemma_be16_round_trip(s, end + 8, mile2);
            lemma_be32_round_trip(s, end + 10, timestamp2);
            lemma_be16_round_trip(s, end + 14, speed);
        },
        ClientMessageView::Heartbeat => {
            assert(s[0] == 0x41u8);
        },
    }
}

} // verus!
