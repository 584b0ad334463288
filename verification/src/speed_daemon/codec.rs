//! Framing of the speed-camera messages on a byte buffer.

use vstd::prelude::*;
use bytes::BytesMut;
use crate::buffer::{buffer_advance, buffer_bytes, buffer_slice};
use super::message::{client_wire, writable, MessageToClient, MessageToServer};
use super::parse::{parse_message_to_server, parse_server_spec, ParseError, Parsed};

verus! {

/// Reads messages to the server from a buffer that fills as bytes arrive.
#[derive(Debug)]
pub struct MessageToServerDecoder;

impl MessageToServerDecoder {
    /// Takes the next message from the front of `src`.
    ///
    /// Where `src` begins with a whole message, the message is handed back
    /// and its bytes leave the buffer. Where it holds the beginning of one,
    /// or nothing, there is no message yet and the buffer stays as it is.
    /// Where it begins with what can never become a message, that is an
    /// error, and the buffer stays as it is.
    pub fn decode(&mut self, src: &mut BytesMut) -> (decoded: Result<
        Option<MessageToServer>,
        ParseError,
    >)
        ensures
            match parse_server_spec(buffer_bytes(*old(src))) {
                Parsed::Done(message, used) => {
                    &&& decoded matches Ok(Some(m)) && m@ == message
                    &&& buffer_bytes(*final(src)) == buffer_bytes(*old(src)).skip(used)
                },
                Parsed::Incomplete => decoded == Ok::<Option<MessageToServer>, ParseError>(None)
                    && buffer_bytes(*final(src)) == buffer_bytes(*old(src)),
                Parsed::Invalid => decoded == Err::<Option<MessageToServer>, ParseError>(
                    ParseError::Invalid,
                ) && buffer_bytes(*final(src)) == buffer_bytes(*old(src)),
            },
    {
        if src.is_empty() {
            return Ok(None);
        }
        let bytes = buffer_slice(src);
        let (used, message) = match parse_message_to_server(bytes) {
            Ok((rest, message)) => (bytes.len() - rest.len(), message),
            Err(ParseError::Incomplete) => {
                return Ok(None);
            },
            Err(ParseError::Invalid) => {
                return Err(ParseError::Invalid);
            },
        };
        buffer_advance(src, used);
        Ok(Some(message))
    }
}

/// Writes messages to a client into a buffer.
#[derive(Debug)]
pub struct MessageToClientEncoder;

impl MessageToClientEncoder {
    /// Appends the binary form of `item` to `dst`.
    pub fn encode(&mut self, item: MessageToClient, dst: &mut BytesMut)
        requires
            writable(item@),
            buffer_bytes(*old(dst)).len() + 512 <= usize::MAX,
        ensures
            buffer_bytes(*final(dst)) == buffer_bytes(*old(dst)) + client_wire(item@),
    {
        item.into_bytes_mut(dst);
    }
}

} // verus!
