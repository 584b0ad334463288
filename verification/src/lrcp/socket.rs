//! What the endpoint does with one datagram: it reads the message, lets the
//! session table act on it, and says what has to go back to the peer and on
//! to the application.

use vstd::prelude::*;
use super::message::{
    encode_spec, lemma_decimal_len, message_views, parse_spec, LrcpMessage, LrcpMessageError,
    MessageView,
};
use super::session_write::lemma_chunks_fit;
use super::state::{fresh_bytes, LrcpState, SessionView};
use super::{LrcpSessionError, LrcpSessionHandle, LrcpSessionState, PeerAddr, MAX_PACKET_SIZE};

verus! {

/// What one datagram leads to, besides the change of the table.
#[derive(Debug)]
pub struct PacketOutcome {
    /// The message that the peer is owed, if any.
    pub reply: Option<LrcpMessage>,
    /// The data messages to send again at once.
    pub packets: Vec<LrcpMessage>,
    /// A session was created: its two ends are to be handed to the
    /// application.
    pub opened: bool,
    /// The bytes to hand to the read side of the session, which may be none.
    pub delivered: Vec<u8>,
    /// The session was removed: its read side is to be told why.
    pub ended: Option<LrcpSessionError>,
    /// A writer or closer that waits on the session's send buffer is to be
    /// woken.
    pub wake: bool,
}

/// A `PacketOutcome` as a mathematical value.
pub struct OutcomeView {
    pub reply: Option<MessageView>,
    pub packets: Seq<MessageView>,
    pub opened: bool,
    pub delivered: Seq<u8>,
    pub ended: Option<LrcpSessionError>,
    pub wake: bool,
}

impl View for PacketOutcome {
    type V = OutcomeView;

    open spec fn view(&self) -> OutcomeView {
        OutcomeView {
            reply: match self.reply {
                Some(message) => Some(message@),
                None => None,
            },
            packets: message_views(self.packets@),
            opened: self.opened,
            delivered: self.delivered@,
            ended: self.ended,
            wake: self.wake,
        }
    }
}

/// The outcome of a datagram that leads to nothing.
pub open spec fn silence() -> OutcomeView {
    OutcomeView {
        reply: None,
        packets: Seq::<MessageView>::empty(),
        opened: false,
        delivered: Seq::<u8>::empty(),
        ended: None,
        wake: false,
    }
}

/// The session that a message from `peer` is about.
pub open spec fn addressed(peer: PeerAddr, message: MessageView) -> LrcpSessionHandle {
    LrcpSessionHandle {
        peer,
        session: match message {
            MessageView::Connect { session } => session,
            MessageView::Data { session, .. } => session,
            MessageView::Ack { session, .. } => session,
            MessageView::Close { session } => session,
        },
    }
}

/// The table after a message from `peer`.
pub open spec fn table_after(
    table: Map<LrcpSessionHandle, SessionView>,
    peer: PeerAddr,
    message: MessageView,
) -> Map<LrcpSessionHandle, SessionView> {
    let handle = addressed(peer, message);
    match message {
        MessageView::Connect { session } => if table.dom().contains(handle) {
            table
        } else {
            table.insert(handle, SessionView::opened(session))
        },
        MessageView::Data { position, data, .. } => if table.dom().contains(handle) {
            table.insert(handle, table[handle].after_data(position, data))
        } else {
            table
        },
        MessageView::Ack { length, .. } => if !table.dom().contains(handle) {
            table
        } else if length > table[handle].send.sent() {
            table.remove(handle)
        } else {
            table.insert(
                handle,
                SessionView { send: table[handle].send.after_ack(length), ..table[handle] },
            )
        },
        MessageView::Close { .. } => table.remove(handle),
    }
}

/// What a message from `peer` leads to, for the table as it was before the
/// message.
pub open spec fn outcome_of(
    table: Map<LrcpSessionHandle, SessionView>,
    peer: PeerAddr,
    message: MessageView,
) -> OutcomeView {
    let handle = addressed(peer, message);
    let known = table.dom().contains(handle);
    match message {
        MessageView::Connect { session } => OutcomeView {
            reply: if !known || table[handle].state == LrcpSessionState::Opening {
                Some(MessageView::Ack { session, length: 0 })
            } else {
                None
            },
            opened: !known,
            ..silence()
        },
        MessageView::Data { session, position, data } => if known {
            OutcomeView {
                reply: Some(
                    MessageView::Ack {
                        session,
                        length: table[handle].after_data(position, data).received,
                    },
                ),
                delivered: fresh_bytes(table[handle].received, position, data),
                ..silence()
            }
        } else {
            silence()
        },
        MessageView::Ack { session, length } => if !known {
            OutcomeView { reply: Some(MessageView::Close { session }), ..silence() }
        } else if length > table[handle].send.sent() {
            OutcomeView {
                reply: Some(MessageView::Close { session }),
                ended: Some(LrcpSessionError::PeerMisbehaved),
                ..silence()
            }
        } else {
            OutcomeView {
                packets: table[handle].send.ack_packets(length),
                wake: table[handle].send.base < length,
                ..silence()
            }
        },
        MessageView::Close { session } => OutcomeView {
            reply: Some(MessageView::Close { session }),
            ended: if known {
                Some(LrcpSessionError::PeerClosed)
            } else {
                None
            },
            ..silence()
        },
    }
}

/// Reads one datagram.
pub fn receive(packet: &[u8]) -> (message: Result<LrcpMessage, LrcpMessageError>)
    ensures
        match message {
            Ok(m) => parse_spec(packet@) == Some(m@),
            Err(error) => parse_spec(packet@) is None && error == LrcpMessageError::Parse,
        },
{
    LrcpMessage::from(packet)
}

impl LrcpState {
    /// One datagram from `peer`.
    ///
    /// A datagram that is no message is dropped: nothing changes and
    /// nothing is sent. Else the table acts on the message, and the outcome
    /// says what the peer and the application are owed.
    pub fn handle_packet(&mut self, packet: &[u8], peer: PeerAddr) -> (outcome: PacketOutcome)
        requires
            old(self).well_formed(),
        ensures
            final(self).well_formed(),
            match parse_spec(packet@) {
                Some(message) => {
                    &&& final(self)@ == table_after(old(self)@, peer, message)
                    &&& outcome@ == outcome_of(old(self)@, peer, message)
                },
                None => final(self)@ == old(self)@ && outcome@ == silence(),
            },
    {
        let mut outcome = PacketOutcome {
            reply: None,
            packets: Vec::new(),
            opened: false,
            delivered: Vec::new(),
            ended: None,
            wake: false,
        };
        assert(outcome@.packets =~= silence().packets);
        let message = match receive(packet) {
            Ok(message) => message,
            Err(_) => {
                return outcome;
            },
        };
        match message {
            LrcpMessage::Connect { session } => {
                let connected = self.handle_connect(LrcpSessionHandle { peer, session });
                if connected.must_ack {
                    outcome.reply = Some(LrcpMessage::Ack { session, length: 0 });
                }
                outcome.opened = connected.opened;
            },
            LrcpMessage::Data { session, position, data } => {
                let taken = self.handle_data(LrcpSessionHandle { peer, session }, position, data);
                match taken.ack {
                    Some(length) => {
                        outcome.reply = Some(LrcpMessage::Ack { session, length });
                    },
                    None => {},
                }
                outcome.delivered = taken.delivered;
            },
            LrcpMessage::Ack { session, length } => {
                let report = self.handle_ack(LrcpSessionHandle { peer, session }, length);
                if report.close {
                    outcome.reply = Some(LrcpMessage::Close { session });
                }
                outcome.ended = report.ended;
                outcome.wake = report.wake;
                outcome.packets = report.packets;
            },
            LrcpMessage::Close { session } => {
                outcome.ended = self.handle_close(LrcpSessionHandle { peer, session });
                outcome.reply = Some(LrcpMessage::Close { session });
            },
        }
        proof {
            let expected = outcome_of(old(self)@, peer, message@);
            assert(outcome@.packets =~= expected.packets);
            assert(outcome@.delivered =~= expected.delivered);
        }
        outcome
    }
}

// ---------------------------------------------------------------------------
// What holds of every table and every message
// ---------------------------------------------------------------------------

/// Connecting is idempotent: of two connect messages in a row for a handle
/// that had no session, the first creates exactly one session, the second
/// creates none and changes nothing, and each is answered by an
/// acknowledgment of length 0.
pub proof fn lemma_connect_idempotent(
    table: Map<LrcpSessionHandle, SessionView>,
    peer: PeerAddr,
    session: u32,
)
    requires
        !table.dom().contains(LrcpSessionHandle { peer, session }),
    ensures
        ({
            let connect = MessageView::Connect { session };
            let handle = LrcpSessionHandle { peer, session };
            let once = table_after(table, peer, connect);
            let twice = table_after(once, peer, connect);
            let ack = Some(MessageView::Ack { session, length: 0 });
            &&& once == table.insert(handle, SessionView::opened(session))
            &&& once.dom() == table.dom().insert(handle)
            &&& twice == once
            &&& outcome_of(table, peer, connect).reply == ack
            &&& outcome_of(table, peer, connect).opened
            &&& outcome_of(once, peer, connect).reply == ack
            &&& !outcome_of(once, peer, connect).opened
        }),
{
    let handle = LrcpSessionHandle { peer, session };
    let once = table_after(table, peer, MessageView::Connect { session });
    assert(once.dom() =~= table.dom().insert(handle));
}

/// A data message that starts behind a gap is not delivered: the session
/// has received as much as before, nothing goes to the application, and the
/// peer is told again how much was received.
pub proof fn lemma_out_of_order_data(
    table: Map<LrcpSessionHandle, SessionView>,
    peer: PeerAddr,
    session: u32,
    position: u32,
    data: Seq<u8>,
)
    requires
        table.dom().contains(LrcpSessionHandle { peer, session }),
        position > table[LrcpSessionHandle { peer, session }].received,
    ensures
        ({
            let message = MessageView::Data { session, position, data };
            let handle = LrcpSessionHandle { peer, session };
            &&& table_after(table, peer, message)[handle].received == table[handle].received
            &&& outcome_of(table, peer, message).delivered == Seq::<u8>::empty()
            &&& outcome_of(table, peer, message).reply == Some(
                MessageView::Ack { session, length: table[handle].received },
            )
        }),
{
}

/// A data message that overlaps what was received is delivered without the
/// bytes that were received before: only what lies behind them goes to the
/// application, and the session has then received up to the message's end.
pub proof fn lemma_overlap_filtered(
    table: Map<LrcpSessionHandle, SessionView>,
    peer: PeerAddr,
    session: u32,
    position: u32,
    data: Seq<u8>,
)
    requires
        table.dom().contains(LrcpSessionHandle { peer, session }),
        position <= table[LrcpSessionHandle { peer, session }].received < position + data.len()
            <= u32::MAX,
    ensures
        ({
            let message = MessageView::Data { session, position, data };
            let handle = LrcpSessionHandle { peer, session };
            let received = table[handle].received;
            &&& outcome_of(table, peer, message).delivered == data.skip(received - position)
            &&& table_after(table, peer, message)[handle].received == position + data.len()
            &&& outcome_of(table, peer, message).reply == Some(
                MessageView::Ack { session, length: (position + data.len()) as u32 },
            )
        }),
{
}

/// A data message that brings nothing new changes nothing but the
/// session's state: so a message that arrives twice is delivered once.
pub proof fn lemma_duplicate_data(received: u32, position: u32, data: Seq<u8>)
    ensures
        ({
            let fresh = fresh_bytes(received, position, data);
            let then = (received + fresh.len()) as u32;
            &&& received + fresh.len() <= u32::MAX
            &&& position + data.len() <= u32::MAX ==> fresh_bytes(then, position, data).len() == 0
        }),
{
}

/// Delivery is in order and without gaps: where a data message holds the
/// bytes of the peer's stream at its position, a session that has received
/// the first `received` bytes of the stream has, after the message, received
/// a longer prefix of the same stream.
pub proof fn lemma_delivery_in_order(stream: Seq<u8>, received: u32, position: u32, data: Seq<u8>)
    requires
        received <= stream.len(),
        position + data.len() <= stream.len(),
        data == stream.subrange(position as int, position + data.len()),
    ensures
        ({
            let fresh = fresh_bytes(received, position, data);
            stream.take(received as int) + fresh == stream.take(received + fresh.len())
        }),
{
    let fresh = fresh_bytes(received, position, data);
    assert(stream.take(received as int) + fresh =~= stream.take(received + fresh.len()));
}

/// What a session has received after a list of data messages, each given
/// by its position and its payload, and the bytes that went to the
/// application on the way.
pub open spec fn received_after(received: u32, messages: Seq<(u32, Seq<u8>)>) -> (u32, Seq<u8>)
    decreases messages.len(),
{
    if messages.len() == 0 {
        (received, Seq::<u8>::empty())
    } else {
        let (before, delivered) = received_after(received, messages.drop_last());
        let fresh = fresh_bytes(before, messages.last().0, messages.last().1);
        ((before + fresh.len()) as u32, delivered + fresh)
    }
}

/// The application gets the peer's stream, and nothing else: whatever data
/// messages arrive, in whatever order and however often, provided that each
/// holds the bytes of the peer's stream at its position, the bytes that go
/// to the application continue the stream where the session had received
/// it, without a gap and without a byte twice.
pub proof fn lemma_stream_is_delivered_in_order(
    stream: Seq<u8>,
    received: u32,
    messages: Seq<(u32, Seq<u8>)>,
)
    requires
        received <= stream.len(),
        forall|i: int|
            0 <= i < messages.len() ==> (#[trigger] messages[i]).0 + messages[i].1.len()
                <= stream.len() && messages[i].1 == stream.subrange(
                messages[i].0 as int,
                messages[i].0 + messages[i].1.len(),
            ),
    ensures
        received <= received_after(received, messages).0 <= stream.len(),
        stream.take(received as int) + received_after(received, messages).1 == stream.take(
            received_after(received, messages).0 as int,
        ),
    decreases messages.len(),
{
    if messages.len() == 0 {
        assert(stream.take(received as int) + Seq::<u8>::empty() =~= stream.take(
            received as int,
        ));
    } else {
        let earlier = messages.drop_last();
        assert forall|i: int| 0 <= i < earlier.len() implies (#[trigger] earlier[i]).0
            + earlier[i].1.len() <= stream.len() && earlier[i].1 == stream.subrange(
            earlier[i].0 as int,
            earlier[i].0 + earlier[i].1.len(),
        ) by {
            assert(earlier[i] == messages[i]);
        }
        lemma_stream_is_delivered_in_order(stream, received, earlier);
        let (before, delivered) = received_after(received, earlier);
        let last = messages.last();
        assert(last == messages[messages.len() - 1]);
        let fresh = fresh_bytes(before, last.0, last.1);
        lemma_delivery_in_order(stream, before, last.0, last.1);
        assert(stream.take(received as int) + (delivered + fresh) =~= stream.take(
            before as int,
        ) + fresh);
    }
}

/// A peer that acknowledges more than was ever sent loses its session: the
/// session is removed from the table, its read side is told of the
/// misbehavior, and the peer is sent a close message.
pub proof fn lemma_misbehavior_ends_session(
    table: Map<LrcpSessionHandle, SessionView>,
    peer: PeerAddr,
    session: u32,
    length: u32,
)
    requires
        table.dom().contains(LrcpSessionHandle { peer, session }),
        length > table[LrcpSessionHandle { peer, session }].send.sent(),
    ensures
        ({
            let message = MessageView::Ack { session, length };
            let handle = LrcpSessionHandle { peer, session };
            &&& !table_after(table, peer, message).dom().contains(handle)
            &&& outcome_of(table, peer, message).ended == Some(LrcpSessionError::PeerMisbehaved)
            &&& outcome_of(table, peer, message).reply == Some(MessageView::Close { session })
        }),
{
}

/// A message touches no session but the one it is addressed to.
pub proof fn lemma_sessions_are_isolated(
    table: Map<LrcpSessionHandle, SessionView>,
    peer: PeerAddr,
    message: MessageView,
    other: LrcpSessionHandle,
)
    requires
        other != addressed(peer, message),
    ensures
        table_after(table, peer, message).dom().contains(other) == table.dom().contains(other),
        table.dom().contains(other) ==> table_after(table, peer, message)[other] == table[other],
{
}

/// No message moves a session backwards: a session that is there before and
/// after a message has received, and has had acknowledged, at least as much
/// as before, and what was written to it is the same.
pub proof fn lemma_progress_is_monotonic(
    table: Map<LrcpSessionHandle, SessionView>,
    peer: PeerAddr,
    message: MessageView,
    handle: LrcpSessionHandle,
)
    requires
        table.dom().contains(handle),
        table_after(table, peer, message).dom().contains(handle),
        table[handle].send.well_formed(),
    ensures
        table_after(table, peer, message)[handle].received >= table[handle].received,
        table_after(table, peer, message)[handle].send.base >= table[handle].send.base,
        table_after(table, peer, message)[handle].send.sent() == table[handle].send.sent(),
        table_after(table, peer, message)[handle].send.well_formed(),
{
    if handle == addressed(peer, message) {
        match message {
            MessageView::Data { position, data, .. } => {
                lemma_duplicate_data(table[handle].received, position, data);
            },
            _ => {},
        }
    }
}

/// Whatever is sent in answer to a message fits in a datagram: the reply,
/// and each data message that is sent again.
pub proof fn lemma_answers_fit(
    table: Map<LrcpSessionHandle, SessionView>,
    peer: PeerAddr,
    message: MessageView,
)
    requires
        table.dom().contains(addressed(peer, message)) ==> table[addressed(
            peer,
            message,
        )].send.well_formed(),
    ensures
        match outcome_of(table, peer, message).reply {
            Some(reply) => encode_spec(reply).len() <= MAX_PACKET_SIZE,
            None => true,
        },
        forall|i: int|
            0 <= i < outcome_of(table, peer, message).packets.len() ==> encode_spec(
                #[trigger] outcome_of(table, peer, message).packets[i],
            ).len() <= MAX_PACKET_SIZE,
{
    let outcome = outcome_of(table, peer, message);
    match outcome.reply {
        Some(MessageView::Ack { session, length }) => {
            lemma_decimal_len(session as nat);
            lemma_decimal_len(length as nat);
        },
        Some(MessageView::Close { session }) => {
            lemma_decimal_len(session as nat);
        },
        _ => {},
    }
    assert forall|i: int| 0 <= i < outcome.packets.len() implies encode_spec(
        #[trigger] outcome.packets[i],
    ).len() <= MAX_PACKET_SIZE by {
        match message {
            MessageView::Ack { length, .. } => {
                let send = table[addressed(peer, message)].send;
                lemma_chunks_fit(
                    send.session,
                    length as int,
                    send.unacked.skip(length - send.base),
                    i,
                );
            },
            _ => {},
        }
    }
}

} // verus!
