//! The send side of a session: the bytes that the application wrote and the
//! peer has not acknowledged yet, how they are cut into data messages, when a
//! message is sent again, and the write adapter's states.

use vstd::prelude::*;
use super::message::{
    encode_spec, escaped, escaped_byte, lemma_decimal_len, lemma_escaped_len, message_views,
    LrcpMessage, MessageView, BACKSLASH, SLASH,
};
use super::{SessionId, MAX_DATA_SIZE, MAX_PACKET_SIZE};

verus! {

// ---------------------------------------------------------------------------
// Cutting a byte range into data messages
// ---------------------------------------------------------------------------

/// How many leading bytes of `data` fit, once escaped, into `room` bytes.
pub open spec fn fitting(data: Seq<u8>, room: nat) -> nat
    decreases data.len(),
{
    if data.len() == 0 || escaped_byte(data[0]).len() > room {
        0
    } else {
        1 + fitting(data.skip(1), (room - escaped_byte(data[0]).len()) as nat)
    }
}

/// The length of the first chunk of `data`: as many bytes as fit, escaped,
/// into the largest payload.
pub open spec fn chunk_len(data: Seq<u8>) -> nat {
    fitting(data, MAX_DATA_SIZE as nat)
}

/// The data messages that carry `data`, whose first byte has the offset
/// `position` in the stream: chunk after chunk, each positioned where the one
/// before it ended.
pub open spec fn chunks(session: u32, position: int, data: Seq<u8>) -> Seq<MessageView>
    decreases data.len(),
{
    let k = chunk_len(data) as int;
    if data.len() == 0 || k <= 0 || k > data.len() {
        Seq::<MessageView>::empty()
    } else {
        seq![MessageView::Data { session, position: position as u32, data: data.take(k) }]
            + chunks(session, position + k, data.skip(k))
    }
}

/// The payloads of a list of data messages, joined.
pub open spec fn joined_payloads(messages: Seq<MessageView>) -> Seq<u8>
    decreases messages.len(),
{
    if messages.len() == 0 {
        Seq::<u8>::empty()
    } else {
        match messages[0] {
            MessageView::Data { data, .. } => data + joined_payloads(messages.skip(1)),
            _ => joined_payloads(messages.skip(1)),
        }
    }
}

/// What fits is a prefix of the data, its escaped form fits into the room,
/// and one byte more would not.
pub proof fn lemma_fitting(data: Seq<u8>, room: nat)
    ensures
        fitting(data, room) <= data.len(),
        escaped(data.take(fitting(data, room) as int)).len() <= room,
        fitting(data, room) < data.len() ==> escaped(
            data.take(fitting(data, room) as int + 1),
        ).len() > room,
        room >= 2 && data.len() > 0 ==> fitting(data, room) >= 1,
    decreases data.len(),
{
    let k = fitting(data, room) as int;
    if data.len() == 0 || escaped_byte(data[0]).len() > room {
        assert(data.take(0) =~= Seq::<u8>::empty());
        if data.len() > 0 {
            let one = data.take(1);
            assert(one[0] == data[0]);
            assert(one.skip(1) =~= Seq::<u8>::empty());
            assert(escaped(one) =~= escaped_byte(data[0]) + escaped(one.skip(1)));
        }
    } else {
        let cost = escaped_byte(data[0]).len();
        let tail = data.skip(1);
        let left = (room - cost) as nat;
        lemma_fitting(tail, left);
        let j = fitting(tail, left) as int;
        assert(k == j + 1);
        let head = data.take(k);
        assert(head[0] == data[0]);
        assert(head.skip(1) =~= tail.take(j));
        assert(escaped(head) == escaped_byte(data[0]) + escaped(head.skip(1)));
        if k < data.len() {
            let more = data.take(k + 1);
            assert(more[0] == data[0]);
            assert(more.skip(1) =~= tail.take(j + 1));
            assert(escaped(more) == escaped_byte(data[0]) + escaped(more.skip(1)));
        }
    }
}

/// A chunk of a stream that is not empty holds at least one byte and at most
/// `MAX_DATA_SIZE`, and its escaped form is no longer than that either.
pub proof fn lemma_chunk_len(data: Seq<u8>)
    ensures
        chunk_len(data) <= data.len(),
        chunk_len(data) <= MAX_DATA_SIZE,
        data.len() > 0 ==> chunk_len(data) >= 1,
        escaped(data.take(chunk_len(data) as int)).len() <= MAX_DATA_SIZE,
{
    lemma_fitting(data, MAX_DATA_SIZE as nat);
    lemma_escaped_len(data.take(chunk_len(data) as int));
}

/// Data whose escaped form fits into one payload is one chunk.
pub proof fn lemma_chunk_whole(data: Seq<u8>)
    requires
        escaped(data).len() <= MAX_DATA_SIZE,
    ensures
        chunk_len(data) == data.len(),
{
    lemma_fitting(data, MAX_DATA_SIZE as nat);
    let k = chunk_len(data) as int;
    if k < data.len() {
        lemma_escaped_prefix(data, k + 1);
    }
}

/// A prefix of a payload escapes to no more bytes than the payload.
pub proof fn lemma_escaped_prefix(data: Seq<u8>, k: int)
    requires
        0 <= k <= data.len(),
    ensures
        escaped(data.take(k)).len() <= escaped(data).len(),
    decreases data.len(),
{
    if k == 0 {
        assert(data.take(0) =~= Seq::<u8>::empty());
    } else {
        let head = data.take(k);
        assert(head[0] == data[0]);
        assert(head.skip(1) =~= data.skip(1).take(k - 1));
        lemma_escaped_prefix(data.skip(1), k - 1);
    }
}

/// The chunks of a byte range carry exactly that range, in order: their
/// payloads, joined, are the data.
pub proof fn lemma_chunks_carry_data(session: u32, position: int, data: Seq<u8>)
    ensures
        joined_payloads(chunks(session, position, data)) == data,
    decreases data.len(),
{
    let all = chunks(session, position, data);
    lemma_chunk_len(data);
    if data.len() == 0 {
        assert(joined_payloads(all) =~= data);
    } else {
        let k = chunk_len(data) as int;
        let rest = chunks(session, position + k, data.skip(k));
        lemma_chunks_carry_data(session, position + k, data.skip(k));
        assert(all[0] == MessageView::Data {
            session,
            position: position as u32,
            data: data.take(k),
        });
        assert(all.skip(1) =~= rest);
        assert(data.take(k) + data.skip(k) =~= data);
    }
}

/// Every chunk of a byte range that lies within the 32-bit offsets is a data
/// message of the session, lies inside the range, holds at least one byte,
/// and is no longer on the wire than a datagram may be.
pub proof fn lemma_chunks_fit(session: u32, position: int, data: Seq<u8>, i: int)
    requires
        0 <= position,
        position + data.len() <= u32::MAX,
        0 <= i < chunks(session, position, data).len(),
    ensures
        match chunks(session, position, data)[i] {
            MessageView::Data { session: s, position: p, data: d } => {
                &&& s == session
                &&& position <= p
                &&& 1 <= d.len() <= MAX_DATA_SIZE
                &&& p + d.len() <= position + data.len()
                &&& d == data.subrange(p - position, p - position + d.len())
            },
            _ => false,
        },
        encode_spec(chunks(session, position, data)[i]).len() <= MAX_PACKET_SIZE,
    decreases data.len(),
{
    let all = chunks(session, position, data);
    lemma_chunk_len(data);
    let k = chunk_len(data) as int;
    let rest = chunks(session, position + k, data.skip(k));
    if i == 0 {
        let first = MessageView::Data { session, position: position as u32, data: data.take(k) };
        assert(all[0] == first);
        assert(data.take(k) =~= data.subrange(0, k));
        lemma_decimal_len(session as nat);
        lemma_decimal_len(position as nat);
    } else {
        assert(all[i] == rest[i - 1]);
        lemma_chunks_fit(session, position + k, data.skip(k), i - 1);
        match rest[i - 1] {
            MessageView::Data { session: s, position: p, data: d } => {
                let from = p - (position + k);
                assert(data.skip(k).subrange(from, from + d.len()) =~= data.subrange(
                    p - position,
                    p - position + d.len(),
                ));
            },
            _ => {},
        }
    }
}

fn chunk_len_at(data: &[u8], start: usize) -> (k: usize)
    requires
        start <= data.len(),
    ensures
        k == chunk_len(data@.skip(start as int)),
        start + k <= data.len(),
{
    let mut room: usize = MAX_DATA_SIZE;
    let mut i: usize = start;
    proof {
        lemma_fitting(data@.skip(start as int), MAX_DATA_SIZE as nat);
    }
    while i < data.len()
        invariant
            start <= i <= data.len(),
            room <= MAX_DATA_SIZE,
            chunk_len(data@.skip(start as int)) == (i - start) + fitting(
                data@.skip(i as int),
                room as nat,
            ),
        decreases data.len() - i,
    {
        let b = data[i];
        let cost: usize = if b == BACKSLASH || b == SLASH {
            2
        } else {
            1
        };
        proof {
            let here = data@.skip(i as int);
            assert(here[0] == b);
            assert(here.skip(1) =~= data@.skip(i + 1));
        }
        if cost > room {
            return i - start;
        }
        room -= cost;
        i += 1;
    }
    i - start
}

// ---------------------------------------------------------------------------
// The send buffer
// ---------------------------------------------------------------------------

/// The send buffer of one session: the bytes written by the application that
/// the peer has not acknowledged, and the stream offset of the first of them.
#[derive(Debug)]
pub struct LrcpSessionBuffer {
    buffer: Vec<u8>,
    max_buffer_size: Option<usize>,
    session: SessionId,
    position: u32,
}

/// A send buffer as a mathematical value.
pub struct SendBufferView {
    /// The session whose bytes these are.
    pub session: u32,
    /// The stream offset of the first unacknowledged byte: the highest
    /// acknowledgment that was accepted.
    pub base: u32,
    /// The bytes written and not yet acknowledged.
    pub unacked: Seq<u8>,
    /// The most bytes that may be unacknowledged at once, if that is bounded.
    pub limit: Option<usize>,
}

impl SendBufferView {
    /// The stream offset behind the last byte that was ever written.
    pub open spec fn sent(self) -> int {
        self.base + self.unacked.len()
    }

    /// The buffer's invariant: every offset fits in 32 bits, and the bound on
    /// unacknowledged bytes is kept.
    pub open spec fn well_formed(self) -> bool {
        &&& self.sent() <= u32::MAX
        &&& match self.limit {
            Some(max) => self.unacked.len() <= max,
            None => true,
        }
    }

    /// Whether no write can be taken now: a bound is configured and reached.
    pub open spec fn full(self) -> bool {
        self.limit == Some(self.unacked.len() as usize)
    }

    /// The buffer after an acknowledgment: one that is above the base and
    /// not above what was written moves the base there and drops the bytes
    /// below it; any other changes nothing.
    pub open spec fn after_ack(self, ack: u32) -> SendBufferView {
        if self.base < ack <= self.sent() {
            SendBufferView { base: ack, unacked: self.unacked.skip(ack - self.base), ..self }
        } else {
            self
        }
    }

    /// The buffer after a write of `bytes`.
    pub open spec fn after_write(self, bytes: Seq<u8>) -> SendBufferView {
        if self.full() {
            self
        } else {
            SendBufferView {
                unacked: self.unacked + bytes.take(self.accepts(bytes.len() as int)),
                ..self
            }
        }
    }

    /// The count that a write of `bytes` reports: none where the buffer is
    /// full, else how many bytes it took.
    pub open spec fn write_accepted(self, bytes: Seq<u8>) -> Option<usize> {
        if self.full() {
            None
        } else {
            Some(self.accepts(bytes.len() as int) as usize)
        }
    }

    /// The data messages that a write of `bytes` sends: the chunks of what
    /// it took, positioned behind everything written before.
    pub open spec fn write_packets(self, bytes: Seq<u8>) -> Seq<MessageView> {
        if self.full() {
            Seq::<MessageView>::empty()
        } else {
            chunks(self.session, self.sent(), bytes.take(self.accepts(bytes.len() as int)))
        }
    }

    /// The data messages that an acknowledgment has sent again: where it
    /// covers a part of the buffer, the chunks of the rest, positioned at the
    /// acknowledgment.
    pub open spec fn ack_packets(self, ack: u32) -> Seq<MessageView> {
        if self.base < ack <= self.sent() {
            chunks(self.session, ack as int, self.unacked.skip(ack - self.base))
        } else {
            Seq::<MessageView>::empty()
        }
    }

    /// How many of `wanted` bytes a write takes: all of them, unless the
    /// bound on unacknowledged bytes or the end of the 32-bit offsets comes
    /// first.
    pub open spec fn accepts(self, wanted: int) -> int {
        let by_offset = if wanted <= u32::MAX - self.sent() {
            wanted
        } else {
            u32::MAX - self.sent()
        };
        match self.limit {
            Some(max) => if by_offset <= max - self.unacked.len() {
                by_offset
            } else {
                max - self.unacked.len()
            },
            None => by_offset,
        }
    }
}

impl View for LrcpSessionBuffer {
    type V = SendBufferView;

    closed spec fn view(&self) -> SendBufferView {
        SendBufferView {
            session: self.session,
            base: self.position,
            unacked: self.buffer@,
            limit: self.max_buffer_size,
        }
    }
}

/// What a write did: how many bytes it took (`None` where the buffer was
/// full and took none), and the data messages to send for them.
#[derive(Debug)]
pub struct WriteOutcome {
    pub accepted: Option<usize>,
    pub packets: Vec<LrcpMessage>,
}

/// What an acknowledgment did.
#[derive(Debug)]
pub struct AckOutcome {
    /// The peer acknowledged bytes that were never sent.
    pub misbehaved: bool,
    /// Bytes left the buffer, so that a writer or closer that waits on it
    /// must be woken.
    pub wake: bool,
    /// The data messages to send again at once.
    pub packets: Vec<LrcpMessage>,
}

impl LrcpSessionBuffer {
    /// An empty buffer at offset 0.
    pub fn new(session: SessionId, max_buffer_size: Option<usize>) -> (buffer: Self)
        ensures
            buffer@ == (SendBufferView {
                session,
                base: 0,
                unacked: Seq::<u8>::empty(),
                limit: max_buffer_size,
            }),
            buffer@.well_formed(),
    {
        LrcpSessionBuffer { buffer: Vec::new(), max_buffer_size, session, position: 0 }
    }

    /// The stream offset of the first unacknowledged byte.
    pub fn base_position(&self) -> (base: u32)
        ensures
            base == self@.base,
    {
        self.position
    }

    /// The bytes that are not acknowledged yet.
    pub fn unacked(&self) -> (bytes: &[u8])
        ensures
            bytes@ == self@.unacked,
    {
        self.buffer.as_slice()
    }

    /// Whether every byte written was acknowledged.
    pub fn is_empty(&self) -> (empty: bool)
        ensures
            empty == (self@.unacked.len() == 0),
    {
        self.buffer.len() == 0
    }

    /// The data message that carries `buf` at `position`.
    pub fn transmit_buf_chunk(&self, buf: &[u8], position: u32) -> (message: LrcpMessage)
        requires
            buf@.len() <= MAX_DATA_SIZE,
        ensures
            message@ == (MessageView::Data { session: self@.session, position, data: buf@ }),
    {
        let data = vstd::slice::slice_to_vec(buf);
        LrcpMessage::Data { session: self.session, position, data }
    }

    /// The data messages that carry `buf`, whose first byte has the offset
    /// `position`.
    pub fn transmit_buf(&self, buf: &[u8], position: u32) -> (packets: Vec<LrcpMessage>)
        requires
            position + buf@.len() <= u32::MAX,
        ensures
            message_views(packets@) == chunks(self@.session, position as int, buf@),
    {
        let mut packets: Vec<LrcpMessage> = Vec::new();
        let mut i: usize = 0;
        proof {
            assert(buf@.skip(0) =~= buf@);
            assert(message_views(packets@) =~= Seq::<MessageView>::empty());
        }
        while i < buf.len()
            invariant
                i <= buf.len(),
                position + buf@.len() <= u32::MAX,
                chunks(self@.session, position as int, buf@) == message_views(packets@) + chunks(
                    self@.session,
                    position + i,
                    buf@.skip(i as int),
                ),
            decreases buf.len() - i,
        {
            let ghost rest = buf@.skip(i as int);
            let ghost sent = message_views(packets@);
            proof {
                lemma_chunk_len(rest);
            }
            let k = chunk_len_at(buf, i);
            let chunk = vstd::slice::slice_subrange(buf, i, i + k);
            let at: u32 = position + (i as u32);
            let message = self.transmit_buf_chunk(chunk, at);
            packets.push(message);
            proof {
                assert(chunk@ =~= rest.take(k as int));
                assert(rest.skip(k as int) =~= buf@.skip(i + k));
                assert(message_views(packets@) =~= sent.push(message@));
                assert(chunks(self@.session, position + i, rest) == seq![message@] + chunks(
                    self@.session,
                    position + i + k,
                    rest.skip(k as int),
                ));
                assert(sent + (seq![message@] + chunks(
                    self@.session,
                    position + i + k,
                    rest.skip(k as int),
                )) =~= sent.push(message@) + chunks(
                    self@.session,
                    position + i + k,
                    rest.skip(k as int),
                ));
            }
            i += k;
        }
        proof {
            assert(buf@.skip(i as int) =~= Seq::<u8>::empty());
            assert(message_views(packets@) + Seq::<MessageView>::empty() =~= message_views(
                packets@,
            ));
        }
        packets
    }

    /// Takes bytes from the application: appends as many of `buf` as the
    /// buffer accepts and hands back the data messages that carry them,
    /// positioned behind what was written before. Where a bound on
    /// unacknowledged bytes is configured and reached, nothing is taken and
    /// the count is `None`: the writer has to wait for an acknowledgment.
    pub fn write(&mut self, buf: &[u8]) -> (outcome: WriteOutcome)
        requires
            old(self)@.well_formed(),
        ensures
            final(self)@.well_formed(),
            final(self)@ == old(self)@.after_write(buf@),
            outcome.accepted == old(self)@.write_accepted(buf@),
            message_views(outcome.packets@) == old(self)@.write_packets(buf@),
            old(self)@.full() ==> outcome.accepted is None && final(self)@ == old(self)@
                && outcome.packets@.len() == 0,
            !old(self)@.full() ==> {
                let n = old(self)@.accepts(buf@.len() as int);
                &&& 0 <= n <= buf@.len()
                &&& outcome.accepted == Some(n as usize)
                &&& final(self)@ == (SendBufferView {
                    unacked: old(self)@.unacked + buf@.take(n),
                    ..old(self)@
                })
                &&& message_views(outcome.packets@) == chunks(
                    old(self)@.session,
                    old(self)@.sent(),
                    buf@.take(n),
                )
            },
    {
        let len = self.buffer.len();
        let sent: u32 = self.position + (len as u32);
        let by_offset: u32 = 0xffff_ffff - sent;
        let mut n: usize = buf.len();
        if n > by_offset as usize {
            n = by_offset as usize;
        }
        match self.max_buffer_size {
            Some(max) => {
                let capacity = max - len;
                if capacity == 0 {
                    let packets: Vec<LrcpMessage> = Vec::new();
                    assert(message_views(packets@) =~= Seq::<MessageView>::empty());
                    return WriteOutcome { accepted: None, packets };
                }
                if n > capacity {
                    n = capacity;
                }
            },
            None => {},
        }
        let taken = vstd::slice::slice_subrange(buf, 0, n);
        assert(taken@ =~= buf@.take(n as int));
        let packets = self.transmit_buf(taken, sent);
        self.buffer.extend_from_slice(taken);
        assert(self.buffer@ =~= old(self).buffer@ + buf@.take(n as int));
        WriteOutcome { accepted: Some(n), packets }
    }

    /// Takes a cumulative acknowledgment from the peer.
    ///
    /// One that is not above the base is stale and changes nothing. One that
    /// covers everything written empties the buffer. One in between drops
    /// the acknowledged prefix and asks for the rest to be sent again at
    /// once. One above everything written is misbehavior and changes
    /// nothing. In the second and third case the base becomes the
    /// acknowledgment.
    pub fn handle_ack(&mut self, ack_position: u32) -> (outcome: AckOutcome)
        requires
            old(self)@.well_formed(),
        ensures
            final(self)@.well_formed(),
            final(self)@ == old(self)@.after_ack(ack_position),
            message_views(outcome.packets@) == old(self)@.ack_packets(ack_position),
            outcome.misbehaved == (ack_position > old(self)@.sent()),
            outcome.wake == (final(self)@.unacked.len() < old(self)@.unacked.len()),
            ack_position <= old(self)@.base || ack_position > old(self)@.sent() ==> final(self)@
                == old(self)@ && outcome.packets@.len() == 0,
            old(self)@.base < ack_position <= old(self)@.sent() ==> {
                &&& final(self)@.base == ack_position
                &&& final(self)@.unacked == old(self)@.unacked.skip(
                    ack_position - old(self)@.base,
                )
                &&& message_views(outcome.packets@) == chunks(
                    old(self)@.session,
                    ack_position as int,
                    final(self)@.unacked,
                )
            },
    {
        let len = self.buffer.len();
        let sent: u32 = self.position + (len as u32);
        if ack_position <= self.position || ack_position > sent {
            let packets: Vec<LrcpMessage> = Vec::new();
            assert(message_views(packets@) =~= Seq::<MessageView>::empty());
            return AckOutcome { misbehaved: ack_position > sent, wake: false, packets };
        }
        let acked: usize = (ack_position - self.position) as usize;
        let rest = self.buffer.split_off(acked);
        self.buffer = rest;
        self.position = ack_position;
        let packets = self.transmit_buf(self.buffer.as_slice(), ack_position);
        proof {
            if ack_position == sent {
                assert(message_views(packets@) =~= Seq::<MessageView>::empty());
            }
        }
        AckOutcome { misbehaved: false, wake: true, packets }
    }
}

/// Acknowledgments converge: one that covers a part of the buffer leaves
/// exactly the bytes behind it, moves the base to it, and has exactly those
/// bytes sent again, the first of them positioned at the acknowledgment.
/// What was written in all stays the same.
pub proof fn lemma_ack_converges(send: SendBufferView, ack: u32)
    requires
        send.well_formed(),
        send.base < ack < send.sent(),
    ensures
        send.after_ack(ack).base == ack,
        send.after_ack(ack).unacked == send.unacked.skip(ack - send.base),
        send.after_ack(ack).unacked.len() == send.sent() - ack,
        send.after_ack(ack).sent() == send.sent(),
        send.after_ack(ack).well_formed(),
        joined_payloads(send.ack_packets(ack)) == send.after_ack(ack).unacked,
        send.ack_packets(ack).len() >= 1,
        match send.ack_packets(ack)[0] {
            MessageView::Data { session, position, .. } => session == send.session && position
                == ack,
            _ => false,
        },
{
    let rest = send.unacked.skip(ack - send.base);
    lemma_chunks_carry_data(send.session, ack as int, rest);
    lemma_chunk_len(rest);
}

/// An acknowledgment of everything written empties the buffer and has
/// nothing sent again; a stale one, and one of bytes never sent, change
/// nothing.
pub proof fn lemma_ack_edges(send: SendBufferView, ack: u32)
    requires
        send.well_formed(),
    ensures
        ack == send.sent() && ack > send.base ==> send.after_ack(ack).unacked.len() == 0
            && send.after_ack(ack).base == ack && send.ack_packets(ack).len() == 0,
        ack <= send.base || ack > send.sent() ==> send.after_ack(ack) == send && send.ack_packets(
            ack,
        ).len() == 0,
{
}

/// Whatever is sent is in the buffer: each data message that a write or an
/// acknowledgment has sent carries bytes of the buffer as it is afterwards,
/// at the offsets at which the buffer holds them.
pub proof fn lemma_sent_data_is_buffered(send: SendBufferView, bytes: Seq<u8>, ack: u32, i: int)
    requires
        send.well_formed(),
    ensures
        0 <= i < send.write_packets(bytes).len() ==> match send.write_packets(bytes)[i] {
            MessageView::Data { session, position, data } => {
                let after = send.after_write(bytes);
                &&& session == send.session
                &&& after.base <= position
                &&& position + data.len() <= after.sent()
                &&& data == after.unacked.subrange(
                    position - after.base,
                    position - after.base + data.len(),
                )
            },
            _ => false,
        },
        0 <= i < send.ack_packets(ack).len() ==> match send.ack_packets(ack)[i] {
            MessageView::Data { session, position, data } => {
                let after = send.after_ack(ack);
                &&& session == send.session
                &&& after.base <= position
                &&& position + data.len() <= after.sent()
                &&& data == after.unacked.subrange(
                    position - after.base,
                    position - after.base + data.len(),
                )
            },
            _ => false,
        },
{
    if 0 <= i < send.write_packets(bytes).len() {
        let taken = bytes.take(send.accepts(bytes.len() as int));
        let after = send.after_write(bytes);
        lemma_chunks_fit(send.session, send.sent(), taken, i);
        match send.write_packets(bytes)[i] {
            MessageView::Data { position, data, .. } => {
                let from = position - send.sent();
                assert(taken.subrange(from, from + data.len()) =~= after.unacked.subrange(
                    position - after.base,
                    position - after.base + data.len(),
                ));
            },
            _ => {},
        }
    }
    if 0 <= i < send.ack_packets(ack).len() {
        let rest = send.unacked.skip(ack - send.base);
        lemma_chunks_fit(send.session, ack as int, rest, i);
    }
}

/// The base only advances, and never past what was written: an
/// acknowledgment leaves it where it was or moves it up, at most to the end
/// of what was written, which stays where it was; a write leaves the base
/// where it was and moves the end of what was written up.
pub proof fn lemma_base_only_advances(send: SendBufferView, ack: u32, bytes: Seq<u8>)
    requires
        send.well_formed(),
    ensures
        send.base <= send.after_ack(ack).base <= send.after_ack(ack).sent(),
        send.after_ack(ack).sent() == send.sent(),
        send.after_ack(ack).well_formed(),
        send.after_write(bytes).base == send.base,
        send.sent() <= send.after_write(bytes).sent(),
        send.after_write(bytes).well_formed(),
{
}

/// Whether the buffer holds the end of the stream `written`: the bytes of
/// the stream from the base on, up to the stream's end.
pub open spec fn tracks(send: SendBufferView, written: Seq<u8>) -> bool {
    send.base <= written.len() && send.unacked == written.skip(send.base as int)
}

/// The buffer follows the stream that the application writes: where it
/// holds the end of what was written, it does so after an acknowledgment,
/// and after a write it holds the end of what was written with the bytes
/// that the write took behind it.
pub proof fn lemma_buffer_tracks_stream(
    send: SendBufferView,
    written: Seq<u8>,
    ack: u32,
    bytes: Seq<u8>,
)
    requires
        send.well_formed(),
        tracks(send, written),
    ensures
        send.sent() == written.len(),
        tracks(send.after_ack(ack), written),
        tracks(
            send.after_write(bytes),
            if send.full() {
                written
            } else {
                written + bytes.take(send.accepts(bytes.len() as int))
            },
        ),
{
    let after = send.after_ack(ack);
    assert(after.unacked =~= written.skip(after.base as int));
    if !send.full() {
        let longer = written + bytes.take(send.accepts(bytes.len() as int));
        assert(send.after_write(bytes).unacked =~= longer.skip(send.base as int));
    }
}

/// What is sent is what was written: where the buffer holds the end of the
/// stream `written`, each data message that an acknowledgment has sent
/// again carries the bytes of that stream at the message's position.
pub proof fn lemma_retransmission_is_faithful(
    send: SendBufferView,
    written: Seq<u8>,
    ack: u32,
    i: int,
)
    requires
        send.well_formed(),
        tracks(send, written),
        0 <= i < send.ack_packets(ack).len(),
    ensures
        match send.ack_packets(ack)[i] {
            MessageView::Data { position, data, .. } => position + data.len() <= written.len()
                && data == written.subrange(position as int, position + data.len()),
            _ => false,
        },
{
    lemma_sent_data_is_buffered(send, Seq::<u8>::empty(), ack, i);
    lemma_buffer_tracks_stream(send, written, ack, Seq::<u8>::empty());
    let after = send.after_ack(ack);
    match send.ack_packets(ack)[i] {
        MessageView::Data { position, data, .. } => {
            assert(after.unacked.subrange(
                position - after.base,
                position - after.base + data.len(),
            ) =~= written.subrange(position as int, position + data.len()));
        },
        _ => {},
    }
}

/// A write is taken whole where nothing bounds it: the buffer then ends
/// with the bytes written, and the data messages that are sent carry
/// exactly those bytes, the first of them positioned behind what was written
/// before.
pub proof fn lemma_write_carries_bytes(send: SendBufferView, bytes: Seq<u8>)
    requires
        send.well_formed(),
        send.limit is None,
        send.sent() + bytes.len() <= u32::MAX,
    ensures
        send.write_accepted(bytes) == Some(bytes.len() as usize),
        send.after_write(bytes).unacked == send.unacked + bytes,
        send.after_write(bytes).base == send.base,
        joined_payloads(send.write_packets(bytes)) == bytes,
{
    assert(bytes.take(bytes.len() as int) =~= bytes);
    lemma_chunks_carry_data(send.session, send.sent(), bytes);
}

// ---------------------------------------------------------------------------
// Sending a message again
// ---------------------------------------------------------------------------

/// The seconds between two transmissions of a data message that is not
/// acknowledged.
pub const RETRANSMISSION_TIMEOUT: u32 = 3;

/// The seconds after which a data message that is still not acknowledged
/// ends its session.
pub const SESSION_EXPIRY_TIMEOUT: u32 = 60;

/// What the task that watches over a sent data message does at a tick.
#[derive(Debug, Clone, Copy, PartialEq, Eq, Structural)]
pub enum WatchdogAction {
    /// The message is acknowledged: stop watching.
    Done,
    /// Send the message again and wait for the next tick.
    Retransmit,
    /// The peer did not acknowledge the message in time: the session has to
    /// end with an error on its write side.
    Expired,
}

/// The watch over one sent data message: the acknowledgment that covers it,
/// and the seconds it has waited for one.
#[derive(Debug, Clone, Copy, PartialEq, Eq, Structural)]
pub struct Watchdog {
    pub expected_ack: u32,
    pub waited: u32,
}

impl Watchdog {
    /// What a tick does to a watch, given the session's base at that moment:
    /// the watch after the tick, and the action to take.
    pub open spec fn after_tick(self, last_ack: u32) -> (Watchdog, WatchdogAction) {
        if last_ack >= self.expected_ack {
            (self, WatchdogAction::Done)
        } else if self.waited + RETRANSMISSION_TIMEOUT >= SESSION_EXPIRY_TIMEOUT {
            (
                Watchdog { expected_ack: self.expected_ack, waited: SESSION_EXPIRY_TIMEOUT },
                WatchdogAction::Expired,
            )
        } else {
            (
                Watchdog {
                    expected_ack: self.expected_ack,
                    waited: (self.waited + RETRANSMISSION_TIMEOUT) as u32,
                },
                WatchdogAction::Retransmit,
            )
        }
    }

    /// The watch over a data message that was just sent: it waits for an
    /// acknowledgment of the message's last byte. Other messages, and a data
    /// message that would reach past the 32-bit offsets, are not watched.
    pub fn new(message: &LrcpMessage) -> (watch: Option<Watchdog>)
        ensures
            watch == match message@ {
                MessageView::Data { position, data, .. } => if position + data.len()
                    <= u32::MAX {
                    Some(Watchdog { expected_ack: (position + data.len()) as u32, waited: 0 })
                } else {
                    None
                },
                _ => None,
            },
    {
        match message {
            LrcpMessage::Data { position, data, .. } => {
                let room: u32 = 0xffff_ffff - *position;
                if data.len() <= room as usize {
                    Some(Watchdog { expected_ack: *position + (data.len() as u32), waited: 0 })
                } else {
                    None
                }
            },
            _ => None,
        }
    }

    /// One tick of the retransmission timer, `RETRANSMISSION_TIMEOUT`
    /// seconds after the last one. `last_ack` is the session's base now.
    pub fn tick(&mut self, last_ack: u32) -> (action: WatchdogAction)
        ensures
            (*final(self), action) == old(self).after_tick(last_ack),
    {
        if last_ack >= self.expected_ack {
            WatchdogAction::Done
        } else if self.waited >= SESSION_EXPIRY_TIMEOUT - RETRANSMISSION_TIMEOUT {
            self.waited = SESSION_EXPIRY_TIMEOUT;
            WatchdogAction::Expired
        } else {
            self.waited = self.waited + RETRANSMISSION_TIMEOUT;
            WatchdogAction::Retransmit
        }
    }
}

/// A watch ends by itself once the base has reached its message's end, and
/// it never asks for more than nineteen retransmissions: a watch that has
/// waited the whole expiry window only ever expires.
pub proof fn lemma_watchdog(watch: Watchdog, last_ack: u32)
    ensures
        last_ack >= watch.expected_ack ==> watch.after_tick(last_ack).1 == WatchdogAction::Done,
        last_ack < watch.expected_ack && watch.waited + RETRANSMISSION_TIMEOUT
            >= SESSION_EXPIRY_TIMEOUT ==> watch.after_tick(last_ack).1
            == WatchdogAction::Expired,
        watch.after_tick(last_ack).1 == WatchdogAction::Retransmit ==> watch.after_tick(
            last_ack,
        ).0.waited == watch.waited + RETRANSMISSION_TIMEOUT && watch.after_tick(
            last_ack,
        ).0.waited < SESSION_EXPIRY_TIMEOUT,
{
}

// ---------------------------------------------------------------------------
// The write adapter
// ---------------------------------------------------------------------------

/// The states of a session's write side.
///
/// `Writing` means that a write is in flight, `ShutdownSend` that the close
/// message is being sent. In `Full` a write found the buffer at its bound,
/// in `Flushing` and `ShutdownFlush` the adapter waits for the buffer to
/// drain. `Shutdown` is the end.
#[derive(Debug, Clone, Copy, PartialEq, Eq, Structural)]
pub enum WriteState {
    Idle,
    Full,
    Writing,
    Flushing,
    ShutdownSend,
    ShutdownFlush,
    Shutdown,
}

/// What polling the write in flight gave.
#[derive(Debug, Clone, Copy, PartialEq, Eq, Structural)]
pub enum WritePolled {
    /// It has not finished.
    Pending,
    /// The buffer took this many bytes.
    Accepted(usize),
    /// The buffer was at its bound and took none.
    Full,
    /// It failed.
    Failed,
}

/// What polling the sending of the close message gave.
#[derive(Debug, Clone, Copy, PartialEq, Eq, Structural)]
pub enum ClosePolled {
    Pending,
    Sent,
    Failed,
}

/// What the caller tells the adapter: that one of its three operations was
/// called, or what came of the operation that the adapter asked it to poll.
#[derive(Debug, Clone, Copy, PartialEq, Eq, Structural)]
pub enum WriteEvent {
    Called,
    Write(WritePolled),
    Close(ClosePolled),
}

/// Why an operation of the adapter failed.
#[derive(Debug, Clone, Copy, PartialEq, Eq, Structural)]
pub enum WriteFailure {
    /// The operation that was polled failed; its error is the result.
    Operation,
    /// The write side is shut down.
    BrokenPipe,
}

/// The result of one of the adapter's operations.
#[derive(Debug, Clone, Copy, PartialEq, Eq, Structural)]
pub enum PollOutcome {
    /// Not yet: the caller is woken when the buffer changes.
    Pending,
    /// A write took this many bytes.
    Written(usize),
    /// A flush or a shutdown is complete.
    Done,
    Failed(WriteFailure),
}

/// What the caller has to do next.
#[derive(Debug, Clone, Copy, PartialEq, Eq, Structural)]
pub enum WriteAction {
    /// Start a write of the caller's bytes to the send buffer, poll it, and
    /// come back with what that gave.
    StartWrite,
    /// Poll the write in flight and come back with what that gave.
    PollWrite,
    /// Start sending the close message, poll that, and come back.
    StartClose,
    /// Poll the sending of the close message and come back.
    PollClose,
    /// The operation ends with this result.
    Return(PollOutcome),
}

/// An event counts only in the state that asked for it: what a write gave
/// in `Writing`, what the close gave in `ShutdownSend`. Any other event is
/// read as a plain call.
pub open spec fn answered(state: WriteState, event: WriteEvent) -> WriteEvent {
    match event {
        WriteEvent::Write(_) => if state == WriteState::Writing {
            event
        } else {
            WriteEvent::Called
        },
        WriteEvent::Close(_) => if state == WriteState::ShutdownSend {
            event
        } else {
            WriteEvent::Called
        },
        WriteEvent::Called => event,
    }
}

/// What awaits a writer or closer once the write side has begun to shut
/// down, whichever operation it called: `done` is the result that the
/// operation gets once the close message is sent.
pub open spec fn closing_step(
    state: WriteState,
    event: WriteEvent,
    is_empty: bool,
    done: PollOutcome,
) -> (WriteState, WriteAction) {
    match state {
        WriteState::ShutdownFlush => if is_empty {
            (WriteState::ShutdownSend, WriteAction::StartClose)
        } else {
            (WriteState::ShutdownFlush, WriteAction::Return(PollOutcome::Pending))
        },
        WriteState::ShutdownSend => match event {
            WriteEvent::Close(ClosePolled::Pending) => (
                WriteState::ShutdownSend,
                WriteAction::Return(PollOutcome::Pending),
            ),
            WriteEvent::Close(ClosePolled::Sent) => (
                WriteState::Shutdown,
                WriteAction::Return(done),
            ),
            WriteEvent::Close(ClosePolled::Failed) => (
                WriteState::Shutdown,
                WriteAction::Return(PollOutcome::Failed(WriteFailure::Operation)),
            ),
            _ => (WriteState::ShutdownSend, WriteAction::PollClose),
        },
        _ => (
            WriteState::Shutdown,
            WriteAction::Return(PollOutcome::Failed(WriteFailure::BrokenPipe)),
        ),
    }
}

/// A step of a write.
pub open spec fn write_step(state: WriteState, event: WriteEvent, is_empty: bool) -> (
    WriteState,
    WriteAction,
) {
    match state {
        WriteState::Idle | WriteState::Full => (WriteState::Writing, WriteAction::StartWrite),
        WriteState::Flushing => if is_empty {
            (WriteState::Writing, WriteAction::StartWrite)
        } else {
            (WriteState::Flushing, WriteAction::Return(PollOutcome::Pending))
        },
        WriteState::Writing => match answered(state, event) {
            WriteEvent::Write(WritePolled::Pending) => (
                WriteState::Writing,
                WriteAction::Return(PollOutcome::Pending),
            ),
            WriteEvent::Write(WritePolled::Accepted(n)) => (
                WriteState::Idle,
                WriteAction::Return(PollOutcome::Written(n)),
            ),
            WriteEvent::Write(WritePolled::Full) => (
                WriteState::Full,
                WriteAction::Return(PollOutcome::Pending),
            ),
            WriteEvent::Write(WritePolled::Failed) => (
                WriteState::Idle,
                WriteAction::Return(PollOutcome::Failed(WriteFailure::Operation)),
            ),
            _ => (WriteState::Writing, WriteAction::PollWrite),
        },
        _ => closing_step(
            state,
            answered(state, event),
            is_empty,
            PollOutcome::Failed(WriteFailure::BrokenPipe),
        ),
    }
}

/// What a flush or a shutdown does where no operation is in flight and the
/// write side has not begun to shut down.
pub open spec fn drain_step(closing: bool, is_empty: bool) -> (WriteState, WriteAction) {
    if closing {
        if is_empty {
            (WriteState::ShutdownSend, WriteAction::StartClose)
        } else {
            (WriteState::ShutdownFlush, WriteAction::Return(PollOutcome::Pending))
        }
    } else {
        if is_empty {
            (WriteState::Idle, WriteAction::Return(PollOutcome::Done))
        } else {
            (WriteState::Flushing, WriteAction::Return(PollOutcome::Pending))
        }
    }
}

/// A step of a flush (`closing` is false) or of a shutdown (`closing` is
/// true). A write in flight is completed first; then the buffer has to
/// drain; a shutdown then sends the close message.
pub open spec fn finish_step(
    closing: bool,
    state: WriteState,
    event: WriteEvent,
    is_empty: bool,
) -> (WriteState, WriteAction) {
    match state {
        WriteState::Idle | WriteState::Full | WriteState::Flushing => drain_step(
            closing,
            is_empty,
        ),
        WriteState::Writing => match answered(state, event) {
            WriteEvent::Write(WritePolled::Pending) => (
                WriteState::Writing,
                WriteAction::Return(PollOutcome::Pending),
            ),
            WriteEvent::Write(WritePolled::Failed) => (
                WriteState::Idle,
                WriteAction::Return(PollOutcome::Failed(WriteFailure::Operation)),
            ),
            WriteEvent::Write(_) => drain_step(closing, is_empty),
            _ => (WriteState::Writing, WriteAction::PollWrite),
        },
        _ => closing_step(
            state,
            answered(state, event),
            is_empty,
            if closing && state != WriteState::Shutdown {
                PollOutcome::Done
            } else {
                PollOutcome::Failed(WriteFailure::BrokenPipe)
            },
        ),
    }
}

/// The write side of a session as the application sees it: a byte sink that
/// holds back a writer while the send buffer is full, and that closes the
/// session once everything written is acknowledged.
///
/// The adapter decides; its caller acts. Each of the three operations is
/// called with `WriteEvent::Called`. While the answer is an action other
/// than `Return`, the caller carries it out and calls the same operation
/// again with what came of it.
#[derive(Debug)]
pub struct LrcpSessionWrite {
    state: WriteState,
    session: SessionId,
}

impl LrcpSessionWrite {
    /// The adapter's state.
    pub closed spec fn state(&self) -> WriteState {
        self.state
    }

    /// The session that the adapter writes to.
    pub closed spec fn session(&self) -> SessionId {
        self.session
    }

    /// An adapter that is ready to accept writes.
    pub fn new(session: SessionId) -> (writer: Self)
        ensures
            writer.state() == WriteState::Idle,
            writer.session() == session,
    {
        LrcpSessionWrite { state: WriteState::Idle, session }
    }

    /// The adapter's state.
    pub fn current_state(&self) -> (state: WriteState)
        ensures
            state == self.state(),
    {
        self.state
    }

    /// The message that closes the session.
    pub fn send_close(&self) -> (message: LrcpMessage)
        ensures
            message@ == (MessageView::Close { session: self.session() }),
    {
        LrcpMessage::Close { session: self.session }
    }

    /// The result of an operation on a write side that is shut down.
    pub fn handle_shutdown_finish() -> (outcome: PollOutcome)
        ensures
            outcome == PollOutcome::Failed(WriteFailure::BrokenPipe),
    {
        PollOutcome::Failed(WriteFailure::BrokenPipe)
    }

    fn closing(&mut self, event: WriteEvent, is_empty: bool, done: PollOutcome) -> (action:
        WriteAction)
        ensures
            final(self).session() == old(self).session(),
            (final(self).state(), action) == closing_step(
                old(self).state(),
                event,
                is_empty,
                done,
            ),
    {
        match self.state {
            WriteState::ShutdownFlush => {
                if is_empty {
                    self.state = WriteState::ShutdownSend;
                    WriteAction::StartClose
                } else {
                    WriteAction::Return(PollOutcome::Pending)
                }
            },
            WriteState::ShutdownSend => match event {
                WriteEvent::Close(ClosePolled::Pending) => WriteAction::Return(
                    PollOutcome::Pending,
                ),
                WriteEvent::Close(ClosePolled::Sent) => {
                    self.state = WriteState::Shutdown;
                    WriteAction::Return(done)
                },
                WriteEvent::Close(ClosePolled::Failed) => {
                    self.state = WriteState::Shutdown;
                    WriteAction::Return(PollOutcome::Failed(WriteFailure::Operation))
                },
                _ => WriteAction::PollClose,
            },
            _ => {
                self.state = WriteState::Shutdown;
                WriteAction::Return(Self::handle_shutdown_finish())
            },
        }
    }

    fn drain(&mut self, closing: bool, is_empty: bool) -> (action: WriteAction)
        ensures
            final(self).session() == old(self).session(),
            (final(self).state(), action) == drain_step(closing, is_empty),
    {
        if closing {
            if is_empty {
                self.state = WriteState::ShutdownSend;
                WriteAction::StartClose
            } else {
                self.state = WriteState::ShutdownFlush;
                WriteAction::Return(PollOutcome::Pending)
            }
        } else {
            if is_empty {
                self.state = WriteState::Idle;
                WriteAction::Return(PollOutcome::Done)
            } else {
                self.state = WriteState::Flushing;
                WriteAction::Return(PollOutcome::Pending)
            }
        }
    }

    fn answer(&self, event: WriteEvent) -> (counted: WriteEvent)
        ensures
            counted == answered(self.state(), event),
    {
        match event {
            WriteEvent::Write(_) => match self.state {
                WriteState::Writing => event,
                _ => WriteEvent::Called,
            },
            WriteEvent::Close(_) => match self.state {
                WriteState::ShutdownSend => event,
                _ => WriteEvent::Called,
            },
            WriteEvent::Called => event,
        }
    }

    fn finish(&mut self, closing: bool, event: WriteEvent, is_empty: bool) -> (action:
        WriteAction)
        ensures
            final(self).session() == old(self).session(),
            (final(self).state(), action) == finish_step(
                closing,
                old(self).state(),
                event,
                is_empty,
            ),
    {
        let event = self.answer(event);
        match self.state {
            WriteState::Idle | WriteState::Full | WriteState::Flushing => self.drain(
                closing,
                is_empty,
            ),
            WriteState::Writing => match event {
                WriteEvent::Write(WritePolled::Pending) => WriteAction::Return(
                    PollOutcome::Pending,
                ),
                WriteEvent::Write(WritePolled::Failed) => {
                    self.state = WriteState::Idle;
                    WriteAction::Return(PollOutcome::Failed(WriteFailure::Operation))
                },
                WriteEvent::Write(_) => self.drain(closing, is_empty),
                _ => WriteAction::PollWrite,
            },
            WriteState::Shutdown => self.closing(event, is_empty, Self::handle_shutdown_finish()),
            _ => {
                let done = if closing {
                    PollOutcome::Done
                } else {
                    Self::handle_shutdown_finish()
                };
                self.closing(event, is_empty, done)
            },
        }
    }

    /// A step of a write to the session.
    ///
    /// A write starts where the adapter is idle, where an earlier write
    /// found the buffer full, and where a flush has seen the buffer drain.
    /// A write in flight ends with the number of bytes taken, or holds the
    /// writer back where the buffer was full. Once the write side shuts
    /// down, a write fails with a broken pipe.
    pub fn poll_write(&mut self, event: WriteEvent, is_empty: bool) -> (action: WriteAction)
        ensures
            final(self).session() == old(self).session(),
            (final(self).state(), action) == write_step(old(self).state(), event, is_empty),
    {
        let event = self.answer(event);
        match self.state {
            WriteState::Idle | WriteState::Full => {
                self.state = WriteState::Writing;
                WriteAction::StartWrite
            },
            WriteState::Flushing => {
                if is_empty {
                    self.state = WriteState::Writing;
                    WriteAction::StartWrite
                } else {
                    WriteAction::Return(PollOutcome::Pending)
                }
            },
            WriteState::Writing => match event {
                WriteEvent::Write(WritePolled::Pending) => WriteAction::Return(
                    PollOutcome::Pending,
                ),
                WriteEvent::Write(WritePolled::Accepted(n)) => {
                    self.state = WriteState::Idle;
                    WriteAction::Return(PollOutcome::Written(n))
                },
                WriteEvent::Write(WritePolled::Full) => {
                    self.state = WriteState::Full;
                    WriteAction::Return(PollOutcome::Pending)
                },
                WriteEvent::Write(WritePolled::Failed) => {
                    self.state = WriteState::Idle;
                    WriteAction::Return(PollOutcome::Failed(WriteFailure::Operation))
                },
                _ => WriteAction::PollWrite,
            },
            _ => self.closing(event, is_empty, Self::handle_shutdown_finish()),
        }
    }

    /// A step of a flush: it is complete once the send buffer is empty. A
    /// write in flight is completed first.
    pub fn poll_flush(&mut self, event: WriteEvent, is_empty: bool) -> (action: WriteAction)
        ensures
            final(self).session() == old(self).session(),
            (final(self).state(), action) == finish_step(
                false,
                old(self).state(),
                event,
                is_empty,
            ),
    {
        self.finish(false, event, is_empty)
    }

    /// A step of a shutdown: a write in flight is completed first; once the
    /// send buffer is empty the close message is sent; once that is sent the
    /// write side is shut down.
    pub fn poll_shutdown(&mut self, event: WriteEvent, is_empty: bool) -> (action: WriteAction)
        ensures
            final(self).session() == old(self).session(),
            (final(self).state(), action) == finish_step(
                true,
                old(self).state(),
                event,
                is_empty,
            ),
    {
        self.finish(true, event, is_empty)
    }
}

/// Shutdown is the end: whatever is called on a write side that is shut
/// down, with whatever event, it stays shut down and the call fails with a
/// broken pipe.
pub proof fn lemma_shutdown_is_final(closing: bool, event: WriteEvent, is_empty: bool)
    ensures
        write_step(WriteState::Shutdown, event, is_empty) == (
            WriteState::Shutdown,
            WriteAction::Return(PollOutcome::Failed(WriteFailure::BrokenPipe)),
        ),
        finish_step(closing, WriteState::Shutdown, event, is_empty) == (
            WriteState::Shutdown,
            WriteAction::Return(PollOutcome::Failed(WriteFailure::BrokenPipe)),
        ),
{
}

/// The close message is sent only once the send buffer is empty, and the
/// write side shuts down only when the sending of the close message has
/// ended. A write that is in flight when a shutdown is called is polled to
/// its end before anything else happens.
pub proof fn lemma_drain_then_close(
    closing: bool,
    state: WriteState,
    event: WriteEvent,
    is_empty: bool,
)
    ensures
        write_step(state, event, is_empty).1 == WriteAction::StartClose ==> is_empty,
        finish_step(closing, state, event, is_empty).1 == WriteAction::StartClose ==> is_empty,
        state != WriteState::Shutdown && write_step(state, event, is_empty).0
            == WriteState::Shutdown ==> state == WriteState::ShutdownSend && (event
            == WriteEvent::Close(ClosePolled::Sent) || event == WriteEvent::Close(
            ClosePolled::Failed,
        )),
        state != WriteState::Shutdown && finish_step(closing, state, event, is_empty).0
            == WriteState::Shutdown ==> state == WriteState::ShutdownSend && (event
            == WriteEvent::Close(ClosePolled::Sent) || event == WriteEvent::Close(
            ClosePolled::Failed,
        )),
        state == WriteState::Writing && finish_step(closing, state, event, is_empty).0
            != WriteState::Writing ==> event is Write && event != WriteEvent::Write(
            WritePolled::Pending,
        ),
        !closing && (state == WriteState::Idle || state == WriteState::Full || state
            == WriteState::Flushing || state == WriteState::Writing) ==> finish_step(
            closing,
            state,
            event,
            is_empty,
        ).1 != WriteAction::StartClose,
{
}

/// A shutdown that is called on a write side whose buffer is empty and that
/// has nothing in flight sends the close message, and ends well once that is
/// sent.
pub proof fn lemma_shutdown_completes(state: WriteState)
    requires
        state == WriteState::Idle || state == WriteState::Full || state == WriteState::Flushing
            || state == WriteState::ShutdownFlush,
    ensures
        finish_step(true, state, WriteEvent::Called, true) == (
            WriteState::ShutdownSend,
            WriteAction::StartClose,
        ),
        finish_step(
            true,
            WriteState::ShutdownSend,
            WriteEvent::Close(ClosePolled::Sent),
            true,
        ) == (WriteState::Shutdown, WriteAction::Return(PollOutcome::Done)),
{
}

} // verus!
