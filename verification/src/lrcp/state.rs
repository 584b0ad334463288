//! The session table: which sessions exist, how far each has been received,
//! and what each inbound message does to them.

use vstd::prelude::*;
use super::message::{message_views, LrcpMessage};
use super::session_write::{LrcpSessionBuffer, SendBufferView, WriteOutcome};
use super::{LrcpSessionError, LrcpSessionHandle, LrcpSessionState};

verus! {

/// One session as a mathematical value.
pub struct SessionView {
    /// How many bytes of the peer's stream were delivered to the application:
    /// all of them from offset 0, without a gap.
    pub received: u32,
    pub state: LrcpSessionState,
    /// The send side.
    pub send: SendBufferView,
}

impl SessionView {
    /// A session as a connect message creates it.
    pub open spec fn opened(session: u32) -> SessionView {
        SessionView {
            received: 0,
            state: LrcpSessionState::Opening,
            send: SendBufferView {
                session,
                base: 0,
                unacked: Seq::<u8>::empty(),
                limit: None,
            },
        }
    }

    /// The session after a data message: it is running, and it has received
    /// what the message brought that was new.
    pub open spec fn after_data(self, position: u32, data: Seq<u8>) -> SessionView {
        SessionView {
            received: (self.received + fresh_bytes(self.received, position, data).len()) as u32,
            state: LrcpSessionState::Running,
            send: self.send,
        }
    }
}

/// The bytes of a data message that go to the application, for a session
/// that has received `received` bytes: none where the message starts behind
/// a gap; else what is left of it after the bytes that were received before
/// (and nothing past the last 32-bit offset).
pub open spec fn fresh_bytes(received: u32, position: u32, data: Seq<u8>) -> Seq<u8> {
    if position > received || received - position >= data.len() {
        Seq::<u8>::empty()
    } else {
        let fresh = data.skip(received - position);
        if fresh.len() <= u32::MAX - received {
            fresh
        } else {
            fresh.take(u32::MAX - received)
        }
    }
}

/// A session's record in the table.
#[derive(Debug)]
pub struct LrcpSession {
    handle: LrcpSessionHandle,
    received_len: u32,
    state: LrcpSessionState,
    buffer: LrcpSessionBuffer,
}

impl View for LrcpSession {
    type V = SessionView;

    closed spec fn view(&self) -> SessionView {
        SessionView { received: self.received_len, state: self.state, send: self.buffer@ }
    }
}

impl LrcpSession {
    fn new(handle: LrcpSessionHandle) -> (session: Self)
        ensures
            session.handle == handle,
            session@ == SessionView::opened(handle.session),
            session.sound(),
    {
        LrcpSession {
            handle,
            received_len: 0,
            state: LrcpSessionState::Opening,
            buffer: LrcpSessionBuffer::new(handle.session, None),
        }
    }

    /// The record's own invariant: its send buffer is well formed and sends
    /// under the session's identifier.
    closed spec fn sound(&self) -> bool {
        self.buffer@.well_formed() && self.buffer@.session == self.handle.session
    }
}

/// Whether the record at `i` is the one of `handle`.
closed spec fn holds(sessions: Seq<LrcpSession>, handle: LrcpSessionHandle, i: int) -> bool {
    0 <= i < sessions.len() && sessions[i].handle == handle
}

/// No two records are for the same handle.
closed spec fn distinct(sessions: Seq<LrcpSession>) -> bool {
    forall|i: int, j: int|
        0 <= i < sessions.len() && 0 <= j < sessions.len() && i != j ==> #[trigger] sessions[i].handle
            != #[trigger] sessions[j].handle
}

/// The records as a map from handle to session.
closed spec fn table(sessions: Seq<LrcpSession>) -> Map<LrcpSessionHandle, SessionView> {
    Map::new(
        |handle: LrcpSessionHandle| exists|i: int| holds(sessions, handle, i),
        |handle: LrcpSessionHandle| sessions[choose|i: int| holds(sessions, handle, i)]@,
    )
}

/// Where records are distinct, the record of a handle is the handle's entry
/// in the map.
proof fn lemma_table_entry(sessions: Seq<LrcpSession>, i: int)
    requires
        distinct(sessions),
        0 <= i < sessions.len(),
    ensures
        table(sessions).dom().contains(sessions[i].handle),
        table(sessions)[sessions[i].handle] == sessions[i]@,
{
    let handle = sessions[i].handle;
    assert(holds(sessions, handle, i));
    let k = choose|k: int| holds(sessions, handle, k);
    assert(holds(sessions, handle, k));
    if k != i {
        assert(sessions[k].handle != sessions[i].handle);
    }
}

/// A handle that no record is for has no entry in the map.
proof fn lemma_table_absent(sessions: Seq<LrcpSession>, handle: LrcpSessionHandle)
    requires
        forall|i: int| 0 <= i < sessions.len() ==> (#[trigger] sessions[i]).handle != handle,
    ensures
        !table(sessions).dom().contains(handle),
{
    if table(sessions).dom().contains(handle) {
        let k = choose|k: int| holds(sessions, handle, k);
        assert(holds(sessions, handle, k));
        assert(sessions[k].handle != handle);
    }
}

/// A new record for a handle that had none is a new entry in the map.
proof fn lemma_table_push(sessions: Seq<LrcpSession>, session: LrcpSession)
    requires
        distinct(sessions),
        forall|i: int| 0 <= i < sessions.len() ==> (#[trigger] sessions[i]).handle != session.handle,
    ensures
        distinct(sessions.push(session)),
        table(sessions.push(session)) == table(sessions).insert(session.handle, session@),
{
    let longer = sessions.push(session);
    assert(distinct(longer));
    let expected = table(sessions).insert(session.handle, session@);
    assert forall|handle: LrcpSessionHandle|
        table(longer).dom().contains(handle) <==> expected.dom().contains(handle) by {
        if table(longer).dom().contains(handle) {
            let k = choose|k: int| holds(longer, handle, k);
            assert(holds(longer, handle, k));
            if k < sessions.len() {
                assert(holds(sessions, handle, k));
            }
        }
        if expected.dom().contains(handle) {
            if handle == session.handle {
                assert(holds(longer, handle, sessions.len() as int));
            } else {
                let k = choose|k: int| holds(sessions, handle, k);
                assert(holds(sessions, handle, k));
                assert(holds(longer, handle, k));
            }
        }
    }
    assert forall|handle: LrcpSessionHandle| expected.dom().contains(handle) implies table(
        longer,
    )[handle] == expected[handle] by {
        if handle == session.handle {
            lemma_table_entry(longer, sessions.len() as int);
        } else {
            let k = choose|k: int| holds(sessions, handle, k);
            assert(holds(sessions, handle, k));
            lemma_table_entry(sessions, k);
            lemma_table_entry(longer, k);
        }
    }
    assert(table(longer) =~= expected);
}

/// A record that changes while it keeps its handle changes its entry in the
/// map and no other.
proof fn lemma_table_update(before: Seq<LrcpSession>, after: Seq<LrcpSession>, i: int)
    requires
        distinct(before),
        0 <= i < before.len(),
        after.len() == before.len(),
        after[i].handle == before[i].handle,
        forall|j: int| 0 <= j < before.len() && j != i ==> after[j] == before[j],
    ensures
        distinct(after),
        table(after) == table(before).insert(before[i].handle, after[i]@),
{
    assert forall|j: int| 0 <= j < before.len() implies (#[trigger] after[j]).handle
        == before[j].handle by {}
    assert(distinct(after)) by {
        assert forall|a: int, b: int|
            0 <= a < after.len() && 0 <= b < after.len() && a != b implies #[trigger] after[a].handle
            != #[trigger] after[b].handle by {
            assert(before[a].handle != before[b].handle);
        }
    }
    let expected = table(before).insert(before[i].handle, after[i]@);
    assert forall|handle: LrcpSessionHandle|
        table(after).dom().contains(handle) <==> expected.dom().contains(handle) by {
        if table(after).dom().contains(handle) {
            let k = choose|k: int| holds(after, handle, k);
            assert(holds(after, handle, k));
            assert(holds(before, handle, k));
        }
        if expected.dom().contains(handle) {
            if handle == before[i].handle {
                assert(holds(after, handle, i));
            } else {
                let k = choose|k: int| holds(before, handle, k);
                assert(holds(before, handle, k));
                assert(holds(after, handle, k));
            }
        }
    }
    assert forall|handle: LrcpSessionHandle| expected.dom().contains(handle) implies table(
        after,
    )[handle] == expected[handle] by {
        if handle == before[i].handle {
            lemma_table_entry(after, i);
        } else {
            let k = choose|k: int| holds(before, handle, k);
            assert(holds(before, handle, k));
            lemma_table_entry(before, k);
            lemma_table_entry(after, k);
        }
    }
    assert(table(after) =~= expected);
}

/// Taking a record out, with the last record put in its place, takes its
/// entry out of the map and leaves the others.
proof fn lemma_table_swap_remove(before: Seq<LrcpSession>, after: Seq<LrcpSession>, i: int)
    requires
        distinct(before),
        0 <= i < before.len(),
        after.len() == before.len() - 1,
        forall|j: int| 0 <= j < after.len() && j != i ==> after[j] == before[j],
        i < after.len() ==> after[i] == before[before.len() - 1],
    ensures
        distinct(after),
        table(after) == table(before).remove(before[i].handle),
{
    let last = before.len() - 1;
    let from = |j: int| if j == i { last } else { j };
    assert forall|j: int| 0 <= j < after.len() implies #[trigger] after[j] == before[from(j)]
        && 0 <= from(j) < before.len() && from(j) != i by {}
    assert(distinct(after)) by {
        assert forall|a: int, b: int|
            0 <= a < after.len() && 0 <= b < after.len() && a != b implies #[trigger] after[a].handle
            != #[trigger] after[b].handle by {
            assert(after[a] == before[from(a)]);
            assert(after[b] == before[from(b)]);
            assert(before[from(a)].handle != before[from(b)].handle);
        }
    }
    let gone = before[i].handle;
    let expected = table(before).remove(gone);
    assert forall|handle: LrcpSessionHandle|
        table(after).dom().contains(handle) <==> expected.dom().contains(handle) by {
        if table(after).dom().contains(handle) {
            let k = choose|k: int| holds(after, handle, k);
            assert(holds(after, handle, k));
            assert(after[k] == before[from(k)]);
            assert(holds(before, handle, from(k)));
            assert(before[from(k)].handle != before[i].handle);
        }
        if expected.dom().contains(handle) {
            let k = choose|k: int| holds(before, handle, k);
            assert(holds(before, handle, k));
            assert(k != i);
            if k == last {
                assert(holds(after, handle, i));
            } else {
                assert(holds(after, handle, k));
            }
        }
    }
    assert forall|handle: LrcpSessionHandle| expected.dom().contains(handle) implies table(
        after,
    )[handle] == expected[handle] by {
        let k = choose|k: int| holds(before, handle, k);
        assert(holds(before, handle, k));
        lemma_table_entry(before, k);
        if k == last {
            lemma_table_entry(after, i);
        } else {
            lemma_table_entry(after, k);
        }
    }
    assert(table(after) =~= expected);
}

/// The handles of the records.
closed spec fn handles(sessions: Seq<LrcpSession>) -> Seq<LrcpSessionHandle> {
    sessions.map_values(|session: LrcpSession| session.handle)
}

/// Where records are distinct, the map has as many entries as there are
/// records.
proof fn lemma_table_len(sessions: Seq<LrcpSession>)
    requires
        distinct(sessions),
    ensures
        table(sessions).dom().finite(),
        table(sessions).dom().len() == sessions.len(),
{
    let all = handles(sessions);
    assert(all.no_duplicates()) by {
        assert forall|i: int, j: int|
            0 <= i < all.len() && 0 <= j < all.len() && i != j implies all[i] != all[j] by {
            assert(sessions[i].handle != sessions[j].handle);
        }
    }
    all.unique_seq_to_set();
    assert(table(sessions).dom() =~= all.to_set()) by {
        assert forall|handle: LrcpSessionHandle|
            table(sessions).dom().contains(handle) <==> all.to_set().contains(handle) by {
            if table(sessions).dom().contains(handle) {
                let k = choose|k: int| holds(sessions, handle, k);
                assert(holds(sessions, handle, k));
                assert(all[k] == handle);
                assert(all.contains(handle));
            }
            if all.to_set().contains(handle) {
                assert(all.contains(handle));
                let k = choose|k: int| 0 <= k < all.len() && all[k] == handle;
                assert(holds(sessions, handle, k));
            }
        }
    }
}

/// What a connect message did.
#[derive(Debug, Clone, Copy, PartialEq, Eq, Structural)]
pub struct ConnectOutcome {
    /// The peer is owed an acknowledgment of length 0.
    pub must_ack: bool,
    /// A session was created: its two ends are to be handed to the
    /// application.
    pub opened: bool,
}

/// What a data message did.
#[derive(Debug)]
pub struct DataOutcome {
    /// The acknowledgment that the peer is owed: how many bytes the session
    /// has received now. `None` where the handle has no session.
    pub ack: Option<u32>,
    /// The bytes to hand to the application, which may be none.
    pub delivered: Vec<u8>,
}

/// What an acknowledgment did.
#[derive(Debug)]
pub struct AckReport {
    /// The peer is owed a close message: it has no session, or it
    /// acknowledged what was never sent.
    pub close: bool,
    /// The session was removed for the peer's misbehavior: its read side is
    /// to be told so.
    pub ended: Option<LrcpSessionError>,
    /// Bytes left the send buffer: a writer or closer that waits is to be
    /// woken.
    pub wake: bool,
    /// The data messages to send again at once.
    pub packets: Vec<LrcpMessage>,
}

/// The session table.
#[derive(Debug)]
pub struct LrcpState {
    sessions: Vec<LrcpSession>,
}

impl View for LrcpState {
    type V = Map<LrcpSessionHandle, SessionView>;

    closed spec fn view(&self) -> Map<LrcpSessionHandle, SessionView> {
        table(self.sessions@)
    }
}

impl LrcpState {
    /// The table's invariant: no handle has two sessions, and each session's
    /// send buffer is well formed and sends under the session's identifier.
    pub closed spec fn well_formed(&self) -> bool {
        &&& distinct(self.sessions@)
        &&& forall|i: int| 0 <= i < self.sessions@.len() ==> (#[trigger] self.sessions@[i]).sound()
    }

    /// In a well-formed table every session's send buffer is well formed and
    /// sends under the identifier that the session's handle holds.
    pub proof fn lemma_sessions_sound(&self, handle: LrcpSessionHandle)
        requires
            self.well_formed(),
            self@.dom().contains(handle),
        ensures
            self@[handle].send.well_formed(),
            self@[handle].send.session == handle.session,
    {
        let k = choose|k: int| holds(self.sessions@, handle, k);
        assert(holds(self.sessions@, handle, k));
        lemma_table_entry(self.sessions@, k);
        assert(self.sessions@[k].sound());
    }

    /// A table without sessions.
    pub fn new() -> (state: Self)
        ensures
            state@ == Map::<LrcpSessionHandle, SessionView>::empty(),
            state.well_formed(),
    {
        let state = LrcpState { sessions: Vec::new() };
        proof {
            assert forall|handle: LrcpSessionHandle| !state@.dom().contains(handle) by {
                lemma_table_absent(state.sessions@, handle);
            }
            assert(state@ =~= Map::<LrcpSessionHandle, SessionView>::empty());
        }
        state
    }

    fn find(&self, handle: LrcpSessionHandle) -> (found: Option<usize>)
        requires
            self.well_formed(),
        ensures
            match found {
                Some(i) => {
                    &&& i < self.sessions@.len()
                    &&& self.sessions@[i as int].handle == handle
                    &&& self@.dom().contains(handle)
                    &&& self@[handle] == self.sessions@[i as int]@
                },
                None => !self@.dom().contains(handle) && forall|i: int|
                    0 <= i < self.sessions@.len() ==> (#[trigger] self.sessions@[i]).handle
                        != handle,
            },
    {
        let mut i: usize = 0;
        while i < self.sessions.len()
            invariant
                self.well_formed(),
                i <= self.sessions@.len(),
                forall|j: int| 0 <= j < i ==> (#[trigger] self.sessions@[j]).handle != handle,
            decreases self.sessions@.len() - i,
        {
            if self.sessions[i].handle == handle {
                proof {
                    lemma_table_entry(self.sessions@, i as int);
                }
                return Some(i);
            }
            i += 1;
        }
        proof {
            lemma_table_absent(self.sessions@, handle);
        }
        None
    }

    /// Whether the handle has a session.
    pub fn contains(&self, session: LrcpSessionHandle) -> (found: bool)
        requires
            self.well_formed(),
        ensures
            found == self@.dom().contains(session),
    {
        self.find(session).is_some()
    }

    /// How many sessions there are.
    pub fn len(&self) -> (count: usize)
        requires
            self.well_formed(),
        ensures
            count == self.count(),
            count == self@.dom().len(),
    {
        proof {
            lemma_table_len(self.sessions@);
        }
        self.sessions.len()
    }

    /// The number of sessions.
    pub closed spec fn count(&self) -> nat {
        self.sessions@.len()
    }

    /// A well-formed table has finitely many sessions, and as many as it
    /// counts.
    pub proof fn lemma_count(&self)
        requires
            self.well_formed(),
        ensures
            self@.dom().finite(),
            self.count() == self@.dom().len(),
    {
        lemma_table_len(self.sessions@);
    }

    /// A connect message for `session`.
    ///
    /// A handle without a session gets one, and an acknowledgment. A session
    /// that is still opening gets the acknowledgment again, and nothing
    /// changes. A session that is running gets no answer.
    pub fn handle_connect(&mut self, session: LrcpSessionHandle) -> (outcome: ConnectOutcome)
        requires
            old(self).well_formed(),
        ensures
            final(self).well_formed(),
            !old(self)@.dom().contains(session) ==> {
                &&& final(self)@ == old(self)@.insert(session, SessionView::opened(session.session))
                &&& final(self).count() == old(self).count() + 1
                &&& outcome == (ConnectOutcome { must_ack: true, opened: true })
            },
            old(self)@.dom().contains(session) ==> {
                &&& final(self)@ == old(self)@
                &&& final(self).count() == old(self).count()
                &&& outcome == (ConnectOutcome {
                    must_ack: old(self)@[session].state == LrcpSessionState::Opening,
                    opened: false,
                })
            },
    {
        match self.find(session) {
            Some(i) => {
                let must_ack = match self.sessions[i].state {
                    LrcpSessionState::Opening => true,
                    LrcpSessionState::Running => false,
                };
                ConnectOutcome { must_ack, opened: false }
            },
            None => {
                let record = LrcpSession::new(session);
                proof {
                    lemma_table_push(self.sessions@, record);
                }
                self.sessions.push(record);
                ConnectOutcome { must_ack: true, opened: true }
            },
        }
    }

    /// A data message for `session`, with its payload unescaped.
    ///
    /// Without a session nothing happens. Else the session is running from
    /// now on, the bytes of the message that the session has not received
    /// yet go to the application, provided that the message does not start
    /// behind a gap, and the peer is owed an acknowledgment of everything
    /// received so far.
    pub fn handle_data(&mut self, session: LrcpSessionHandle, position: u32, data: Vec<u8>) -> (outcome:
        DataOutcome)
        requires
            old(self).well_formed(),
        ensures
            final(self).well_formed(),
            final(self).count() == old(self).count(),
            !old(self)@.dom().contains(session) ==> {
                &&& final(self)@ == old(self)@
                &&& outcome.ack is None
                &&& outcome.delivered@.len() == 0
            },
            old(self)@.dom().contains(session) ==> {
                &&& final(self)@ == old(self)@.insert(
                    session,
                    old(self)@[session].after_data(position, data@),
                )
                &&& outcome.ack == Some(old(self)@[session].after_data(position, data@).received)
                &&& outcome.delivered@ == fresh_bytes(old(self)@[session].received, position, data@)
            },
    {
        let i = match self.find(session) {
            Some(i) => i,
            None => {
                return DataOutcome { ack: None, delivered: Vec::new() };
            },
        };
        let ghost payload = data@;
        let mut data = data;
        let entry = &mut self.sessions[i];
        entry.state = LrcpSessionState::Running;
        let received = entry.received_len;
        let mut delivered: Vec<u8> = Vec::new();
        if position <= received {
            let overlap = (received - position) as usize;
            if overlap < data.len() {
                let mut fresh = data.split_off(overlap);
                let room = (0xffff_ffff - received) as usize;
                if fresh.len() > room {
                    fresh.truncate(room);
                }
                entry.received_len = received + (fresh.len() as u32);
                delivered = fresh;
            }
        }
        let ack = entry.received_len;
        proof {
            assert(delivered@ =~= fresh_bytes(received, position, payload));
            lemma_table_update(old(self).sessions@, self.sessions@, i as int);
            assert forall|j: int| 0 <= j < self.sessions@.len() implies (
            #[trigger] self.sessions@[j]).sound() by {
                assert(old(self).sessions@[j].sound());
            }
        }
        DataOutcome { ack: Some(ack), delivered }
    }

    fn remove_at(&mut self, i: usize)
        requires
            old(self).well_formed(),
            i < old(self).sessions@.len(),
        ensures
            final(self).well_formed(),
            final(self)@ == old(self)@.remove(old(self).sessions@[i as int].handle),
            final(self).count() == old(self).count() - 1,
    {
        let _ = self.sessions.swap_remove(i);
        proof {
            lemma_table_swap_remove(old(self).sessions@, self.sessions@, i as int);
            assert forall|j: int| 0 <= j < self.sessions@.len() implies (
            #[trigger] self.sessions@[j]).sound() by {
                if j == i {
                    assert(old(self).sessions@[old(self).sessions@.len() - 1].sound());
                } else {
                    assert(old(self).sessions@[j].sound());
                }
            }
        }
    }

    /// An acknowledgment for `session`.
    ///
    /// Without a session the peer is owed a close message. Else the
    /// session's send buffer takes the acknowledgment. Where the peer
    /// acknowledged more than was ever sent, the session is removed, its read
    /// side is to be told of the misbehavior, and the peer is owed a close
    /// message.
    pub fn handle_ack(&mut self, session: LrcpSessionHandle, length: u32) -> (report: AckReport)
        requires
            old(self).well_formed(),
        ensures
            final(self).well_formed(),
            !old(self)@.dom().contains(session) ==> {
                &&& final(self)@ == old(self)@
                &&& report.close
                &&& report.ended is None
                &&& !report.wake
                &&& report.packets@.len() == 0
            },
            old(self)@.dom().contains(session) && length > old(self)@[session].send.sent() ==> {
                &&& final(self)@ == old(self)@.remove(session)
                &&& report.close
                &&& report.ended == Some(LrcpSessionError::PeerMisbehaved)
                &&& !report.wake
                &&& report.packets@.len() == 0
            },
            old(self)@.dom().contains(session) && length <= old(self)@[session].send.sent() ==> {
                &&& final(self)@ == old(self)@.insert(
                    session,
                    SessionView {
                        send: old(self)@[session].send.after_ack(length),
                        ..old(self)@[session]
                    },
                )
                &&& !report.close
                &&& report.ended is None
                &&& report.wake == (old(self)@[session].send.base < length)
                &&& message_views(report.packets@) == old(self)@[session].send.ack_packets(length)
            },
    {
        let i = match self.find(session) {
            Some(i) => i,
            None => {
                return AckReport { close: true, ended: None, wake: false, packets: Vec::new() };
            },
        };
        proof {
            assert(self.sessions@[i as int].sound());
        }
        let entry = &mut self.sessions[i];
        let outcome = entry.buffer.handle_ack(length);
        if outcome.misbehaved {
            proof {
                lemma_table_update(old(self).sessions@, self.sessions@, i as int);
                assert(self@ =~= old(self)@);
                assert forall|j: int| 0 <= j < self.sessions@.len() implies (
                #[trigger] self.sessions@[j]).sound() by {
                    assert(old(self).sessions@[j].sound());
                }
            }
            self.remove_at(i);
            return AckReport {
                close: true,
                ended: Some(LrcpSessionError::PeerMisbehaved),
                wake: false,
                packets: Vec::new(),
            };
        }
        proof {
            lemma_table_update(old(self).sessions@, self.sessions@, i as int);
            assert forall|j: int| 0 <= j < self.sessions@.len() implies (
            #[trigger] self.sessions@[j]).sound() by {
                assert(old(self).sessions@[j].sound());
            }
        }
        AckReport { close: false, ended: None, wake: outcome.wake, packets: outcome.packets }
    }

    /// A close message for `session`: the session, if there is one, is
    /// removed, and its read side is to be told that the peer closed it. The
    /// peer is owed a close message either way.
    pub fn handle_close(&mut self, session: LrcpSessionHandle) -> (ended: Option<LrcpSessionError>)
        requires
            old(self).well_formed(),
        ensures
            final(self).well_formed(),
            final(self)@ == old(self)@.remove(session),
            ended == if old(self)@.dom().contains(session) {
                Some(LrcpSessionError::PeerClosed)
            } else {
                None
            },
    {
        match self.find(session) {
            Some(i) => {
                self.remove_at(i);
                Some(LrcpSessionError::PeerClosed)
            },
            None => {
                assert(self@.remove(session) =~= self@);
                None
            },
        }
    }

    /// The end of a session whose peer did not acknowledge a data message
    /// within the expiry window: the session, if it is still there, is
    /// removed.
    pub fn handle_expiry(&mut self, session: LrcpSessionHandle) -> (removed: bool)
        requires
            old(self).well_formed(),
        ensures
            final(self).well_formed(),
            final(self)@ == old(self)@.remove(session),
            removed == old(self)@.dom().contains(session),
    {
        match self.find(session) {
            Some(i) => {
                self.remove_at(i);
                true
            },
            None => {
                assert(self@.remove(session) =~= self@);
                false
            },
        }
    }

    /// A write of the application to `session`: `None` where the session is
    /// gone, else what the session's send buffer made of it.
    pub fn write(&mut self, session: LrcpSessionHandle, buf: &[u8]) -> (outcome: Option<
        WriteOutcome,
    >)
        requires
            old(self).well_formed(),
        ensures
            final(self).well_formed(),
            final(self).count() == old(self).count(),
            !old(self)@.dom().contains(session) ==> final(self)@ == old(self)@ && outcome is None,
            old(self)@.dom().contains(session) ==> {
                &&& final(self)@ == old(self)@.insert(
                    session,
                    SessionView {
                        send: old(self)@[session].send.after_write(buf@),
                        ..old(self)@[session]
                    },
                )
                &&& outcome is Some
                &&& outcome->0.accepted == old(self)@[session].send.write_accepted(buf@)
                &&& message_views(outcome->0.packets@) == old(self)@[session].send.write_packets(
                    buf@,
                )
            },
    {
        let i = match self.find(session) {
            Some(i) => i,
            None => {
                return None;
            },
        };
        proof {
            assert(self.sessions@[i as int].sound());
        }
        let entry = &mut self.sessions[i];
        let outcome = entry.buffer.write(buf);
        proof {
            lemma_table_update(old(self).sessions@, self.sessions@, i as int);
            assert forall|j: int| 0 <= j < self.sessions@.len() implies (
            #[trigger] self.sessions@[j]).sound() by {
                assert(old(self).sessions@[j].sound());
            }
        }
        Some(outcome)
    }

    /// How many bytes of the peer's stream the session has received.
    pub fn received_len(&self, session: LrcpSessionHandle) -> (received: Option<u32>)
        requires
            self.well_formed(),
        ensures
            received == if self@.dom().contains(session) {
                Some(self@[session].received)
            } else {
                None
            },
    {
        match self.find(session) {
            Some(i) => Some(self.sessions[i].received_len),
            None => None,
        }
    }

    /// Where the session stands in its life.
    pub fn session_state(&self, session: LrcpSessionHandle) -> (state: Option<LrcpSessionState>)
        requires
            self.well_formed(),
        ensures
            state == if self@.dom().contains(session) {
                Some(self@[session].state)
            } else {
                None
            },
    {
        match self.find(session) {
            Some(i) => Some(self.sessions[i].state),
            None => None,
        }
    }

    /// The stream offset up to which the peer has acknowledged the
    /// session's bytes.
    pub fn base_position(&self, session: LrcpSessionHandle) -> (base: Option<u32>)
        requires
            self.well_formed(),
        ensures
            base == if self@.dom().contains(session) {
                Some(self@[session].send.base)
            } else {
                None
            },
    {
        match self.find(session) {
            Some(i) => Some(self.sessions[i].buffer.base_position()),
            None => None,
        }
    }

    /// Whether the peer has acknowledged every byte written to the session.
    pub fn is_empty(&self, session: LrcpSessionHandle) -> (empty: Option<bool>)
        requires
            self.well_formed(),
        ensures
            empty == if self@.dom().contains(session) {
                Some(self@[session].send.unacked.len() == 0)
            } else {
                None
            },
    {
        match self.find(session) {
            Some(i) => Some(self.sessions[i].buffer.is_empty()),
            None => None,
        }
    }
}

} // verus!
