use protohackers::lrcp::message::LrcpMessage;
use protohackers::lrcp::session_write::{
    ClosePolled, LrcpSessionBuffer, LrcpSessionWrite, PollOutcome, Watchdog, WatchdogAction,
    WriteAction, WriteEvent, WriteFailure, WritePolled, WriteState,
};
use protohackers::lrcp::state::LrcpState;
use protohackers::lrcp::{
    LrcpSessionError, LrcpSessionHandle, LrcpSessionState, PeerAddr, MAX_DATA_SIZE,
};

fn peer(port: u16) -> PeerAddr {
    PeerAddr { v6: false, ip: 0x7f00_0001, port, flowinfo: 0, scope_id: 0 }
}

fn handle(port: u16, session: u32) -> LrcpSessionHandle {
    LrcpSessionHandle { peer: peer(port), session }
}

fn data(session: u32, position: u32, payload: &[u8]) -> LrcpMessage {
    LrcpMessage::Data { session, position, data: payload.to_vec() }
}

#[test]
fn connect_twice_opens_one_session() {
    let mut state = LrcpState::new();
    let first = state.handle_packet(b"/connect/1/", peer(1));
    assert_eq!(first.reply, Some(LrcpMessage::Ack { session: 1, length: 0 }));
    assert!(first.opened);
    assert_eq!(state.len(), 1);
    let second = state.handle_packet(b"/connect/1/", peer(1));
    assert_eq!(second.reply, Some(LrcpMessage::Ack { session: 1, length: 0 }));
    assert!(!second.opened);
    assert_eq!(state.len(), 1);
    assert_eq!(state.session_state(handle(1, 1)), Some(LrcpSessionState::Opening));
}

#[test]
fn connect_on_running_session_is_not_answered() {
    let mut state = LrcpState::new();
    state.handle_packet(b"/connect/1/", peer(1));
    state.handle_packet(b"/data/1/0/a/", peer(1));
    assert_eq!(state.session_state(handle(1, 1)), Some(LrcpSessionState::Running));
    let again = state.handle_packet(b"/connect/1/", peer(1));
    assert_eq!(again.reply, None);
    assert!(!again.opened);
    assert_eq!(state.received_len(handle(1, 1)), Some(1));
}

#[test]
fn sessions_are_told_apart_by_peer_and_id() {
    let mut state = LrcpState::new();
    assert!(state.handle_packet(b"/connect/1/", peer(1)).opened);
    assert!(state.handle_packet(b"/connect/1/", peer(2)).opened);
    assert!(state.handle_packet(b"/connect/2/", peer(1)).opened);
    assert_eq!(state.len(), 3);
    state.handle_packet(b"/data/1/0/abc/", peer(2));
    assert_eq!(state.received_len(handle(1, 1)), Some(0));
    assert_eq!(state.received_len(handle(2, 1)), Some(3));
    assert_eq!(state.received_len(handle(1, 2)), Some(0));
    assert_eq!(state.received_len(handle(3, 1)), None);
    assert!(state.contains(handle(1, 2)));
    assert!(!state.contains(handle(2, 2)));
}

#[test]
fn data_without_session_is_ignored() {
    let mut state = LrcpState::new();
    let outcome = state.handle_packet(b"/data/1/0/abc/", peer(1));
    assert_eq!(outcome.reply, None);
    assert!(outcome.delivered.is_empty());
    assert_eq!(state.len(), 0);
}

#[test]
fn out_of_order_data_is_not_delivered() {
    let mut state = LrcpState::new();
    state.handle_connect(handle(1, 1));
    let outcome = state.handle_data(handle(1, 1), 5, b"xyz".to_vec());
    assert_eq!(outcome.ack, Some(0));
    assert!(outcome.delivered.is_empty());
    assert_eq!(state.received_len(handle(1, 1)), Some(0));
    let outcome = state.handle_packet(b"/data/1/5/xyz/", peer(1));
    assert_eq!(outcome.reply, Some(LrcpMessage::Ack { session: 1, length: 0 }));
    assert!(outcome.delivered.is_empty());
}

#[test]
fn overlapping_data_is_delivered_once() {
    let mut state = LrcpState::new();
    state.handle_connect(handle(1, 1));
    let outcome = state.handle_data(handle(1, 1), 0, b"abcde".to_vec());
    assert_eq!(outcome.delivered, b"abcde".to_vec());
    assert_eq!(outcome.ack, Some(5));
    let outcome = state.handle_data(handle(1, 1), 2, b"cdefg".to_vec());
    assert_eq!(outcome.delivered, b"fg".to_vec());
    assert_eq!(outcome.ack, Some(7));
    assert_eq!(state.received_len(handle(1, 1)), Some(7));
    let outcome = state.handle_data(handle(1, 1), 2, b"cdefg".to_vec());
    assert!(outcome.delivered.is_empty());
    assert_eq!(outcome.ack, Some(7));
    let outcome = state.handle_data(handle(1, 1), 7, b"".to_vec());
    assert!(outcome.delivered.is_empty());
    assert_eq!(outcome.ack, Some(7));
}

#[test]
fn delivery_stops_at_the_last_offset() {
    let mut state = LrcpState::new();
    state.handle_connect(handle(1, 1));
    let outcome = state.handle_data(handle(1, 1), 4294967290, b"abc".to_vec());
    assert_eq!(outcome.ack, Some(0));
    assert!(outcome.delivered.is_empty());
}

#[test]
fn ack_of_part_of_the_buffer() {
    let mut buffer = LrcpSessionBuffer::new(9, None);
    let written = buffer.write(b"0123456789");
    assert_eq!(written.accepted, Some(10));
    assert_eq!(written.packets, vec![data(9, 0, b"0123456789")]);
    assert_eq!(buffer.base_position(), 0);
    let outcome = buffer.handle_ack(4);
    assert!(!outcome.misbehaved);
    assert!(outcome.wake);
    assert_eq!(buffer.unacked(), b"456789");
    assert_eq!(buffer.base_position(), 4);
    assert_eq!(outcome.packets, vec![data(9, 4, b"456789")]);
}

#[test]
fn ack_of_everything_stale_and_misbehaved() {
    let mut buffer = LrcpSessionBuffer::new(9, None);
    buffer.write(b"0123456789");
    let stale = buffer.handle_ack(0);
    assert!(!stale.misbehaved && !stale.wake && stale.packets.is_empty());
    assert_eq!(buffer.unacked().len(), 10);
    let beyond = buffer.handle_ack(11);
    assert!(beyond.misbehaved && !beyond.wake && beyond.packets.is_empty());
    assert_eq!(buffer.unacked().len(), 10);
    assert_eq!(buffer.base_position(), 0);
    let whole = buffer.handle_ack(10);
    assert!(!whole.misbehaved && whole.wake && whole.packets.is_empty());
    assert!(buffer.is_empty());
    assert_eq!(buffer.base_position(), 10);
    let old = buffer.handle_ack(4);
    assert!(!old.misbehaved && !old.wake && old.packets.is_empty());
    assert_eq!(buffer.base_position(), 10);
    let next = buffer.write(b"ab");
    assert_eq!(next.packets, vec![data(9, 10, b"ab")]);
}

#[test]
fn misbehaving_peer_loses_its_session() {
    let mut state = LrcpState::new();
    state.handle_connect(handle(1, 1));
    state.write(handle(1, 1), b"hello").unwrap();
    let report = state.handle_ack(handle(1, 1), 6);
    assert!(report.close);
    assert_eq!(report.ended, Some(LrcpSessionError::PeerMisbehaved));
    assert!(!state.contains(handle(1, 1)));
    assert_eq!(state.len(), 0);

    let mut state = LrcpState::new();
    state.handle_packet(b"/connect/1/", peer(1));
    let outcome = state.handle_packet(b"/ack/1/1/", peer(1));
    assert_eq!(outcome.reply, Some(LrcpMessage::Close { session: 1 }));
    assert_eq!(outcome.ended, Some(LrcpSessionError::PeerMisbehaved));
    assert!(!state.contains(handle(1, 1)));
}

#[test]
fn ack_without_session_is_answered_by_close() {
    let mut state = LrcpState::new();
    let outcome = state.handle_packet(b"/ack/3/0/", peer(1));
    assert_eq!(outcome.reply, Some(LrcpMessage::Close { session: 3 }));
    assert_eq!(outcome.ended, None);
}

#[test]
fn ack_through_the_table() {
    let mut state = LrcpState::new();
    state.handle_connect(handle(1, 1));
    state.write(handle(1, 1), b"0123456789").unwrap();
    assert_eq!(state.is_empty(handle(1, 1)), Some(false));
    let outcome = state.handle_packet(b"/ack/1/4/", peer(1));
    assert_eq!(outcome.reply, None);
    assert!(outcome.wake);
    assert_eq!(outcome.packets, vec![data(1, 4, b"456789")]);
    assert_eq!(state.base_position(handle(1, 1)), Some(4));
    let outcome = state.handle_packet(b"/ack/1/10/", peer(1));
    assert_eq!(outcome.reply, None);
    assert!(outcome.wake);
    assert!(outcome.packets.is_empty());
    assert_eq!(state.is_empty(handle(1, 1)), Some(true));
    let outcome = state.handle_packet(b"/ack/1/10/", peer(1));
    assert_eq!(outcome.reply, None);
    assert!(!outcome.wake);
}

#[test]
fn close_removes_and_is_echoed() {
    let mut state = LrcpState::new();
    state.handle_packet(b"/connect/1/", peer(1));
    let outcome = state.handle_packet(b"/close/1/", peer(1));
    assert_eq!(outcome.reply, Some(LrcpMessage::Close { session: 1 }));
    assert_eq!(outcome.ended, Some(LrcpSessionError::PeerClosed));
    assert!(!state.contains(handle(1, 1)));
    let outcome = state.handle_packet(b"/close/1/", peer(1));
    assert_eq!(outcome.reply, Some(LrcpMessage::Close { session: 1 }));
    assert_eq!(outcome.ended, None);
    // The handle can be used again.
    let outcome = state.handle_packet(b"/connect/1/", peer(1));
    assert!(outcome.opened);
    assert_eq!(state.received_len(handle(1, 1)), Some(0));
}

#[test]
fn malformed_datagram_is_dropped() {
    let mut state = LrcpState::new();
    state.handle_packet(b"/connect/1/", peer(1));
    for packet in [&b"/data/1/0/a/b/"[..], b"garbage", b"", b"/close/1", b"/connect/1/x"] {
        let outcome = state.handle_packet(packet, peer(1));
        assert_eq!(outcome.reply, None);
        assert!(outcome.packets.is_empty() && outcome.delivered.is_empty());
        assert!(!outcome.opened && !outcome.wake);
        assert_eq!(outcome.ended, None);
    }
    assert_eq!(state.len(), 1);
    assert_eq!(state.session_state(handle(1, 1)), Some(LrcpSessionState::Opening));
}

#[test]
fn end_to_end() {
    let mut state = LrcpState::new();
    let outcome = state.handle_packet(b"/connect/1/", peer(1));
    assert_eq!(outcome.reply.unwrap().to_datagram().unwrap(), b"/ack/1/0/".to_vec());
    let outcome = state.handle_packet(br#"/data/1/0/hello\//"#, peer(1));
    assert_eq!(outcome.delivered, b"hello/".to_vec());
    assert_eq!(outcome.reply.unwrap().to_datagram().unwrap(), b"/ack/1/6/".to_vec());
    let outcome = state.handle_packet(b"/data/1/6/\n/", peer(1));
    assert_eq!(outcome.delivered, b"\n".to_vec());
    assert_eq!(outcome.reply.unwrap().to_datagram().unwrap(), b"/ack/1/7/".to_vec());
    let written = state.write(handle(1, 1), b"/olleh\n").unwrap();
    assert_eq!(written.accepted, Some(7));
    assert_eq!(written.packets.len(), 1);
    let datagram = written.packets[0].to_datagram().unwrap();
    assert_eq!(datagram, b"/data/1/0/\\/olleh\n/".to_vec());
    assert!(datagram.len() < 1000);
    let outcome = state.handle_packet(b"/ack/1/7/", peer(1));
    assert_eq!(outcome.reply, None);
    assert_eq!(state.is_empty(handle(1, 1)), Some(true));
}

#[test]
fn escaped_line_in_one_datagram() {
    let mut state = LrcpState::new();
    state.handle_packet(b"/connect/1/", peer(1));
    let outcome = state.handle_packet(b"/data/1/0/hello\\/\n/", peer(1));
    assert_eq!(outcome.delivered, b"hello/\n".to_vec());
    assert_eq!(outcome.reply.unwrap().to_vec(), b"/ack/1/7/".to_vec());
}

#[test]
fn long_write_is_cut_into_chunks() {
    let mut buffer = LrcpSessionBuffer::new(1, None);
    let bytes: Vec<u8> = (0..2500u32).map(|i| b'a' + (i % 26) as u8).collect();
    let written = buffer.write(&bytes);
    assert_eq!(written.accepted, Some(2500));
    assert_eq!(written.packets.len(), 3);
    assert_eq!(written.packets[0], data(1, 0, &bytes[..971]));
    assert_eq!(written.packets[1], data(1, 971, &bytes[971..1942]));
    assert_eq!(written.packets[2], data(1, 1942, &bytes[1942..]));
    for packet in &written.packets {
        assert!(packet.to_datagram().unwrap().len() <= 1000);
    }
    assert_eq!(MAX_DATA_SIZE, 971);
}

#[test]
fn chunks_of_slashes_fit_in_a_datagram() {
    let buffer = LrcpSessionBuffer::new(4294967295, None);
    let bytes = vec![b'/'; 1000];
    let packets = buffer.transmit_buf(&bytes, 4294966000);
    assert_eq!(packets.len(), 3);
    assert_eq!(packets[0], data(4294967295, 4294966000, &bytes[..485]));
    assert_eq!(packets[1], data(4294967295, 4294966485, &bytes[..485]));
    assert_eq!(packets[2], data(4294967295, 4294966970, &bytes[..30]));
    let mixed: Vec<u8> = (0..3000u32).map(|i| if i % 3 == 0 { b'\\' } else { b'x' }).collect();
    let packets = buffer.transmit_buf(&mixed, 0);
    let mut joined = Vec::new();
    let mut at = 0u32;
    for packet in &packets {
        assert!(packet.to_datagram().unwrap().len() <= 1000);
        match packet {
            LrcpMessage::Data { session, position, data } => {
                assert_eq!(*session, 4294967295);
                assert_eq!(*position, at);
                assert!(!data.is_empty() && data.len() <= 971);
                at += data.len() as u32;
                joined.extend_from_slice(data);
            }
            other => panic!("not a data message: {:?}", other),
        }
    }
    assert_eq!(joined, mixed);
    assert!(buffer.transmit_buf(b"", 5).is_empty());
}

#[test]
fn one_chunk_as_a_message() {
    let buffer = LrcpSessionBuffer::new(3, None);
    assert_eq!(buffer.transmit_buf_chunk(b"abc", 12), data(3, 12, b"abc"));
}

#[test]
fn bounded_buffer_takes_what_fits() {
    let mut buffer = LrcpSessionBuffer::new(1, Some(8));
    let first = buffer.write(b"01234");
    assert_eq!(first.accepted, Some(5));
    let second = buffer.write(b"56789");
    assert_eq!(second.accepted, Some(3));
    assert_eq!(second.packets, vec![data(1, 5, b"567")]);
    assert_eq!(buffer.unacked(), b"01234567");
    let third = buffer.write(b"89");
    assert_eq!(third.accepted, None);
    assert!(third.packets.is_empty());
    let outcome = buffer.handle_ack(2);
    assert!(outcome.wake);
    let fourth = buffer.write(b"89ab");
    assert_eq!(fourth.accepted, Some(2));
    assert_eq!(fourth.packets, vec![data(1, 8, b"89")]);
    let empty = LrcpSessionBuffer::new(1, Some(0)).write(b"");
    assert_eq!(empty.accepted, None);
    let nothing = LrcpSessionBuffer::new(1, None).write(b"");
    assert_eq!(nothing.accepted, Some(0));
    assert!(nothing.packets.is_empty());
}

#[test]
fn write_to_a_session_that_is_gone() {
    let mut state = LrcpState::new();
    assert!(state.write(handle(1, 1), b"abc").is_none());
    assert_eq!(state.is_empty(handle(1, 1)), None);
    assert_eq!(state.base_position(handle(1, 1)), None);
    assert_eq!(state.session_state(handle(1, 1)), None);
}

#[test]
fn expiry_removes_the_session() {
    let mut state = LrcpState::new();
    state.handle_connect(handle(1, 1));
    state.handle_connect(handle(1, 2));
    state.handle_connect(handle(1, 3));
    assert!(state.handle_expiry(handle(1, 1)));
    assert!(!state.handle_expiry(handle(1, 1)));
    assert!(!state.contains(handle(1, 1)));
    assert!(state.contains(handle(1, 2)) && state.contains(handle(1, 3)));
    assert_eq!(state.handle_close(handle(1, 2)), Some(LrcpSessionError::PeerClosed));
    assert_eq!(state.handle_close(handle(1, 2)), None);
    assert!(state.contains(handle(1, 3)));
    assert_eq!(state.len(), 1);
}

#[test]
fn watchdog_retransmits_until_acknowledged() {
    let message = data(1, 10, b"hello");
    let mut watch = Watchdog::new(&message).unwrap();
    assert_eq!(watch.expected_ack, 15);
    assert_eq!(watch.tick(10), WatchdogAction::Retransmit);
    assert_eq!(watch.tick(14), WatchdogAction::Retransmit);
    assert_eq!(watch.waited, 6);
    assert_eq!(watch.tick(15), WatchdogAction::Done);
    assert_eq!(watch.tick(20), WatchdogAction::Done);
    assert_eq!(watch.waited, 6);
}

#[test]
fn watchdog_expires() {
    let mut watch = Watchdog::new(&data(1, 0, b"x")).unwrap();
    for _ in 0..19 {
        assert_eq!(watch.tick(0), WatchdogAction::Retransmit);
    }
    assert_eq!(watch.waited, 57);
    assert_eq!(watch.tick(0), WatchdogAction::Expired);
    assert_eq!(watch.waited, 60);
    assert_eq!(watch.tick(0), WatchdogAction::Expired);
    assert_eq!(watch.tick(1), WatchdogAction::Done);
}

#[test]
fn watchdog_only_for_data() {
    assert_eq!(Watchdog::new(&LrcpMessage::Connect { session: 1 }), None);
    assert_eq!(Watchdog::new(&LrcpMessage::Ack { session: 1, length: 2 }), None);
    assert_eq!(Watchdog::new(&LrcpMessage::Close { session: 1 }), None);
    assert_eq!(Watchdog::new(&data(1, 4294967295, b"x")), None);
    assert_eq!(
        Watchdog::new(&data(1, 4294967294, b"x")),
        Some(Watchdog { expected_ack: 4294967295, waited: 0 })
    );
}

#[test]
fn writer_writes() {
    let mut writer = LrcpSessionWrite::new(5);
    assert_eq!(writer.current_state(), WriteState::Idle);
    assert_eq!(writer.poll_write(WriteEvent::Called, true), WriteAction::StartWrite);
    assert_eq!(writer.current_state(), WriteState::Writing);
    assert_eq!(
        writer.poll_write(WriteEvent::Write(WritePolled::Pending), true),
        WriteAction::Return(PollOutcome::Pending)
    );
    assert_eq!(writer.poll_write(WriteEvent::Called, true), WriteAction::PollWrite);
    assert_eq!(
        writer.poll_write(WriteEvent::Write(WritePolled::Accepted(3)), false),
        WriteAction::Return(PollOutcome::Written(3))
    );
    assert_eq!(writer.current_state(), WriteState::Idle);
}

#[test]
fn writer_waits_while_full() {
    let mut writer = LrcpSessionWrite::new(5);
    writer.poll_write(WriteEvent::Called, false);
    assert_eq!(
        writer.poll_write(WriteEvent::Write(WritePolled::Full), false),
        WriteAction::Return(PollOutcome::Pending)
    );
    assert_eq!(writer.current_state(), WriteState::Full);
    assert_eq!(writer.poll_write(WriteEvent::Called, false), WriteAction::StartWrite);
    assert_eq!(
        writer.poll_write(WriteEvent::Write(WritePolled::Failed), false),
        WriteAction::Return(PollOutcome::Failed(WriteFailure::Operation))
    );
    assert_eq!(writer.current_state(), WriteState::Idle);
}

#[test]
fn writer_flushes() {
    let mut writer = LrcpSessionWrite::new(5);
    assert_eq!(
        writer.poll_flush(WriteEvent::Called, true),
        WriteAction::Return(PollOutcome::Done)
    );
    assert_eq!(
        writer.poll_flush(WriteEvent::Called, false),
        WriteAction::Return(PollOutcome::Pending)
    );
    assert_eq!(writer.current_state(), WriteState::Flushing);
    assert_eq!(
        writer.poll_write(WriteEvent::Called, false),
        WriteAction::Return(PollOutcome::Pending)
    );
    assert_eq!(
        writer.poll_flush(WriteEvent::Called, true),
        WriteAction::Return(PollOutcome::Done)
    );
    assert_eq!(writer.current_state(), WriteState::Idle);
}

#[test]
fn writer_shuts_down_after_the_buffer_has_drained() {
    let mut writer = LrcpSessionWrite::new(5);
    assert_eq!(writer.send_close(), LrcpMessage::Close { session: 5 });
    assert_eq!(
        writer.poll_shutdown(WriteEvent::Called, false),
        WriteAction::Return(PollOutcome::Pending)
    );
    assert_eq!(writer.current_state(), WriteState::ShutdownFlush);
    assert_eq!(
        writer.poll_shutdown(WriteEvent::Called, false),
        WriteAction::Return(PollOutcome::Pending)
    );
    assert_eq!(writer.poll_shutdown(WriteEvent::Called, true), WriteAction::StartClose);
    assert_eq!(writer.current_state(), WriteState::ShutdownSend);
    assert_eq!(
        writer.poll_shutdown(WriteEvent::Close(ClosePolled::Pending), true),
        WriteAction::Return(PollOutcome::Pending)
    );
    assert_eq!(writer.poll_shutdown(WriteEvent::Called, true), WriteAction::PollClose);
    assert_eq!(
        writer.poll_shutdown(WriteEvent::Close(ClosePolled::Sent), true),
        WriteAction::Return(PollOutcome::Done)
    );
    assert_eq!(writer.current_state(), WriteState::Shutdown);
    let broken = WriteAction::Return(PollOutcome::Failed(WriteFailure::BrokenPipe));
    assert_eq!(writer.poll_write(WriteEvent::Called, true), broken);
    assert_eq!(writer.poll_flush(WriteEvent::Called, true), broken);
    assert_eq!(writer.poll_shutdown(WriteEvent::Called, true), broken);
    assert_eq!(writer.poll_write(WriteEvent::Write(WritePolled::Accepted(1)), true), broken);
    assert_eq!(writer.current_state(), WriteState::Shutdown);
    assert_eq!(
        LrcpSessionWrite::handle_shutdown_finish(),
        PollOutcome::Failed(WriteFailure::BrokenPipe)
    );
}

#[test]
fn shutdown_completes_the_write_in_flight_first() {
    let mut writer = LrcpSessionWrite::new(5);
    writer.poll_write(WriteEvent::Called, true);
    assert_eq!(writer.poll_shutdown(WriteEvent::Called, true), WriteAction::PollWrite);
    assert_eq!(
        writer.poll_shutdown(WriteEvent::Write(WritePolled::Pending), true),
        WriteAction::Return(PollOutcome::Pending)
    );
    assert_eq!(writer.current_state(), WriteState::Writing);
    assert_eq!(
        writer.poll_shutdown(WriteEvent::Write(WritePolled::Accepted(4)), false),
        WriteAction::Return(PollOutcome::Pending)
    );
    assert_eq!(writer.current_state(), WriteState::ShutdownFlush);
    assert_eq!(
        writer.poll_write(WriteEvent::Called, false),
        WriteAction::Return(PollOutcome::Pending)
    );
    assert_eq!(writer.poll_flush(WriteEvent::Called, true), WriteAction::StartClose);
    assert_eq!(
        writer.poll_flush(WriteEvent::Close(ClosePolled::Failed), true),
        WriteAction::Return(PollOutcome::Failed(WriteFailure::Operation))
    );
    assert_eq!(writer.current_state(), WriteState::Shutdown);
}

#[test]
fn event_that_answers_nothing_is_a_call() {
    let mut writer = LrcpSessionWrite::new(5);
    assert_eq!(
        writer.poll_write(WriteEvent::Write(WritePolled::Accepted(9)), true),
        WriteAction::StartWrite
    );
    assert_eq!(writer.poll_write(WriteEvent::Close(ClosePolled::Sent), true), WriteAction::PollWrite);
    assert_eq!(writer.current_state(), WriteState::Writing);
}

#[test]
fn error_texts() {
    assert_eq!(LrcpSessionError::PeerClosed.message(), "peer closed session");
    assert_eq!(LrcpSessionError::PeerMisbehaved.message(), "peer misbehaved");
}
