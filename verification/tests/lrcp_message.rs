use protohackers::lrcp::message::{
    parse_ack, parse_close, parse_connect, parse_data, parse_message, LrcpMessage,
    LrcpMessageError,
};
use protohackers::lrcp::{MAX_DATA_SIZE, MAX_PACKET_SIZE};

fn data(session: u32, position: u32, payload: &[u8]) -> LrcpMessage {
    LrcpMessage::Data { session, position, data: payload.to_vec() }
}

#[test]
fn test_parse_data() {
    assert!(parse_data(b"hello").is_err());

    assert_eq!(
        parse_data(b"data/1234/5678/hello/"),
        Ok((
            b"".as_slice(),
            LrcpMessage::Data {
                session: 1234,
                position: 5678,
                data: b"hello".to_vec()
            }
        ))
    );

    assert_eq!(
        parse_data(br#"data/1234/5678/123\\456/"#),
        Ok((
            b"".as_slice(),
            LrcpMessage::Data {
                session: 1234,
                position: 5678,
                data: br#"123\456"#.to_vec()
            }
        ))
    );
}

#[test]
fn encodes_each_kind() {
    assert_eq!(LrcpMessage::Connect { session: 1 }.to_vec(), b"/connect/1/".to_vec());
    assert_eq!(LrcpMessage::Ack { session: 1, length: 0 }.to_vec(), b"/ack/1/0/".to_vec());
    assert_eq!(LrcpMessage::Close { session: 12345 }.to_vec(), b"/close/12345/".to_vec());
    assert_eq!(data(7, 42, b"hello").to_vec(), b"/data/7/42/hello/".to_vec());
    assert_eq!(
        LrcpMessage::Ack { session: 4294967295, length: 4294967295 }.to_vec(),
        b"/ack/4294967295/4294967295/".to_vec()
    );
    assert_eq!(LrcpMessage::Connect { session: 0 }.to_vec(), b"/connect/0/".to_vec());
    assert_eq!(LrcpMessage::Connect { session: 10 }.to_vec(), b"/connect/10/".to_vec());
    assert_eq!(LrcpMessage::Connect { session: 1000000000 }.to_vec(), b"/connect/1000000000/".to_vec());
}

#[test]
fn escapes_slash_and_backslash() {
    assert_eq!(data(1, 0, b"a/b\\c").to_vec(), br#"/data/1/0/a\/b\\c/"#.to_vec());
    assert_eq!(data(1, 0, b"/").to_vec(), br#"/data/1/0/\//"#.to_vec());
    assert_eq!(data(1, 0, b"\\").to_vec(), br#"/data/1/0/\\/"#.to_vec());
    assert_eq!(data(1, 0, b"").to_vec(), b"/data/1/0//".to_vec());
}

#[test]
fn decodes_each_kind() {
    assert_eq!(LrcpMessage::from(b"/connect/1/"), Ok(LrcpMessage::Connect { session: 1 }));
    assert_eq!(LrcpMessage::from(b"/ack/1/0/"), Ok(LrcpMessage::Ack { session: 1, length: 0 }));
    assert_eq!(LrcpMessage::from(b"/close/99/"), Ok(LrcpMessage::Close { session: 99 }));
    assert_eq!(LrcpMessage::from(br#"/data/1/0/hello\//"#), Ok(data(1, 0, b"hello/")));
    assert_eq!(LrcpMessage::from(b"/data/1/5/a\nb/"), Ok(data(1, 5, b"a\nb")));
    assert_eq!(LrcpMessage::from(b"/data/1/0//"), Ok(data(1, 0, b"")));
    assert_eq!(
        LrcpMessage::from(b"/connect/4294967295/"),
        Ok(LrcpMessage::Connect { session: 4294967295 })
    );
    assert_eq!(LrcpMessage::from(b"/connect/007/"), Ok(LrcpMessage::Connect { session: 7 }));
}

#[test]
fn round_trip_of_every_kind() {
    let payload: Vec<u8> = (0..=255u8).collect();
    let messages = vec![
        LrcpMessage::Connect { session: 0 },
        LrcpMessage::Connect { session: 4294967295 },
        LrcpMessage::Ack { session: 17, length: 123456 },
        LrcpMessage::Close { session: 305419896 },
        data(3, 9, b""),
        data(3, 9, b"plain"),
        data(3, 9, b"//\\\\/\\"),
        data(4294967295, 4294967295, &payload),
    ];
    for message in messages {
        let wire = message.to_vec();
        assert_eq!(LrcpMessage::from(&wire), Ok(message));
    }
}

#[test]
fn payload_of_slashes_survives() {
    let payload = b"/\\/\\//\\\\".to_vec();
    let wire = data(1, 0, &payload).to_vec();
    assert_eq!(wire.len(), b"/data/1/0/".len() + 2 * payload.len() + 1);
    match LrcpMessage::from(&wire) {
        Ok(LrcpMessage::Data { data, .. }) => assert_eq!(data, payload),
        other => panic!("not a data message: {:?}", other),
    }
}

#[test]
fn rejects_what_is_no_message() {
    let bad: Vec<&[u8]> = vec![
        b"",
        b"/",
        b"connect/1/",
        b"/connect/1",
        b"/connect//",
        b"/connect/x/",
        b"/connect/1/ ",
        b"/connect/1/\n",
        b"/connect/-1/",
        b"/connect/+1/",
        b"/connect/4294967296/",
        b"/connect/99999999999999999999/",
        b"/CONNECT/1/",
        b"/hello/1/",
        b"/ack/1/",
        b"/ack/1/2",
        b"/ack/1/2/3/",
        b"/ack/1/x/",
        b"/close/1/2/",
        b"/close/",
        b"/data/1/0/",
        b"/data/1/0/abc",
        b"/data/1/0/a/b/",
        b"/data/1/0/a\\b/",
        b"/data/1/0/abc\\/",
        b"/data/1/0/abc\\",
        b"/data/1/x/abc/",
        b"/data/1/0/abc//",
        b"/data/1/4294967296/abc/",
    ];
    for packet in bad {
        assert_eq!(LrcpMessage::from(packet), Err(LrcpMessageError::Parse), "{:?}", packet);
    }
}

#[test]
fn each_form_is_read_by_its_own_function() {
    assert_eq!(
        parse_connect(b"connect/5/"),
        Ok((b"".as_slice(), LrcpMessage::Connect { session: 5 }))
    );
    assert_eq!(
        parse_ack(b"ack/5/6/"),
        Ok((b"".as_slice(), LrcpMessage::Ack { session: 5, length: 6 }))
    );
    assert_eq!(parse_close(b"close/5/"), Ok((b"".as_slice(), LrcpMessage::Close { session: 5 })));
    assert_eq!(
        parse_message(b"/close/5/"),
        Ok((b"".as_slice(), LrcpMessage::Close { session: 5 }))
    );
    assert_eq!(parse_connect(b"close/5/"), Err(LrcpMessageError::Parse));
    assert_eq!(parse_ack(b"ack/5/"), Err(LrcpMessageError::Parse));
    assert_eq!(parse_close(b"/close/5/"), Err(LrcpMessageError::Parse));
    assert_eq!(parse_message(b"close/5/"), Err(LrcpMessageError::Parse));
}

#[test]
fn session_id_of_each_kind() {
    assert_eq!(LrcpMessage::Connect { session: 1 }.session_id(), 1);
    assert_eq!(data(2, 0, b"x").session_id(), 2);
    assert_eq!(LrcpMessage::Ack { session: 3, length: 9 }.session_id(), 3);
    assert_eq!(LrcpMessage::Close { session: 4 }.session_id(), 4);
}

#[test]
fn datagram_size_is_checked() {
    assert_eq!(MAX_PACKET_SIZE, 1000);
    assert_eq!(MAX_DATA_SIZE, 971);
    let fits = data(4294967295, 4294967295, &vec![b'a'; 971]);
    let bytes = fits.to_datagram().unwrap();
    assert_eq!(bytes.len(), 1000);
    assert_eq!(bytes, fits.to_vec());
    let too_long = data(4294967295, 4294967295, &vec![b'a'; 972]);
    assert_eq!(too_long.to_datagram(), Err(LrcpMessageError::TooLarge));
    let escaped_too_long = data(1, 0, &vec![b'/'; 600]);
    assert_eq!(escaped_too_long.to_vec().len(), 1211);
    assert_eq!(escaped_too_long.to_datagram(), Err(LrcpMessageError::TooLarge));
    assert_eq!(
        LrcpMessage::Connect { session: 1 }.to_datagram(),
        Ok(b"/connect/1/".to_vec())
    );
}
