use bytes::BytesMut;
use protohackers::speed_daemon::client::{Client, ClientAction, Failure, Role};
use protohackers::speed_daemon::codec::{MessageToClientEncoder, MessageToServerDecoder};
use protohackers::speed_daemon::heartbeat::{Heartbeat, HeartbeatExistsError, HeartbeatPlan};
use protohackers::speed_daemon::message::{MessageToClient, MessageToServer};
use protohackers::speed_daemon::parse::{
    parse_message_to_client, parse_message_to_server, ParseError,
};
use protohackers::speed_daemon::HeartbeatInterval;

#[test]
fn test_parse_error() {
    let (_, message) = parse_message_to_client(&[0x10, 0x03, 0x62, 0x61, 0x64]).unwrap();
    assert_eq!(
        message,
        MessageToClient::Error {
            msg: "bad".to_owned()
        }
    );

    let (_, message) = parse_message_to_client(&[
        0x10, 0x0b, 0x69, 0x6c, 0x6c, 0x65, 0x67, 0x61, 0x6c, 0x20, 0x6d, 0x73, 0x67,
    ])
    .unwrap();
    assert_eq!(
        message,
        MessageToClient::Error {
            msg: "illegal msg".to_owned()
        }
    );
}

#[test]
fn test_parse_plate() {
    let (_, message) =
        parse_message_to_server(&[0x20, 0x04, 0x55, 0x4e, 0x31, 0x58, 0x00, 0x00, 0x03, 0xe8])
            .unwrap();
    assert_eq!(
        message,
        MessageToServer::Plate {
            plate: "UN1X".to_owned(),
            timestamp: 1000
        }
    );

    let (_, message) = parse_message_to_server(&[
        0x20, 0x07, 0x52, 0x45, 0x30, 0x35, 0x42, 0x4b, 0x47, 0x00, 0x01, 0xe2, 0x40,
    ])
    .unwrap();
    assert_eq!(
        message,
        MessageToServer::Plate {
            plate: "RE05BKG".to_owned(),
            timestamp: 123456
        }
    );
}

#[test]
fn test_parse_ticket() {
    let (_, message) = parse_message_to_client(&[
        0x21, 0x04, 0x55, 0x4e, 0x31, 0x58, 0x00, 0x42, 0x00, 0x64, 0x00, 0x01, 0xe2, 0x40,
        0x00, 0x6e, 0x00, 0x01, 0xe3, 0xa8, 0x27, 0x10,
    ])
    .unwrap();
    assert_eq!(
        message,
        MessageToClient::Ticket {
            plate: "UN1X".to_owned(),
            road: 66,
            mile1: 100,
            timestamp1: 123456,
            mile2: 110,
            timestamp2: 123816,
            speed: 10000,
        }
    );

    let (_, message) = parse_message_to_client(&[
        0x21, 0x07, 0x52, 0x45, 0x30, 0x35, 0x42, 0x4b, 0x47, 0x01, 0x70, 0x04, 0xd2, 0x00,
        0x0f, 0x42, 0x40, 0x04, 0xd3, 0x00, 0x0f, 0x42, 0x7c, 0x17, 0x70,
    ])
    .unwrap();
    assert_eq!(
        message,
        MessageToClient::Ticket {
            plate: "RE05BKG".to_owned(),
            road: 368,
            mile1: 1234,
            timestamp1: 1000000,
            mile2: 1235,
            timestamp2: 1000060,
            speed: 6000,
        }
    );
}

#[test]
fn test_want_heartbeat() {
    let (_, message) = parse_message_to_server(&[0x40, 0x00, 0x00, 0x00, 0x0a]).unwrap();
    assert_eq!(
        message,
        MessageToServer::WantHeartbeat {
            interval: HeartbeatInterval::from_secs(1) // raw = 10
        }
    );

    let (_, message) = parse_message_to_server(&[0x40, 0x00, 0x00, 0x04, 0xdb]).unwrap();
    assert_eq!(
        message,
        MessageToServer::WantHeartbeat {
            interval: HeartbeatInterval::from_millis(124300), // raw = 1243 = 124.3s
        }
    );
}

#[test]
fn test_heartbeat() {
    let (_, message) = parse_message_to_client(&[0x41]).unwrap();
    assert_eq!(message, MessageToClient::Heartbeat);
}

#[test]
fn test_i_am_camera() {
    let (_, message) =
        parse_message_to_server(&[0x80, 0x00, 0x42, 0x00, 0x64, 0x00, 0x3c]).unwrap();
    assert_eq!(
        message,
        MessageToServer::IAmCamera {
            road: 66,
            mile: 100,
            limit: 60
        }
    );

    let (_, message) =
        parse_message_to_server(&[0x80, 0x01, 0x70, 0x04, 0xd2, 0x00, 0x28]).unwrap();
    assert_eq!(
        message,
        MessageToServer::IAmCamera {
            road: 368,
            mile: 1234,
            limit: 40
        }
    );
}

#[test]
fn test_i_am_dispatcher() {
    let (_, message) = parse_message_to_server(&[0x81, 0x01, 0x00, 0x42]).unwrap();
    assert_eq!(message, MessageToServer::IAmDispatcher { roads: vec![66] });

    let (_, message) =
        parse_message_to_server(&[0x81, 0x03, 0x00, 0x42, 0x01, 0x70, 0x13, 0x88]).unwrap();
    assert_eq!(
        message,
        MessageToServer::IAmDispatcher {
            roads: vec![66, 368, 5000]
        }
    );
}

#[test]
fn what_follows_a_message_is_handed_back() {
    let (rest, message) = parse_message_to_server(&[0x80, 0, 1, 0, 2, 0, 3, 0x40, 9]).unwrap();
    assert_eq!(message, MessageToServer::IAmCamera { road: 1, mile: 2, limit: 3 });
    assert_eq!(rest, &[0x40, 9]);
    let (rest, message) = parse_message_to_client(&[0x41, 0x41]).unwrap();
    assert_eq!(message, MessageToClient::Heartbeat);
    assert_eq!(rest, &[0x41]);
    let (rest, message) = parse_message_to_server(&[0x81, 0x00]).unwrap();
    assert_eq!(message, MessageToServer::IAmDispatcher { roads: vec![] });
    assert!(rest.is_empty());
}

#[test]
fn incomplete_and_invalid() {
    let incomplete: Vec<&[u8]> = vec![
        &[],
        &[0x20],
        &[0x20, 0x04, 0x55],
        &[0x20, 0x01, 0x55, 0, 0, 0],
        &[0x40, 0, 0, 0],
        &[0x80, 0, 0, 0, 0, 0],
        &[0x81],
        &[0x81, 2, 0, 1, 0],
    ];
    for input in incomplete {
        assert_eq!(parse_message_to_server(input), Err(ParseError::Incomplete), "{:?}", input);
    }
    assert_eq!(parse_message_to_server(&[0x10, 0]), Err(ParseError::Invalid));
    assert_eq!(parse_message_to_server(&[0x00]), Err(ParseError::Invalid));
    assert_eq!(parse_message_to_server(&[0x20, 1, 0xff, 0, 0, 0, 0]), Err(ParseError::Invalid));
    assert_eq!(parse_message_to_client(&[0x20, 0]), Err(ParseError::Invalid));
    assert_eq!(parse_message_to_client(&[0x10, 2, 0xc3, 0x28]), Err(ParseError::Invalid));
    assert_eq!(parse_message_to_client(&[0x10, 2, 0xc3]), Err(ParseError::Incomplete));
    assert_eq!(parse_message_to_client(&[]), Err(ParseError::Incomplete));
    assert_eq!(parse_message_to_client(&[0x21, 0, 0, 0]), Err(ParseError::Incomplete));
    let (_, message) = parse_message_to_client(&[0x10, 2, 0xc3, 0xa9]).unwrap();
    assert_eq!(message, MessageToClient::error("\u{e9}"));
}

#[test]
fn largest_heartbeat_interval() {
    let (_, message) = parse_message_to_server(&[0x40, 0xff, 0xff, 0xff, 0xff]).unwrap();
    assert_eq!(
        message,
        MessageToServer::WantHeartbeat { interval: HeartbeatInterval { millis: 429496729500 } }
    );
    assert!(HeartbeatInterval::from_millis(0).is_zero());
    assert!(!HeartbeatInterval::from_secs(1).is_zero());
    assert_eq!(HeartbeatInterval::from_secs(u64::MAX).millis, u64::MAX);
}

#[test]
fn messages_to_client_in_binary() {
    let mut dst = BytesMut::new();
    MessageToClient::error("bad").into_bytes_mut(&mut dst);
    assert_eq!(&dst[..], &[0x10, 0x03, 0x62, 0x61, 0x64]);
    MessageToClient::Heartbeat.into_bytes_mut(&mut dst);
    assert_eq!(&dst[..], &[0x10, 0x03, 0x62, 0x61, 0x64, 0x41]);
    let mut dst = BytesMut::new();
    let ticket = MessageToClient::Ticket {
        plate: "UN1X".to_owned(),
        road: 66,
        mile1: 100,
        timestamp1: 123456,
        mile2: 110,
        timestamp2: 123816,
        speed: 10000,
    };
    ticket.into_bytes_mut(&mut dst);
    assert_eq!(
        &dst[..],
        &[
            0x21, 0x04, 0x55, 0x4e, 0x31, 0x58, 0x00, 0x42, 0x00, 0x64, 0x00, 0x01, 0xe2, 0x40,
            0x00, 0x6e, 0x00, 0x01, 0xe3, 0xa8, 0x27, 0x10,
        ]
    );
    let (rest, back) = parse_message_to_client(&dst).unwrap();
    assert!(rest.is_empty());
    assert_eq!(back, ticket);
}

#[test]
fn error_and_is_error() {
    assert_eq!(MessageToClient::error("oops"), MessageToClient::Error { msg: "oops".to_owned() });
    assert!(MessageToClient::error("oops").is_error());
    assert!(!MessageToClient::Heartbeat.is_error());
    assert!(MessageToClient::error(&"x".repeat(255)).is_writable());
    assert!(!MessageToClient::error(&"x".repeat(256)).is_writable());
    assert!(MessageToClient::Heartbeat.is_writable());
}

#[test]
fn decoder_takes_whole_messages() {
    let mut decoder = MessageToServerDecoder;
    let mut src = BytesMut::new();
    assert_eq!(decoder.decode(&mut src), Ok(None));
    src.extend_from_slice(&[0x80, 0x00, 0x42, 0x00]);
    assert_eq!(decoder.decode(&mut src), Ok(None));
    assert_eq!(src.len(), 4);
    src.extend_from_slice(&[0x64, 0x00, 0x3c, 0x40, 0x00]);
    assert_eq!(
        decoder.decode(&mut src),
        Ok(Some(MessageToServer::IAmCamera { road: 66, mile: 100, limit: 60 }))
    );
    assert_eq!(&src[..], &[0x40, 0x00]);
    assert_eq!(decoder.decode(&mut src), Ok(None));
    src.extend_from_slice(&[0x00, 0x00, 0x0a, 0x99]);
    assert_eq!(
        decoder.decode(&mut src),
        Ok(Some(MessageToServer::WantHeartbeat { interval: HeartbeatInterval::from_secs(1) }))
    );
    assert_eq!(decoder.decode(&mut src), Err(ParseError::Invalid));
    assert_eq!(&src[..], &[0x99]);
}

#[test]
fn encoder_appends() {
    let mut encoder = MessageToClientEncoder;
    let mut dst = BytesMut::new();
    encoder.encode(MessageToClient::Heartbeat, &mut dst);
    encoder.encode(MessageToClient::error("no"), &mut dst);
    assert_eq!(&dst[..], &[0x41, 0x10, 0x02, b'n', b'o']);
}

#[test]
fn heartbeat_is_granted_once() {
    let mut heartbeat = Heartbeat::new();
    assert_eq!(
        heartbeat.start(HeartbeatInterval::from_millis(2500)),
        Ok(HeartbeatPlan::Every(HeartbeatInterval { millis: 2500 }))
    );
    assert_eq!(heartbeat.start(HeartbeatInterval::from_millis(2500)), Err(HeartbeatExistsError));
    assert_eq!(heartbeat.start(HeartbeatInterval::from_millis(0)), Err(HeartbeatExistsError));
    let mut silent = Heartbeat::new();
    assert_eq!(silent.start(HeartbeatInterval::from_millis(0)), Ok(HeartbeatPlan::Silent));
    assert_eq!(silent.start(HeartbeatInterval::from_secs(1)), Err(HeartbeatExistsError));
    assert_eq!(HeartbeatExistsError.message(), "heartbeat already exists");
}

#[test]
fn client_says_what_it_is_once() {
    let mut client = Client::new();
    assert_eq!(client.current_role(), Role::Unknown);
    assert_eq!(
        client.handle(MessageToServer::Plate { plate: "UN1X".to_owned(), timestamp: 1 }),
        ClientAction::Fail(Failure::ExpectedInitial)
    );
    assert_eq!(
        client.handle(MessageToServer::IAmCamera { road: 1, mile: 2, limit: 3 }),
        ClientAction::BecomeCamera
    );
    assert_eq!(client.current_role(), Role::Camera { road: 1, mile: 2, limit: 3 });
    assert_eq!(
        client.handle(MessageToServer::Plate { plate: "UN1X".to_owned(), timestamp: 9 }),
        ClientAction::Report { road: 1, mile: 2, limit: 3, plate: "UN1X".to_owned(), timestamp: 9 }
    );
    assert_eq!(
        client.handle(MessageToServer::IAmCamera { road: 5, mile: 5, limit: 5 }),
        ClientAction::Fail(Failure::ExpectedCamera)
    );
    assert_eq!(
        client.handle(MessageToServer::IAmDispatcher { roads: vec![1] }),
        ClientAction::Fail(Failure::ExpectedCamera)
    );
    assert_eq!(client.current_role(), Role::Camera { road: 1, mile: 2, limit: 3 });
}

#[test]
fn dispatcher_only_asks_for_a_heartbeat() {
    let mut client = Client::new();
    assert_eq!(
        client.handle(MessageToServer::WantHeartbeat { interval: HeartbeatInterval::from_secs(1) }),
        ClientAction::Heartbeat(HeartbeatPlan::Every(HeartbeatInterval { millis: 1000 }))
    );
    assert_eq!(
        client.handle(MessageToServer::IAmDispatcher { roads: vec![7, 8] }),
        ClientAction::BecomeDispatcher { roads: vec![7, 8] }
    );
    assert_eq!(client.current_role(), Role::Dispatcher);
    assert_eq!(
        client.handle(MessageToServer::WantHeartbeat { interval: HeartbeatInterval::from_secs(1) }),
        ClientAction::Fail(Failure::InvalidMessage)
    );
    assert_eq!(
        client.handle(MessageToServer::Plate { plate: "X".to_owned(), timestamp: 1 }),
        ClientAction::Fail(Failure::ExpectedDispatcher)
    );
    assert_eq!(
        client.handle(MessageToServer::IAmCamera { road: 1, mile: 1, limit: 1 }),
        ClientAction::Fail(Failure::ExpectedDispatcher)
    );
    assert_eq!(
        client.handle(MessageToServer::IAmDispatcher { roads: vec![] }),
        ClientAction::Fail(Failure::ExpectedDispatcher)
    );
    let mut silent = Client::new();
    assert_eq!(
        silent.handle(MessageToServer::WantHeartbeat { interval: HeartbeatInterval::from_millis(0) }),
        ClientAction::Heartbeat(HeartbeatPlan::Silent)
    );
}

#[test]
fn failure_texts() {
    assert_eq!(Failure::InvalidMessage.message(), "invalid message");
    assert_eq!(Failure::ExpectedInitial.message(), "expected initial message, got ");
    assert_eq!(Failure::ExpectedCamera.message(), "expected camera message, got ");
    assert_eq!(Failure::ExpectedDispatcher.message(), "expected dispatcher message, got ");
}
