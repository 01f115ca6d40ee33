//! Session state-machine tests: reading messages by role, the single
//! heartbeat request, heartbeat emission, and protocol errors.

use speed_daemon::codec;
use speed_daemon::msg::{
    Decisecond, IAmCamera, IAmDispatcher, IncomingMessage, Plate, WantHeartbeat,
};
use speed_daemon::session::{CameraOrDispatcher, Client, SameOrSpecial, SessionError};

fn encode_all(messages: &[IncomingMessage]) -> Vec<u8> {
    let mut bytes = Vec::new();
    for m in messages {
        bytes.extend_from_slice(&codec::encode_incoming(m).unwrap());
    }
    bytes
}

#[test]
fn common_next_message() {
    let heartbeat = WantHeartbeat { interval: Decisecond(12345) };
    let camera = IAmCamera { road: 0x4141, mile: 0xcafe, limit: 0xbabe };
    let dispatcher = IAmDispatcher { roads: vec![0xf00, 0xba6, 0xba2] };
    let input = encode_all(&[
        IncomingMessage::WantHeartbeat(heartbeat),
        IncomingMessage::IAmCamera(camera),
        IncomingMessage::IAmDispatcher(dispatcher.clone()),
    ]);

    let mut client = Client::new(input);
    assert_eq!(
        client.next_message().unwrap().unwrap(),
        IncomingMessage::WantHeartbeat(heartbeat)
    );
    assert_eq!(
        client.next_message().unwrap().unwrap(),
        IncomingMessage::IAmCamera(camera)
    );
    assert_eq!(
        client.next_message().unwrap().unwrap(),
        IncomingMessage::IAmDispatcher(dispatcher)
    );
    assert!(client.next_message().unwrap().is_none());
}

#[test]
fn into_camera() {
    let plates = vec![
        Plate { plate: "hello".to_string(), timestamp: 1337 },
        Plate { plate: "world".to_string(), timestamp: 7331 },
        Plate { plate: "foo".to_string(), timestamp: 12345 },
    ];
    let input = encode_all(&[
        IncomingMessage::Plate(plates[0].clone()),
        IncomingMessage::Plate(plates[1].clone()),
        IncomingMessage::Plate(plates[2].clone()),
    ]);

    let mut client = Client::new(input).into_camera();
    assert_eq!(
        client.next_message().unwrap().unwrap(),
        IncomingMessage::Plate(plates[0].clone())
    );
    assert_eq!(
        client.next_message().unwrap().unwrap(),
        IncomingMessage::Plate(plates[1].clone())
    );
    assert_eq!(
        client.next_message().unwrap().unwrap(),
        IncomingMessage::Plate(plates[2].clone())
    );
}

#[test]
fn test_heartbeat() {
    let mut client = Client::new(Vec::new());
    client
        .want_heartbeat(WantHeartbeat { interval: Decisecond(1) }, 0)
        .unwrap();
    let mut client = match client.run_once(0).unwrap() {
        SameOrSpecial::Same(c) => c,
        _ => panic!("not same"),
    };
    client = match client.run_once(0).unwrap() {
        SameOrSpecial::Same(c) => c,
        _ => panic!("not same"),
    };
    client = match client.run_once(100).unwrap() {
        SameOrSpecial::Same(c) => c,
        _ => panic!("not same"),
    };
    client = match client.run_once(100).unwrap() {
        SameOrSpecial::Same(c) => c,
        _ => panic!("not same"),
    };

    assert_eq!(client.take_output(), vec![0x41, 0x41]);
}

#[test]
fn test_run_specialized() {
    let camera = IAmCamera { road: 0x4141, mile: 0xcafe, limit: 0xbabe };
    let input = encode_all(&[
        IncomingMessage::WantHeartbeat(WantHeartbeat { interval: Decisecond(12345) }),
        IncomingMessage::IAmCamera(camera),
    ]);

    let client = Client::new(input);
    let special_client = client.run_until_specialized(0).unwrap();
    match special_client {
        SameOrSpecial::Special(CameraOrDispatcher::Camera(_, c)) if c == camera => (),
        _ => panic!("expected a camera"),
    }
}

#[test]
fn plate_before_role_is_an_error() {
    // An unregistered session may not submit plates.
    let input = encode_all(&[IncomingMessage::Plate(Plate {
        plate: "UN1X".to_string(),
        timestamp: 0,
    })]);
    let mut client = Client::new(input);
    assert_eq!(client.next_message(), Err(SessionError::UnrecognizedMessage));
}

#[test]
fn camera_rejects_registration_messages() {
    let input = encode_all(&[IncomingMessage::IAmCamera(IAmCamera {
        road: 1,
        mile: 2,
        limit: 3,
    })]);
    let mut client = Client::new(input).into_camera();
    assert_eq!(client.next_message(), Err(SessionError::UnrecognizedMessage));
}

#[test]
fn dispatcher_accepts_only_heartbeat_requests() {
    let input = encode_all(&[
        IncomingMessage::WantHeartbeat(WantHeartbeat { interval: Decisecond(0) }),
        IncomingMessage::Plate(Plate { plate: "X".to_string(), timestamp: 0 }),
    ]);
    let mut client = Client::new(input).into_dispatcher();
    assert!(client.next_message().unwrap().is_some());
    assert_eq!(client.next_message(), Err(SessionError::UnrecognizedMessage));
}

#[test]
fn second_heartbeat_request_is_an_error() {
    let mut client = Client::new(Vec::new());
    client
        .want_heartbeat(WantHeartbeat { interval: Decisecond(5) }, 10)
        .unwrap();
    assert_eq!(
        client.want_heartbeat(WantHeartbeat { interval: Decisecond(7) }, 20),
        Err(SessionError::HeartbeatAlreadyRequested)
    );
}

#[test]
fn zero_interval_disables_heartbeats() {
    let mut client = Client::new(Vec::new());
    client
        .want_heartbeat(WantHeartbeat { interval: Decisecond(0) }, 0)
        .unwrap();
    client.send_heartbeat(1_000_000);
    assert!(client.take_output().is_empty());
}

#[test]
fn lagging_session_skips_missed_heartbeats() {
    // One emission per step, and the deadline skips ahead past `now`.
    let mut client = Client::new(Vec::new());
    client
        .want_heartbeat(WantHeartbeat { interval: Decisecond(10) }, 0)
        .unwrap();
    client.send_heartbeat(5_000);
    assert_eq!(client.take_output(), vec![0x41]);
    // The next deadline is past 5000, so nothing more is due now.
    client.send_heartbeat(5_500);
    assert!(client.take_output().is_empty());
    client.send_heartbeat(6_000);
    assert_eq!(client.take_output(), vec![0x41]);
}

#[test]
fn incomplete_message_waits_for_more_input() {
    let full = encode_all(&[IncomingMessage::IAmCamera(IAmCamera {
        road: 123,
        mile: 8,
        limit: 60,
    })]);
    let mut client = Client::new(full[..3].to_vec());
    assert!(client.next_message().unwrap().is_none());
    assert!(client.has_pending_input());
    client.feed(&full[3..]);
    assert_eq!(
        client.next_message().unwrap().unwrap(),
        IncomingMessage::IAmCamera(IAmCamera { road: 123, mile: 8, limit: 60 })
    );
    assert!(!client.has_pending_input());
}

#[test]
fn read_id_consumes_the_identifier_byte() {
    let mut client = Client::new(vec![0x20, 0x40]);
    assert_eq!(client.read_id(), Some(0x20));
    assert_eq!(client.read_id(), Some(0x40));
    assert_eq!(client.read_id(), None);
}

#[test]
fn session_error_messages() {
    assert_eq!(SessionError::UnrecognizedMessage.message(), "unrecognized message");
    assert_eq!(
        SessionError::HeartbeatAlreadyRequested.message(),
        "heartbeat already requested"
    );
}
