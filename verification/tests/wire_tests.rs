//! Literal wire bytes: the exact frames cameras and dispatchers
//! exchange, and the message identifiers.

use speed_daemon::codec;
use speed_daemon::msg::{
    Decisecond, Heartbeat, IAmCamera, IAmDispatcher, IncomingMessage, Message, OutgoingMessage,
    Plate, Ticket, WantHeartbeat,
};
use speed_daemon::session::{CameraOrDispatcher, Client, SameOrSpecial};

#[test]
fn camera_registration_bytes() {
    let bytes = [0x80, 0x00, 0x7b, 0x00, 0x08, 0x00, 0x3c];
    assert_eq!(
        codec::from_bytes(&bytes).unwrap(),
        IncomingMessage::IAmCamera(IAmCamera { road: 123, mile: 8, limit: 60 })
    );
}

#[test]
fn plate_bytes() {
    let bytes = [0x20, 0x04, 0x55, 0x4e, 0x31, 0x58, 0x00, 0x00, 0x00, 0x00];
    assert_eq!(
        codec::from_bytes(&bytes).unwrap(),
        IncomingMessage::Plate(Plate { plate: "UN1X".to_string(), timestamp: 0 })
    );
    let bytes2 = [0x20, 0x04, 0x55, 0x4e, 0x31, 0x58, 0x00, 0x00, 0x00, 0x2d];
    assert_eq!(
        codec::from_bytes(&bytes2).unwrap(),
        IncomingMessage::Plate(Plate { plate: "UN1X".to_string(), timestamp: 45 })
    );
}

#[test]
fn want_heartbeat_bytes() {
    let bytes = [0x40, 0x00, 0x00, 0x00, 0x0a];
    assert_eq!(
        codec::from_bytes(&bytes).unwrap(),
        IncomingMessage::WantHeartbeat(WantHeartbeat { interval: Decisecond(10) })
    );
}

#[test]
fn ticket_bytes() {
    let ticket = Ticket {
        plate: "UN1X".to_string(),
        road: 123,
        mile1: 8,
        timestamp1: 0,
        mile2: 9,
        timestamp2: 45,
        speed: 8000,
    };
    let bytes = codec::encode_outgoing(&OutgoingMessage::Ticket(ticket)).unwrap();
    assert_eq!(
        bytes,
        vec![
            0x21, 0x04, 0x55, 0x4e, 0x31, 0x58, // "UN1X"
            0x00, 0x7b, // road 123
            0x00, 0x08, // mile1 8
            0x00, 0x00, 0x00, 0x00, // timestamp1 0
            0x00, 0x09, // mile2 9
            0x00, 0x00, 0x00, 0x2d, // timestamp2 45
            0x1f, 0x40, // speed 8000
        ]
    );
}

#[test]
fn heartbeat_and_error_bytes() {
    assert_eq!(
        codec::encode_outgoing(&OutgoingMessage::Heartbeat).unwrap(),
        vec![0x41]
    );
    let bytes =
        codec::encode_outgoing(&OutgoingMessage::Error(speed_daemon::msg::Error("bad".to_string())))
            .unwrap();
    assert_eq!(bytes, vec![0x10, 0x03, b'b', b'a', b'd']);
}

#[test]
fn message_identifiers() {
    assert_eq!(speed_daemon::msg::Error("x".to_string()).id(), 0x10);
    assert_eq!(Plate { plate: "x".to_string(), timestamp: 0 }.id(), 0x20);
    assert_eq!(
        Ticket {
            plate: "x".to_string(),
            road: 0,
            mile1: 0,
            timestamp1: 0,
            mile2: 0,
            timestamp2: 1,
            speed: 0,
        }
        .id(),
        0x21
    );
    assert_eq!(WantHeartbeat { interval: Decisecond(0) }.id(), 0x40);
    assert_eq!(Heartbeat.id(), 0x41);
    assert_eq!(IAmCamera { road: 0, mile: 0, limit: 0 }.id(), 0x80);
    assert_eq!(IAmDispatcher { roads: vec![] }.id(), 0x81);
}

#[test]
fn decisecond_to_millis() {
    assert_eq!(Decisecond(0).to_millis(), 0);
    assert_eq!(Decisecond(10).to_millis(), 1000);
    assert_eq!(Decisecond(4_294_967_295).to_millis(), 429_496_729_500);
}

#[test]
fn full_pipeline_from_raw_bytes() {
    let mut daemon = speed_daemon::daemon::Daemon::new();

    // First camera: registration, then a plate, as raw frames.
    let mut input1 = vec![0x80, 0x00, 0x7b, 0x00, 0x08, 0x00, 0x3c];
    input1.extend_from_slice(&[0x20, 0x04, 0x55, 0x4e, 0x31, 0x58, 0x00, 0x00, 0x00, 0x00]);
    let (mut cam1, reg1) = match Client::new(input1).run_until_specialized(0).unwrap() {
        SameOrSpecial::Special(CameraOrDispatcher::Camera(c, reg)) => (c, reg),
        _ => panic!("expected a camera"),
    };
    match cam1.next_message().unwrap().unwrap() {
        IncomingMessage::Plate(p) => daemon.record_plate(reg1, p),
        _ => panic!("expected a plate"),
    }

    // Second camera one mile on, seeing the plate 45 seconds later.
    let mut input2 = vec![0x80, 0x00, 0x7b, 0x00, 0x09, 0x00, 0x3c];
    input2.extend_from_slice(&[0x20, 0x04, 0x55, 0x4e, 0x31, 0x58, 0x00, 0x00, 0x00, 0x2d]);
    let (mut cam2, reg2) = match Client::new(input2).run_until_specialized(0).unwrap() {
        SameOrSpecial::Special(CameraOrDispatcher::Camera(c, reg)) => (c, reg),
        _ => panic!("expected a camera"),
    };
    match cam2.next_message().unwrap().unwrap() {
        IncomingMessage::Plate(p) => daemon.record_plate(reg2, p),
        _ => panic!("expected a plate"),
    }

    // A dispatcher for road 123 connects and receives the ticket.
    let input3 = vec![0x81, 0x01, 0x00, 0x7b];
    let reg3 = match Client::new(input3).run_until_specialized(0).unwrap() {
        SameOrSpecial::Special(CameraOrDispatcher::Dispatcher(_, reg)) => reg,
        _ => panic!("expected a dispatcher"),
    };
    daemon.register_dispatcher(7, reg3.roads);
    let ticket = daemon.peek_output(7).expect("the queued ticket is owed");
    daemon.confirm_output(7);
    let bytes = codec::encode_outgoing(&OutgoingMessage::Ticket(ticket)).unwrap();
    assert_eq!(
        bytes,
        vec![
            0x21, 0x04, 0x55, 0x4e, 0x31, 0x58, 0x00, 0x7b, 0x00, 0x08, 0x00, 0x00, 0x00, 0x00,
            0x00, 0x09, 0x00, 0x00, 0x00, 0x2d, 0x1f, 0x40,
        ]
    );
    assert!(daemon.peek_output(7).is_none());
}

#[test]
fn session_specializes_on_raw_camera_bytes() {
    let mut input = vec![0x40, 0x00, 0x00, 0x00, 0x0a];
    input.extend_from_slice(&[0x80, 0x00, 0x7b, 0x00, 0x08, 0x00, 0x3c]);
    let client = Client::new(input);
    match client.run_until_specialized(0).unwrap() {
        SameOrSpecial::Special(CameraOrDispatcher::Camera(mut c, reg)) => {
            assert_eq!(reg, IAmCamera { road: 123, mile: 8, limit: 60 });
            // The heartbeat request took effect before specialization.
            c.send_heartbeat(1000);
            assert_eq!(c.take_output(), vec![0x41, 0x41]);
        }
        _ => panic!("expected a camera"),
    }
}
