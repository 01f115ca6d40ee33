//! Byte-level codec tests: primitive values, whole messages, round
//! trips, and the rejection rules.

use speed_daemon::codec;
use speed_daemon::codec::{Deserializer, Error, Serializer};
use speed_daemon::msg::{
    Decisecond, IAmCamera, IAmDispatcher, IncomingMessage, OutgoingMessage, Plate, Ticket,
    WantHeartbeat,
};

#[test]
fn de_test_struct() {
    let bytes = [
        0x00, 0x00, 0x05, 0x39, // 1337
        3,    // array length
        0x00, 0x00, // item 0
        0x00, 0x01, // item 1
        0x00, 0x02, // item 2
        5,    // string length
        b'h', b'e', b'l', b'l', b'o',
    ];
    let mut de = Deserializer::from_bytes(&bytes);
    assert_eq!(de.parse_u32().unwrap(), 1337);
    let count = de.parse_u8().unwrap() as usize;
    let mut seq = Vec::new();
    for _ in 0..count {
        seq.push(de.parse_u16().unwrap());
    }
    assert_eq!(seq, vec![0, 1, 2]);
    let msg = Some(de.parse_ascii().unwrap());
    assert_eq!(msg, Some("hello".to_string()));
    assert!(de.is_empty());
}

#[test]
fn de_test_tuple() {
    let bytes = [
        0x00, 0x00, 0x05, 0x39, // 1337
        3,    // array length
        0x00, 0x00, // item 0
        0x00, 0x01, // item 1
        0x00, 0x02, // item 2
        5,    // string length
        b'h', b'e', b'l', b'l', b'o',
    ];
    let mut de = Deserializer::from_bytes(&bytes);
    let int = de.parse_u32().unwrap();
    let count = de.parse_u8().unwrap() as usize;
    let mut seq = Vec::new();
    for _ in 0..count {
        seq.push(de.parse_u16().unwrap());
    }
    let msg = de.parse_ascii().unwrap();
    let expected: (u32, Vec<u16>, String) = (1337, vec![0, 1, 2], "hello".to_string());
    assert_eq!(expected, (int, seq, msg));
}

#[test]
fn test_u32() {
    let bytes = [0x00, 0x00, 0x05, 0x39];
    let expected: u32 = 1337;
    let mut de = Deserializer::from_bytes(&bytes);
    assert_eq!(expected, de.parse_u32().unwrap());
    assert!(de.is_empty());
}

#[test]
fn test_u32s() {
    let bytes = [2, 0x00, 0x00, 0x05, 0x39, 0xca, 0xfe, 0xba, 0xbe];
    let expected: Vec<u32> = vec![1337, 0xcafebabe];
    let mut de = Deserializer::from_bytes(&bytes);
    let count = de.parse_u8().unwrap() as usize;
    let mut seq = Vec::new();
    for _ in 0..count {
        seq.push(de.parse_u32().unwrap());
    }
    assert_eq!(expected, seq);
    assert!(de.is_empty());
}

#[test]
fn ser_test_struct() {
    let int: u32 = 1337;
    let seq: Vec<u16> = vec![0, 1, 2];
    let msg: Option<&str> = Some("hello");
    let expected = [
        0x00, 0x00, 0x05, 0x39, // 1337
        3,    // array length
        0x00, 0x00, // item 0
        0x00, 0x01, // item 1
        0x00, 0x02, // item 2
        5,    // string length
        b'h', b'e', b'l', b'l', b'o',
    ];
    let mut ser = Serializer::new();
    ser.serialize_u32(int);
    ser.serialize_u8(seq.len() as u8);
    for v in &seq {
        ser.serialize_u16(*v);
    }
    if let Some(s) = msg {
        ser.serialize_str(s).unwrap();
    }
    assert_eq!(ser.into_bytes(), expected);
}

#[test]
fn test_none() {
    let int: u32 = 1337;
    let seq: Vec<u16> = vec![0, 1, 2];
    let msg: Option<&str> = None;
    let expected = [
        0x00, 0x00, 0x05, 0x39, // 1337
        3,    // array length
        0x00, 0x00, // item 0
        0x00, 0x01, // item 1
        0x00, 0x02, // item 2
    ];
    let mut ser = Serializer::new();
    ser.serialize_u32(int);
    ser.serialize_u8(seq.len() as u8);
    for v in &seq {
        ser.serialize_u16(*v);
    }
    if let Some(s) = msg {
        ser.serialize_str(s).unwrap();
    }
    assert_eq!(ser.into_bytes(), expected);
}

#[test]
fn ser_test_tuple() {
    let test: (u32, Vec<u16>, String) = (1337, vec![0, 1, 2], "hello".to_string());
    let expected = [
        0x00, 0x00, 0x05, 0x39, // 1337
        3,    // array length
        0x00, 0x00, // item 0
        0x00, 0x01, // item 1
        0x00, 0x02, // item 2
        5,    // string length
        b'h', b'e', b'l', b'l', b'o',
    ];
    let mut ser = Serializer::new();
    ser.serialize_u32(test.0);
    ser.serialize_u8(test.1.len() as u8);
    for v in &test.1 {
        ser.serialize_u16(*v);
    }
    ser.serialize_str(test.2.as_str()).unwrap();
    assert_eq!(ser.into_bytes(), expected);
}

#[test]
fn test_option() {
    let test = Some("hello");
    let expected = [
        5, // string length
        b'h', b'e', b'l', b'l', b'o',
    ];
    let mut ser = Serializer::new();
    if let Some(s) = test {
        ser.serialize_str(s).unwrap();
    }
    assert_eq!(ser.into_bytes(), expected);
}

#[test]
fn test_deserialize_enum() {
    let bytes = [
        0x80, // IAmCamera identifier
        0x00, 0x01, // road
        0x00, 0x02, // mile
        0x00, 0x03, // limit
    ];
    let expected = IncomingMessage::IAmCamera(IAmCamera {
        road: 1,
        mile: 2,
        limit: 3,
    });
    assert_eq!(expected, codec::from_bytes(&bytes[..]).unwrap());
}

#[test]
fn incoming_round_trips() {
    let messages = vec![
        IncomingMessage::IAmCamera(IAmCamera { road: 123, mile: 8, limit: 60 }),
        IncomingMessage::IAmDispatcher(IAmDispatcher { roads: vec![123, 42, 368] }),
        IncomingMessage::WantHeartbeat(WantHeartbeat { interval: Decisecond(10) }),
        IncomingMessage::Plate(Plate { plate: "UN1X".to_string(), timestamp: 1000 }),
    ];
    for m in messages {
        let bytes = codec::encode_incoming(&m).unwrap();
        let back = codec::from_bytes(&bytes).unwrap();
        assert_eq!(m, back);
    }
}

#[test]
fn outgoing_round_trips() {
    let messages = vec![
        OutgoingMessage::Heartbeat,
        OutgoingMessage::Error(speed_daemon::msg::Error("bad".to_string())),
        OutgoingMessage::Ticket(Ticket {
            plate: "UN1X".to_string(),
            road: 123,
            mile1: 8,
            timestamp1: 0,
            mile2: 9,
            timestamp2: 45,
            speed: 8000,
        }),
    ];
    for m in messages {
        let bytes = codec::encode_outgoing(&m).unwrap();
        let mut de = Deserializer::from_bytes(&bytes);
        let back = de.read_outgoing().unwrap();
        assert!(de.is_empty());
        assert_eq!(m, back);
    }
}

#[test]
fn decode_consumes_exactly_the_encoding() {
    let m = IncomingMessage::Plate(Plate { plate: "AB12".to_string(), timestamp: 7 });
    let mut bytes = codec::encode_incoming(&m).unwrap();
    let encoded_len = bytes.len();
    bytes.extend_from_slice(&[0x41, 0x99]);
    let mut de = Deserializer::from_bytes(&bytes);
    let back = de.read_incoming().unwrap();
    assert_eq!(m, back);
    assert_eq!(de.consumed(), encoded_len);
}

#[test]
fn non_ascii_fails_to_encode() {
    let m = IncomingMessage::Plate(Plate { plate: "caf\u{e9}".to_string(), timestamp: 0 });
    assert_eq!(codec::encode_incoming(&m), Err(Error::ExpectedAsciiCharacter));
    let mut ser = Serializer::new();
    assert_eq!(ser.serialize_str("na\u{ef}ve"), Err(Error::ExpectedAsciiCharacter));
}

#[test]
fn non_ascii_fails_to_decode() {
    // A plate with a byte at or above 0x80 in its body.
    let bytes = [0x20, 2, 0xc3, 0xa9, 0, 0, 0, 0];
    let mut de = Deserializer::from_bytes(&bytes);
    assert_eq!(de.read_incoming(), Err(Error::ExpectedAsciiCharacter));
}

#[test]
fn too_long_fails_to_encode() {
    let long = "x".repeat(256);
    let mut ser = Serializer::new();
    assert_eq!(ser.serialize_str(&long), Err(Error::StringTooLong));
    let m = OutgoingMessage::Error(speed_daemon::msg::Error(long));
    assert_eq!(codec::encode_outgoing(&m), Err(Error::StringTooLong));
    let roads: Vec<u16> = vec![7; 256];
    let mut ser2 = Serializer::new();
    assert_eq!(ser2.serialize_roads(&roads), Err(Error::ArrayTooLong));
    let d = IncomingMessage::IAmDispatcher(IAmDispatcher { roads: vec![7; 256] });
    assert_eq!(codec::encode_incoming(&d), Err(Error::ArrayTooLong));
}

#[test]
fn boundary_length_string_encodes() {
    let exactly = "y".repeat(255);
    let mut ser = Serializer::new();
    assert!(ser.serialize_str(&exactly).is_ok());
    let bytes = ser.into_bytes();
    assert_eq!(bytes.len(), 256);
    assert_eq!(bytes[0], 255);
}

#[test]
fn truncated_input_fails_with_eof() {
    let bytes = [0x80, 0x00, 0x7b, 0x00];
    let mut de = Deserializer::from_bytes(&bytes);
    assert_eq!(de.read_incoming(), Err(Error::Eof));
}

#[test]
fn unknown_identifier_fails() {
    let bytes = [0x99, 0x00];
    let mut de = Deserializer::from_bytes(&bytes);
    assert_eq!(de.read_incoming(), Err(Error::UnrecognizedMessage));
}

#[test]
fn trailing_bytes_fail() {
    let bytes = [0x41, 0x00];
    let mut de = Deserializer::from_bytes(&bytes);
    assert_eq!(de.read_outgoing(), Ok(OutgoingMessage::Heartbeat));
    assert!(!de.is_empty());
    let full = [0x80, 0x00, 0x01, 0x00, 0x02, 0x00, 0x03, 0xff];
    assert_eq!(codec::from_bytes(&full), Err(Error::TrailingBytes));
}

#[test]
fn error_messages_are_short_ascii() {
    assert_eq!(Error::Eof.message(), "unexpected end of input");
    assert_eq!(Error::ExpectedAsciiCharacter.message(), "expected an ASCII character");
    assert_eq!(Error::TrailingBytes.message(), "trailing bytes");
    assert_eq!(
        Error::StringTooLong.message(),
        "the provided string exceeds the max of 255 bytes"
    );
    assert_eq!(
        Error::ArrayTooLong.message(),
        "the provided slice or array exceeds the max of 255 elements"
    );
    assert_eq!(Error::UnrecognizedMessage.message(), "unrecognized message");
}
