use minibus::arg::Argument;
use minibus::codec::{decode, encode, DecodeError};
use minibus::msg::{Kind, Message};

fn base_call() -> Message {
    Message {
        kind: Kind::MethodCall,
        serial: 7,
        no_reply: false,
        reply_serial: None,
        path: Some(b"/hello".to_vec()),
        interface: Some(b"com.example.dbustest".to_vec()),
        member: Some(b"Hello".to_vec()),
        destination: Some(b"com.example.dbustest".to_vec()),
        sender: Some(b":1.42".to_vec()),
        error_name: None,
        body: vec![
            Argument::Str(b"foo".to_vec()),
            Argument::U64(123456789012345),
            Argument::Bool(true),
        ],
    }
}

#[test]
fn round_trip_method_call() {
    let m = base_call();
    let bytes = encode(&m);
    let back = decode(&bytes).expect("well-formed frame must decode");
    assert_eq!(back, m);
}

#[test]
fn round_trip_method_return() {
    let m = Message {
        kind: Kind::MethodReturn,
        serial: 8,
        no_reply: false,
        reply_serial: Some(7),
        path: None,
        interface: None,
        member: None,
        destination: Some(b":1.42".to_vec()),
        sender: None,
        error_name: None,
        body: vec![Argument::Str(Vec::new()), Argument::Bool(false)],
    };
    let back = decode(&encode(&m)).expect("decode");
    assert_eq!(back, m);
}

#[test]
fn round_trip_error() {
    let m = Message {
        kind: Kind::Error,
        serial: 9,
        no_reply: false,
        reply_serial: Some(7),
        path: None,
        interface: None,
        member: None,
        destination: None,
        sender: None,
        error_name: Some(b"org.example.Failed".to_vec()),
        body: vec![Argument::Str(b"boom".to_vec())],
    };
    let back = decode(&encode(&m)).expect("decode");
    assert_eq!(back, m);
}

#[test]
fn round_trip_signal() {
    let m = Message {
        kind: Kind::Signal,
        serial: 10,
        no_reply: false,
        reply_serial: None,
        path: Some(b"/hello".to_vec()),
        interface: Some(b"com.example.dbustest".to_vec()),
        member: Some(b"HelloHappened".to_vec()),
        destination: None,
        sender: None,
        error_name: None,
        body: vec![Argument::U64(0), Argument::U64(u64::MAX)],
    };
    let back = decode(&encode(&m)).expect("decode");
    assert_eq!(back, m);
}

#[test]
fn round_trip_empty_body_and_no_reply_flag() {
    let mut m = base_call();
    m.body = Vec::new();
    m.no_reply = true;
    let back = decode(&encode(&m)).expect("decode");
    assert_eq!(back, m);
}

#[test]
fn truncated_header_rejected() {
    assert_eq!(decode(&Vec::new()), Err(DecodeError::Truncated));
    assert_eq!(decode(&vec![1u8]), Err(DecodeError::Truncated));
    let full = encode(&base_call());
    let cut = full[..full.len() / 2].to_vec();
    assert_eq!(decode(&cut), Err(DecodeError::Truncated));
}

#[test]
fn body_length_mismatch_rejected() {
    let mut bytes = encode(&base_call());
    bytes.push(0);
    assert_eq!(decode(&bytes), Err(DecodeError::BodyLengthMismatch));
}

#[test]
fn unknown_type_tag_rejected() {
    // the last argument of the base call is a Bool: tag byte, then the value
    let mut bytes = encode(&base_call());
    let n = bytes.len();
    assert_eq!(bytes[n - 2], 3, "expected the Bool tag at the end");
    bytes[n - 2] = 9;
    assert_eq!(decode(&bytes), Err(DecodeError::UnknownTag));
}

#[test]
fn reply_without_reply_serial_rejected() {
    let m = Message {
        kind: Kind::MethodReturn,
        serial: 3,
        no_reply: false,
        reply_serial: None,
        path: None,
        interface: None,
        member: None,
        destination: None,
        sender: None,
        error_name: None,
        body: Vec::new(),
    };
    assert_eq!(decode(&encode(&m)), Err(DecodeError::MissingReplySerial));
}

#[test]
fn malformed_frames_rejected() {
    // unknown kind byte
    let mut bytes = encode(&base_call());
    bytes[0] = 200;
    assert_eq!(decode(&bytes), Err(DecodeError::Malformed));
    // bad flags byte
    let mut bytes = encode(&base_call());
    bytes[9] = 7;
    assert_eq!(decode(&bytes), Err(DecodeError::Malformed));
    // a method call without a path
    let mut m = base_call();
    m.path = None;
    assert_eq!(decode(&encode(&m)), Err(DecodeError::Malformed));
    // a signal carrying a reply serial
    let mut m = base_call();
    m.kind = Kind::Signal;
    m.reply_serial = Some(1);
    assert_eq!(decode(&encode(&m)), Err(DecodeError::Malformed));
}
