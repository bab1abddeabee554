use minibus::arg::{Argument, Tag};
use minibus::codec::encode;
use minibus::conn::{Connection, FrameEvent};
use minibus::dispatch::{Handler, HandlerError, HandlerReply, Registry, Request};
use minibus::msg::{Kind, Message};
use minibus::proxy::{CallError, Proxy};

struct Nop;

impl Handler for Nop {
    fn handle(&self, _req: &Request) -> Result<HandlerReply, HandlerError> {
        Ok(HandlerReply { out_args: Vec::new(), signals: Vec::new() })
    }
}

fn client() -> Connection<Nop> {
    Connection::new(Registry::new())
}

fn proxy() -> Proxy {
    Proxy::new(
        b"com.example.dbustest".to_vec(),
        b"/hello".to_vec(),
        b"com.example.dbustest".to_vec(),
        5000,
    )
}

fn reply_frame(reply_serial: u64, body: Vec<Argument>) -> Vec<u8> {
    encode(&Message {
        kind: Kind::MethodReturn,
        serial: 99,
        no_reply: false,
        reply_serial: Some(reply_serial),
        path: None,
        interface: None,
        member: None,
        destination: None,
        sender: None,
        error_name: None,
        body,
    })
}

#[test]
fn serials_start_at_one_and_increase() {
    let mut conn = client();
    let p = proxy();
    let s1 = p.call(&mut conn, b"A".to_vec(), Vec::new(), 0);
    let s2 = p.call(&mut conn, b"B".to_vec(), Vec::new(), 0);
    assert_eq!(s1, 1);
    assert_eq!(s2, 2);
    assert_eq!(conn.out.len(), 2);
    assert_eq!(conn.pending.len(), 2);
}

#[test]
fn reply_resolves_pending_call_once() {
    let mut conn = client();
    let p = proxy();
    let serial = p.call(&mut conn, b"Hello".to_vec(), Vec::new(), 0);
    let frame = reply_frame(serial, vec![Argument::Str(b"ok".to_vec())]);
    match conn.handle_frame(&frame).expect("decodes") {
        FrameEvent::ReplyMatched { serial: s, msg } => {
            assert_eq!(s, serial);
            assert_eq!(msg.body, vec![Argument::Str(b"ok".to_vec())]);
        },
        other => panic!("expected a matched reply, got {:?}", other),
    }
    assert_eq!(conn.pending.len(), 0);
    // the same reply again is dropped, not resolved a second time
    match conn.handle_frame(&frame).expect("decodes") {
        FrameEvent::ReplyDropped => {},
        other => panic!("expected a dropped reply, got {:?}", other),
    }
}

#[test]
fn timeout_wins_and_late_reply_is_discarded() {
    let mut conn = client();
    let p = proxy();
    let serial = p.call(&mut conn, b"Hello".to_vec(), Vec::new(), 1000);
    // deadline is 1000 + 5000; nothing expires before it
    let expired = conn.expire_pending(5999);
    assert!(expired.is_empty());
    assert_eq!(conn.pending.len(), 1);
    // at the deadline the call resolves to a timeout
    let expired = conn.expire_pending(6000);
    assert_eq!(expired, vec![serial]);
    assert_eq!(conn.pending.len(), 0);
    let timed_out: CallError = CallError::Timeout;
    assert!(matches!(timed_out, CallError::Timeout));
    // a late reply finds no pending call and is discarded
    let frame = reply_frame(serial, Vec::new());
    match conn.handle_frame(&frame).expect("decodes") {
        FrameEvent::ReplyDropped => {},
        other => panic!("expected a dropped reply, got {:?}", other),
    }
}

#[test]
fn unknown_reply_serial_is_dropped_silently() {
    let mut conn = client();
    let frame = reply_frame(42, Vec::new());
    match conn.handle_frame(&frame).expect("decodes") {
        FrameEvent::ReplyDropped => {},
        other => panic!("expected a dropped reply, got {:?}", other),
    }
}

#[test]
fn incoming_signal_is_surfaced() {
    let mut conn = client();
    let frame = encode(&Message {
        kind: Kind::Signal,
        serial: 4,
        no_reply: false,
        reply_serial: None,
        path: Some(b"/hello".to_vec()),
        interface: Some(b"i".to_vec()),
        member: Some(b"HelloHappened".to_vec()),
        destination: None,
        sender: None,
        error_name: None,
        body: Vec::new(),
    });
    match conn.handle_frame(&frame).expect("decodes") {
        FrameEvent::SignalReceived { msg } => {
            assert_eq!(msg.member, Some(b"HelloHappened".to_vec()));
        },
        other => panic!("expected a signal, got {:?}", other),
    }
}

#[test]
fn extra_trailing_output_arguments_are_accepted() {
    let sig = vec![Tag::Str, Tag::Str];
    let msg = Message {
        kind: Kind::MethodReturn,
        serial: 1,
        no_reply: false,
        reply_serial: Some(1),
        path: None,
        interface: None,
        member: None,
        destination: None,
        sender: None,
        error_name: None,
        body: vec![
            Argument::Str(b"a".to_vec()),
            Argument::Str(b"b".to_vec()),
            Argument::U64(7),
        ],
    };
    let got = Proxy::interpret_reply(&msg, &sig).expect("extras are ignored");
    assert_eq!(got, vec![Argument::Str(b"a".to_vec()), Argument::Str(b"b".to_vec())]);
}

#[test]
fn short_reply_is_an_error() {
    let sig = vec![Tag::Str, Tag::Str];
    let msg = Message {
        kind: Kind::MethodReturn,
        serial: 1,
        no_reply: false,
        reply_serial: Some(1),
        path: None,
        interface: None,
        member: None,
        destination: None,
        sender: None,
        error_name: None,
        body: vec![Argument::Str(b"a".to_vec())],
    };
    assert!(matches!(Proxy::interpret_reply(&msg, &sig), Err(CallError::ShortReply)));
}

#[test]
fn wrong_output_tag_is_an_error() {
    let sig = vec![Tag::Str];
    let msg = Message {
        kind: Kind::MethodReturn,
        serial: 1,
        no_reply: false,
        reply_serial: Some(1),
        path: None,
        interface: None,
        member: None,
        destination: None,
        sender: None,
        error_name: None,
        body: vec![Argument::U64(3)],
    };
    assert!(matches!(Proxy::interpret_reply(&msg, &sig), Err(CallError::TypeMismatch)));
}

#[test]
fn remote_error_is_surfaced_with_name_and_text() {
    let msg = Message {
        kind: Kind::Error,
        serial: 2,
        no_reply: false,
        reply_serial: Some(1),
        path: None,
        interface: None,
        member: None,
        destination: None,
        sender: None,
        error_name: Some(b"org.example.Failed".to_vec()),
        body: vec![Argument::Str(b"why".to_vec())],
    };
    match Proxy::interpret_reply(&msg, &Vec::new()) {
        Err(CallError::RemoteError { name, message }) => {
            assert_eq!(name, b"org.example.Failed".to_vec());
            assert_eq!(message, b"why".to_vec());
        },
        other => panic!("expected a remote error, got {:?}", other),
    }
}

#[test]
fn no_reply_call_tracks_no_pending_call() {
    let mut conn = client();
    let serial = conn.send_call(
        Some(b"com.example.dbustest".to_vec()),
        b"/hello".to_vec(),
        Some(b"com.example.dbustest".to_vec()),
        b"Hello".to_vec(),
        Vec::new(),
        true,
        100,
    );
    assert_eq!(serial, 1);
    assert_eq!(conn.out.len(), 1);
    assert_eq!(conn.pending.len(), 0, "a waived reply is not awaited");
}
