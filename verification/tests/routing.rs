use std::cell::Cell;

use minibus::arg::{Argument, Tag};
use minibus::codec::{decode, encode};
use minibus::conn::{build_reply_block, Connection, FrameEvent};
use minibus::dispatch::{
    Entry, Handler, HandlerError, HandlerReply, Registry, RegisterError, Request, SignalOut,
};
use minibus::proxy::{CallError, Proxy};
use minibus::msg::{Kind, Message};

struct Counting {
    calls: Cell<u64>,
}

impl Handler for Counting {
    fn handle(&self, _req: &Request) -> Result<HandlerReply, HandlerError> {
        self.calls.set(self.calls.get() + 1);
        Ok(HandlerReply { out_args: vec![Argument::Bool(true)], signals: Vec::new() })
    }
}

fn entry(path: &[u8], iface: &[u8], member: &[u8], in_sig: Vec<Tag>) -> Entry<Counting> {
    Entry {
        path: path.to_vec(),
        interface: iface.to_vec(),
        member: member.to_vec(),
        in_sig,
        out_sig: vec![Tag::Bool],
        handler: Counting { calls: Cell::new(0) },
    }
}

fn call_frame(serial: u64, path: &[u8], iface: &[u8], member: &[u8], body: Vec<Argument>) -> Vec<u8> {
    encode(&Message {
        kind: Kind::MethodCall,
        serial,
        no_reply: false,
        reply_serial: None,
        path: Some(path.to_vec()),
        interface: Some(iface.to_vec()),
        member: Some(member.to_vec()),
        destination: None,
        sender: Some(b":1.7".to_vec()),
        error_name: None,
        body,
    })
}

fn server() -> Connection<Counting> {
    let mut reg: Registry<Counting> = Registry::new();
    reg.register(entry(b"/obj", b"org.example.If", b"Ping", vec![Tag::Str]))
        .expect("register");
    Connection::new(reg)
}

#[test]
fn register_rejects_invalid_path_and_duplicate() {
    let mut reg: Registry<Counting> = Registry::new();
    assert_eq!(
        reg.register(entry(b"bad", b"i", b"m", Vec::new())),
        Err(RegisterError::InvalidPath)
    );
    assert_eq!(
        reg.register(entry(b"/a//b", b"i", b"m", Vec::new())),
        Err(RegisterError::InvalidPath)
    );
    assert_eq!(
        reg.register(entry(b"/a/", b"i", b"m", Vec::new())),
        Err(RegisterError::InvalidPath)
    );
    assert_eq!(reg.register(entry(b"/a/b", b"i", b"m", Vec::new())), Ok(()));
    assert_eq!(
        reg.register(entry(b"/a/b", b"i", b"m", vec![Tag::U64])),
        Err(RegisterError::DuplicateEntry)
    );
}

fn sole_reply(conn: &mut Connection<Counting>, frame: &Vec<u8>) -> Message {
    let before = conn.out.len();
    let ev = conn.handle_frame(frame).expect("frame decodes");
    assert!(matches!(ev, FrameEvent::CallDispatched));
    assert_eq!(conn.out.len(), before + 1, "exactly one reply, no signals");
    conn.out.last().unwrap().clone()
}

#[test]
fn unknown_object_error_and_handler_not_invoked() {
    let mut conn = server();
    let frame = call_frame(5, b"/nope", b"org.example.If", b"Ping", vec![
        Argument::Str(b"x".to_vec()),
    ]);
    let reply = sole_reply(&mut conn, &frame);
    assert_eq!(reply.kind, Kind::Error);
    assert_eq!(reply.reply_serial, Some(5));
    assert_eq!(reply.error_name, Some(b"UnknownObject".to_vec()));
    assert_eq!(conn.registry.entries[0].handler.calls.get(), 0);
}

#[test]
fn unknown_interface_error_and_handler_not_invoked() {
    let mut conn = server();
    let frame = call_frame(6, b"/obj", b"org.example.Other", b"Ping", Vec::new());
    let reply = sole_reply(&mut conn, &frame);
    assert_eq!(reply.kind, Kind::Error);
    assert_eq!(reply.reply_serial, Some(6));
    assert_eq!(reply.error_name, Some(b"UnknownInterface".to_vec()));
    assert_eq!(conn.registry.entries[0].handler.calls.get(), 0);
}

#[test]
fn unknown_method_error_and_handler_not_invoked() {
    let mut conn = server();
    let frame = call_frame(7, b"/obj", b"org.example.If", b"Pong", Vec::new());
    let reply = sole_reply(&mut conn, &frame);
    assert_eq!(reply.kind, Kind::Error);
    assert_eq!(reply.reply_serial, Some(7));
    assert_eq!(reply.error_name, Some(b"UnknownMethod".to_vec()));
    assert_eq!(conn.registry.entries[0].handler.calls.get(), 0);
}

#[test]
fn invalid_args_error_and_handler_not_invoked() {
    let mut conn = server();
    // wrong arity
    let frame = call_frame(8, b"/obj", b"org.example.If", b"Ping", Vec::new());
    let reply = sole_reply(&mut conn, &frame);
    assert_eq!(reply.kind, Kind::Error);
    assert_eq!(reply.error_name, Some(b"InvalidArgs".to_vec()));
    // wrong tag
    let frame = call_frame(9, b"/obj", b"org.example.If", b"Ping", vec![Argument::U64(1)]);
    let reply = sole_reply(&mut conn, &frame);
    assert_eq!(reply.error_name, Some(b"InvalidArgs".to_vec()));
    assert_eq!(conn.registry.entries[0].handler.calls.get(), 0);
}

#[test]
fn matched_call_invokes_handler_exactly_once() {
    let mut conn = server();
    let frame = call_frame(10, b"/obj", b"org.example.If", b"Ping", vec![
        Argument::Str(b"hi".to_vec()),
    ]);
    let reply = sole_reply(&mut conn, &frame);
    assert_eq!(reply.kind, Kind::MethodReturn);
    assert_eq!(reply.reply_serial, Some(10));
    assert_eq!(reply.destination, Some(b":1.7".to_vec()));
    assert_eq!(reply.body, vec![Argument::Bool(true)]);
    assert_eq!(conn.registry.entries[0].handler.calls.get(), 1);
}

#[test]
fn handler_error_becomes_error_reply() {
    struct Failing;
    impl Handler for Failing {
        fn handle(&self, _req: &Request) -> Result<HandlerReply, HandlerError> {
            Err(HandlerError { name: b"org.example.Nope".to_vec(), message: b"refused".to_vec() })
        }
    }
    let mut reg: Registry<Failing> = Registry::new();
    reg.register(Entry {
        path: b"/obj".to_vec(),
        interface: b"i".to_vec(),
        member: b"m".to_vec(),
        in_sig: Vec::new(),
        out_sig: Vec::new(),
        handler: Failing,
    })
    .expect("register");
    let mut conn = Connection::new(reg);
    let frame = call_frame(3, b"/obj", b"i", b"m", Vec::new());
    let ev = conn.handle_frame(&frame).expect("decodes");
    assert!(matches!(ev, FrameEvent::CallDispatched));
    assert_eq!(conn.out.len(), 1);
    let reply = &conn.out[0];
    assert_eq!(reply.kind, Kind::Error);
    assert_eq!(reply.reply_serial, Some(3));
    assert_eq!(reply.error_name, Some(b"org.example.Nope".to_vec()));
    assert_eq!(reply.body, vec![Argument::Str(b"refused".to_vec())]);
}

#[test]
fn handler_error_reaches_the_caller_exactly() {
    struct Grumpy;
    impl Handler for Grumpy {
        fn handle(&self, _req: &Request) -> Result<HandlerReply, HandlerError> {
            Err(HandlerError { name: b"org.example.Grumpy".to_vec(), message: b"not today".to_vec() })
        }
    }
    let mut reg: Registry<Grumpy> = Registry::new();
    reg.register(Entry {
        path: b"/obj".to_vec(),
        interface: b"i".to_vec(),
        member: b"m".to_vec(),
        in_sig: Vec::new(),
        out_sig: Vec::new(),
        handler: Grumpy,
    })
    .expect("register");
    let mut server = Connection::new(reg);
    let mut client: Connection<Grumpy> = Connection::new(Registry::new());
    let proxy = Proxy::new(b"dest".to_vec(), b"/obj".to_vec(), b"i".to_vec(), 1000);
    let serial = proxy.call(&mut client, b"m".to_vec(), Vec::new(), 0);
    let frame = client.pop_outgoing_frame().expect("queued call");
    server.handle_frame(&frame).expect("dispatches");
    let reply = server.pop_outgoing_frame().expect("one error reply");
    assert!(server.pop_outgoing_frame().is_none());
    let msg = match client.handle_frame(&reply).expect("decodes") {
        FrameEvent::ReplyMatched { serial: s, msg } => {
            assert_eq!(s, serial);
            msg
        },
        other => panic!("expected a matched reply, got {:?}", other),
    };
    match Proxy::interpret_reply(&msg, &Vec::new()) {
        Err(CallError::RemoteError { name, message }) => {
            assert_eq!(name, b"org.example.Grumpy".to_vec());
            assert_eq!(message, b"not today".to_vec());
        },
        other => panic!("expected the handler's own error, got {:?}", other),
    }
    // both connections keep working after the error
    assert_eq!(client.pending.len(), 0);
    let serial2 = proxy.call(&mut client, b"m".to_vec(), Vec::new(), 0);
    assert_eq!(serial2, serial + 1);
}

#[test]
fn signals_follow_the_reply_in_order_with_consecutive_serials() {
    struct Chatty;
    impl Handler for Chatty {
        fn handle(&self, req: &Request) -> Result<HandlerReply, HandlerError> {
            Ok(HandlerReply {
                out_args: Vec::new(),
                signals: vec![
                    SignalOut {
                        path: req.path.clone(),
                        interface: b"i".to_vec(),
                        member: b"First".to_vec(),
                        args: Vec::new(),
                    },
                    SignalOut {
                        path: req.path.clone(),
                        interface: b"i".to_vec(),
                        member: b"Second".to_vec(),
                        args: Vec::new(),
                    },
                ],
            })
        }
    }
    let mut reg: Registry<Chatty> = Registry::new();
    reg.register(Entry {
        path: b"/obj".to_vec(),
        interface: b"i".to_vec(),
        member: b"m".to_vec(),
        in_sig: Vec::new(),
        out_sig: Vec::new(),
        handler: Chatty,
    })
    .expect("register");
    let mut server = Connection::new(reg);
    let frame = call_frame2(5, b"/obj", b"i", b"m", Vec::new());
    server.handle_frame(&frame).expect("dispatches");
    assert_eq!(server.out.len(), 3, "one reply, then the two signals");
    let reply = decode(&encode(&server.out[0])).unwrap();
    let s1 = decode(&encode(&server.out[1])).unwrap();
    let s2 = decode(&encode(&server.out[2])).unwrap();
    assert_eq!(reply.kind, Kind::MethodReturn);
    assert_eq!(reply.reply_serial, Some(5));
    assert_eq!(s1.kind, Kind::Signal);
    assert_eq!(s2.kind, Kind::Signal);
    assert_eq!(s1.member, Some(b"First".to_vec()));
    assert_eq!(s2.member, Some(b"Second".to_vec()));
    assert_eq!(s1.serial, reply.serial + 1);
    assert_eq!(s2.serial, reply.serial + 2);
}

fn call_frame2(serial: u64, path: &[u8], iface: &[u8], member: &[u8], body: Vec<Argument>) -> Vec<u8> {
    encode(&Message {
        kind: Kind::MethodCall,
        serial,
        no_reply: false,
        reply_serial: None,
        path: Some(path.to_vec()),
        interface: Some(iface.to_vec()),
        member: Some(member.to_vec()),
        destination: None,
        sender: None,
        error_name: None,
        body,
    })
}

#[test]
fn reply_block_mirrors_the_handler_outcome() {
    // a handler error becomes one error frame with the name and text
    let frames = build_reply_block(
        Err(HandlerError { name: b"org.example.E".to_vec(), message: b"t".to_vec() }),
        7,
        Some(b"caller".to_vec()),
        20,
    );
    assert_eq!(frames.len(), 1);
    assert_eq!(frames[0].kind, Kind::Error);
    assert_eq!(frames[0].serial, 20);
    assert_eq!(frames[0].reply_serial, Some(7));
    assert_eq!(frames[0].destination, Some(b"caller".to_vec()));
    assert_eq!(frames[0].error_name, Some(b"org.example.E".to_vec()));
    assert_eq!(frames[0].body, vec![Argument::Str(b"t".to_vec())]);
    // a success becomes the return plus the signals, in order
    let sig = |m: &[u8]| SignalOut {
        path: b"/p".to_vec(),
        interface: b"i".to_vec(),
        member: m.to_vec(),
        args: Vec::new(),
    };
    let frames = build_reply_block(
        Ok(HandlerReply {
            out_args: vec![Argument::U64(9)],
            signals: vec![sig(b"A"), sig(b"B"), sig(b"C")],
        }),
        7,
        None,
        20,
    );
    assert_eq!(frames.len(), 4);
    assert_eq!(frames[0].kind, Kind::MethodReturn);
    assert_eq!(frames[0].body, vec![Argument::U64(9)]);
    assert_eq!(frames[3].member, Some(b"C".to_vec()));
    assert_eq!(frames[3].serial, 23);
    // a signal for which no serial remains is dropped, earlier frames kept
    let frames = build_reply_block(
        Ok(HandlerReply {
            out_args: Vec::new(),
            signals: vec![sig(b"A"), sig(b"B"), sig(b"C")],
        }),
        7,
        None,
        u64::MAX - 2,
    );
    assert_eq!(frames.len(), 2, "the reply and the one signal that still fits");
    assert_eq!(frames[0].serial, u64::MAX - 2);
    assert_eq!(frames[1].serial, u64::MAX - 1);
    assert_eq!(frames[1].member, Some(b"A".to_vec()));
}
