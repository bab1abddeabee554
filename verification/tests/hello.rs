//! The end-to-end scenario: a server exposes "Hello" on /hello, a
//! client calls it with two strings over the in-memory byte channel,
//! gets two greetings back, and exactly one "HelloHappened" signal is
//! emitted alongside the reply.

use minibus::arg::{Argument, Tag};
use minibus::codec::decode;
use minibus::conn::{Connection, FrameEvent};
use minibus::dispatch::{
    Entry, Handler, HandlerError, HandlerReply, Registry, Request, SignalOut,
};
use minibus::msg::Kind;
use minibus::proxy::Proxy;

struct HelloHandler;

impl Handler for HelloHandler {
    fn handle(&self, req: &Request) -> Result<HandlerReply, HandlerError> {
        let (name1, name2) = match (&req.args[0], &req.args[1]) {
            (Argument::Str(a), Argument::Str(b)) => (a.clone(), b.clone()),
            _ => {
                return Err(HandlerError {
                    name: b"org.example.BadArgs".to_vec(),
                    message: b"two strings expected".to_vec(),
                })
            },
        };
        let s1 = format!("Hello {}!", String::from_utf8(name1.clone()).unwrap());
        let s2 = format!("hello {}!", String::from_utf8(name2.clone()).unwrap());
        Ok(HandlerReply {
            out_args: vec![
                Argument::Str(s1.into_bytes()),
                Argument::Str(s2.into_bytes()),
            ],
            signals: vec![SignalOut {
                path: req.path.clone(),
                interface: req.interface.clone().unwrap(),
                member: b"HelloHappened".to_vec(),
                args: vec![Argument::Str(name1), Argument::Str(name2)],
            }],
        })
    }
}

#[test]
fn hello_round_trip_with_one_signal() {
    // server side
    let mut reg: Registry<HelloHandler> = Registry::new();
    reg.register(Entry {
        path: b"/hello".to_vec(),
        interface: b"com.example.dbustest".to_vec(),
        member: b"Hello".to_vec(),
        in_sig: vec![Tag::Str, Tag::Str],
        out_sig: vec![Tag::Str, Tag::Str],
        handler: HelloHandler,
    })
    .expect("register");
    let mut server: Connection<HelloHandler> = Connection::new(reg);

    // client side
    let mut client: Connection<HelloHandler> = Connection::new(Registry::new());
    let proxy = Proxy::new(
        b"com.example.dbustest".to_vec(),
        b"/hello".to_vec(),
        b"com.example.dbustest".to_vec(),
        5000,
    );
    let serial = proxy.call(
        &mut client,
        b"Hello".to_vec(),
        vec![Argument::Str(b"foo".to_vec()), Argument::Str(b"bar".to_vec())],
        0,
    );

    // move the call frame to the server
    let frame = client.pop_outgoing_frame().expect("one queued call");
    assert!(client.pop_outgoing_frame().is_none());
    let ev = server.handle_frame(&frame).expect("call decodes");
    assert!(matches!(ev, FrameEvent::CallDispatched));

    // the server queued the reply first, then exactly one signal
    let reply_frame = server.pop_outgoing_frame().expect("a reply");
    let signal_frame = server.pop_outgoing_frame().expect("one signal");
    assert!(server.pop_outgoing_frame().is_none(), "exactly one signal");

    let signal = decode(&signal_frame).expect("signal decodes");
    assert_eq!(signal.kind, Kind::Signal);
    assert_eq!(signal.reply_serial, None);
    assert_eq!(signal.path, Some(b"/hello".to_vec()));
    assert_eq!(signal.member, Some(b"HelloHappened".to_vec()));
    assert_eq!(
        signal.body,
        vec![Argument::Str(b"foo".to_vec()), Argument::Str(b"bar".to_vec())]
    );

    // the reply resolves the client's pending call
    let msg = match client.handle_frame(&reply_frame).expect("reply decodes") {
        FrameEvent::ReplyMatched { serial: s, msg } => {
            assert_eq!(s, serial);
            msg
        },
        other => panic!("expected a matched reply, got {:?}", other),
    };
    assert_eq!(msg.kind, Kind::MethodReturn);
    let out = Proxy::interpret_reply(&msg, &vec![Tag::Str, Tag::Str]).expect("two strings");
    assert_eq!(
        out,
        vec![
            Argument::Str(b"Hello foo!".to_vec()),
            Argument::Str(b"hello bar!".to_vec()),
        ]
    );
}
