use minibus::arg::Argument;
use minibus::codec::decode;
use minibus::conn::Connection;
use minibus::dispatch::{Handler, HandlerError, HandlerReply, Registry, Request};
use minibus::msg::Kind;
use minibus::path::is_valid_path;

#[test]
fn path_validity_rule() {
    assert!(is_valid_path(&b"/".to_vec()));
    assert!(is_valid_path(&b"/hello".to_vec()));
    assert!(is_valid_path(&b"/a/b/c".to_vec()));
    assert!(!is_valid_path(&b"".to_vec()));
    assert!(!is_valid_path(&b"hello".to_vec()));
    assert!(!is_valid_path(&b"//".to_vec()));
    assert!(!is_valid_path(&b"/a//b".to_vec()));
    assert!(!is_valid_path(&b"/a/".to_vec()));
}

struct Nop;

impl Handler for Nop {
    fn handle(&self, _req: &Request) -> Result<HandlerReply, HandlerError> {
        Ok(HandlerReply { out_args: Vec::new(), signals: Vec::new() })
    }
}

#[test]
fn emitted_signal_has_no_destination_and_no_reply_serial() {
    let mut conn: Connection<Nop> = Connection::new(Registry::new());
    let serial = conn.emit_signal(
        b"/hello".to_vec(),
        b"com.example.dbustest".to_vec(),
        b"HelloHappened".to_vec(),
        vec![Argument::Str(b"sender".to_vec())],
    );
    assert_eq!(serial, 1);
    assert_eq!(conn.pending.len(), 0, "fire and forget: nothing awaits a reply");
    let frame = conn.pop_outgoing_frame().expect("one queued signal");
    let msg = decode(&frame).expect("decodes");
    assert_eq!(msg.kind, Kind::Signal);
    assert_eq!(msg.serial, serial);
    assert_eq!(msg.destination, None);
    assert_eq!(msg.reply_serial, None);
    assert_eq!(msg.member, Some(b"HelloHappened".to_vec()));
}
