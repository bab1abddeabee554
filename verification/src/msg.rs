//! The message: the unit of communication on the bus, and its
//! well-formedness rules.

use vstd::prelude::*;
use crate::arg::{Argument, ArgV, args_view};
use crate::bytes::pow256;

verus! {

/// The four kinds of frame the protocol carries.
#[derive(Clone, Copy, PartialEq, Eq, Structural, Debug)]
pub enum Kind {
    MethodCall,
    MethodReturn,
    Error,
    Signal,
}

/// One bus message. `serial` is the per-connection sequence number of
/// this frame; `reply_serial` correlates a reply with the call it
/// answers; `no_reply` is the flag a caller sets when it does not want
/// a reply tracked.
#[derive(Clone, PartialEq, Eq, Debug)]
pub struct Message {
    pub kind: Kind,
    pub serial: u64,
    pub no_reply: bool,
    pub reply_serial: Option<u64>,
    pub path: Option<Vec<u8>>,
    pub interface: Option<Vec<u8>>,
    pub member: Option<Vec<u8>>,
    pub destination: Option<Vec<u8>>,
    pub sender: Option<Vec<u8>>,
    pub error_name: Option<Vec<u8>>,
    pub body: Vec<Argument>,
}

/// Mathematical model of a message.
#[verifier::ext_equal]
pub struct MessageV {
    pub kind: Kind,
    pub serial: u64,
    pub no_reply: bool,
    pub reply_serial: Option<u64>,
    pub path: Option<Seq<u8>>,
    pub interface: Option<Seq<u8>>,
    pub member: Option<Seq<u8>>,
    pub destination: Option<Seq<u8>>,
    pub sender: Option<Seq<u8>>,
    pub error_name: Option<Seq<u8>>,
    pub body: Seq<ArgV>,
}

/// The model of an optional byte-string field.
pub open spec fn opt_bytes_view(o: Option<Vec<u8>>) -> Option<Seq<u8>> {
    match o {
        Some(v) => Some(v@),
        None => None,
    }
}

impl View for Message {
    type V = MessageV;

    open spec fn view(&self) -> MessageV {
        MessageV {
            kind: self.kind,
            serial: self.serial,
            no_reply: self.no_reply,
            reply_serial: self.reply_serial,
            path: opt_bytes_view(self.path),
            interface: opt_bytes_view(self.interface),
            member: opt_bytes_view(self.member),
            destination: opt_bytes_view(self.destination),
            sender: opt_bytes_view(self.sender),
            error_name: opt_bytes_view(self.error_name),
            body: args_view(self.body@),
        }
    }
}

/// Whether this kind answers an earlier call, and so must carry a
/// `reply_serial`.
pub open spec fn is_reply_kind(k: Kind) -> bool {
    k == Kind::MethodReturn || k == Kind::Error
}

/// A byte string short enough for its 8-byte length prefix.
pub open spec fn wf_str(s: Seq<u8>) -> bool {
    s.len() < pow256(8)
}

pub open spec fn wf_opt_str(o: Option<Seq<u8>>) -> bool {
    o matches Some(s) ==> wf_str(s)
}

pub open spec fn wf_arg(a: ArgV) -> bool {
    a matches ArgV::Str(s) ==> wf_str(s)
}

/// A well-formed message: a reply kind carries a `reply_serial` and no
/// other kind does; a call or signal names a path and a member; exactly
/// the error kind carries an error name; the no-reply flag belongs to
/// method calls; and every variable-length piece fits its 8-byte
/// length prefix.
pub open spec fn wf_message(m: MessageV) -> bool {
    &&& m.reply_serial.is_some() == is_reply_kind(m.kind)
    &&& (m.kind == Kind::MethodCall || m.kind == Kind::Signal) ==> m.path.is_some()
        && m.member.is_some()
    &&& m.error_name.is_some() == (m.kind == Kind::Error)
    &&& m.no_reply ==> m.kind == Kind::MethodCall
    &&& wf_opt_str(m.path)
    &&& wf_opt_str(m.interface)
    &&& wf_opt_str(m.member)
    &&& wf_opt_str(m.destination)
    &&& wf_opt_str(m.sender)
    &&& wf_opt_str(m.error_name)
    &&& m.body.len() < pow256(8)
    &&& forall|i: int| 0 <= i < m.body.len() ==> wf_arg(m.body[i])
}

} // verus!
