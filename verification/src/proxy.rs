//! The client-side proxy: composes method calls for a fixed
//! (destination, path, interface) tuple and interprets the reply
//! against the caller's expected output signature.

use vstd::prelude::*;
use crate::arg::{arg_tag, args_cover_sig, args_view, tag_of, ArgV, Argument, Tag};
use crate::bytes::copy_bytes;
use crate::conn::{call_msg, msg_views, Connection, PendingCall};
use crate::dispatch::Handler;
use crate::msg::{is_reply_kind, Kind, Message};

verus! {

/// Why a proxied method call failed.
#[derive(Clone, Debug)]
pub enum CallError {
    /// No reply arrived before the deadline.
    Timeout,
    /// The peer answered with an error frame carrying this name and
    /// message text.
    RemoteError { name: Vec<u8>, message: Vec<u8> },
    /// The reply carries fewer output arguments than the expected
    /// arity.
    ShortReply,
    /// An expected output argument carries the wrong type tag.
    TypeMismatch,
}

/// The message text of an error frame: its first argument when that
/// is a byte string, empty otherwise.
pub open spec fn error_text(body: Seq<ArgV>) -> Seq<u8> {
    if body.len() > 0 {
        match body[0] {
            ArgV::Str(s) => s,
            _ => Seq::empty(),
        }
    } else {
        Seq::empty()
    }
}

/// The deadline a call issued at `now` gets: `now` plus the timeout,
/// saturating at the largest representable instant.
pub open spec fn deadline_at(now: u64, timeout: u64) -> u64 {
    if now + timeout > u64::MAX {
        u64::MAX
    } else {
        (now + timeout) as u64
    }
}

/// A client-side helper bound to one remote object: every call it
/// composes goes to the same destination, path and interface, with
/// the same timeout.
pub struct Proxy {
    pub destination: Vec<u8>,
    pub path: Vec<u8>,
    pub interface: Vec<u8>,
    pub timeout: u64,
}

/// A fresh copy of one argument.
fn copy_arg(a: &Argument) -> (r: Argument)
    ensures
        r@ == a@,
{
    match a {
        Argument::Str(v) => Argument::Str(copy_bytes(v)),
        Argument::U64(x) => Argument::U64(*x),
        Argument::Bool(b) => Argument::Bool(*b),
    }
}

impl Proxy {
    pub fn new(destination: Vec<u8>, path: Vec<u8>, interface: Vec<u8>, timeout: u64) -> (p: Proxy)
        ensures
            p.destination@ == destination@,
            p.path@ == path@,
            p.interface@ == interface@,
            p.timeout == timeout,
    {
        Proxy { destination, path, interface, timeout }
    }

    /// Composes a method call with a fresh serial, queues it on the
    /// connection and registers a pending call whose deadline is
    /// `now` plus the proxy's timeout.
    pub fn call<H: Handler>(
        &self,
        conn: &mut Connection<H>,
        member: Vec<u8>,
        args: Vec<Argument>,
        now: u64,
    ) -> (serial: u64)
        requires
            old(conn).wf(),
            old(conn).next_serial < u64::MAX,
        ensures
            final(conn).wf(),
            serial == old(conn).next_serial,
            final(conn).next_serial == old(conn).next_serial + 1,
            final(conn).registry == old(conn).registry,
            msg_views(final(conn).out@) == msg_views(old(conn).out@).push(
                call_msg(
                    serial,
                    Some(self.destination@),
                    self.path@,
                    Some(self.interface@),
                    member@,
                    args_view(args@),
                    false,
                ),
            ),
            final(conn).pending@ == old(conn).pending@.push(
                PendingCall { serial, deadline: deadline_at(now, self.timeout) },
            ),
    {
        let deadline: u64 = if now > u64::MAX - self.timeout {
            u64::MAX
        } else {
            now + self.timeout
        };
        conn.send_call(
            Some(copy_bytes(&self.destination)),
            copy_bytes(&self.path),
            Some(copy_bytes(&self.interface)),
            member,
            args,
            false,
            deadline,
        )
    }

    /// Interprets a reply frame against the expected output
    /// signature. An error frame surfaces as a remote error; a method
    /// return must carry at least the expected arity with the
    /// expected tags; extra trailing arguments are accepted and
    /// ignored.
    pub fn interpret_reply(msg: &Message, out_sig: &Vec<Tag>) -> (r: Result<
        Vec<Argument>,
        CallError,
    >)
        requires
            is_reply_kind(msg@.kind),
            msg@.kind == Kind::Error ==> msg@.error_name is Some,
        ensures
            msg@.kind == Kind::Error ==> (r matches Err(CallError::RemoteError { name, message })
                && Some(name@) == msg@.error_name && message@ == error_text(msg@.body)),
            msg@.kind == Kind::MethodReturn && msg@.body.len() < out_sig@.len() ==> r matches Err(
                CallError::ShortReply,
            ),
            msg@.kind == Kind::MethodReturn && msg@.body.len() >= out_sig@.len()
                && !args_cover_sig(msg@.body, out_sig@) ==> r matches Err(CallError::TypeMismatch),
            msg@.kind == Kind::MethodReturn && args_cover_sig(msg@.body, out_sig@) ==> (r matches
                Ok(v) && args_view(v@) == msg@.body.subrange(0, out_sig@.len() as int)),
    {
        if msg.kind == Kind::Error {
            let name: Vec<u8> = match &msg.error_name {
                Some(n) => copy_bytes(n),
                None => {
                    proof {
                        assert(false);
                    }
                    Vec::new()
                },
            };
            let message: Vec<u8> = if msg.body.len() > 0 {
                match &msg.body[0] {
                    Argument::Str(s) => copy_bytes(s),
                    _ => Vec::new(),
                }
            } else {
                Vec::new()
            };
            proof {
                assert(message@ == error_text(msg@.body));
            }
            return Err(CallError::RemoteError { name, message });
        }
        if msg.body.len() < out_sig.len() {
            return Err(CallError::ShortReply);
        }
        let n: usize = out_sig.len();
        let mut i: usize = 0;
        while i < n
            invariant
                msg@.kind == Kind::MethodReturn,
                n == out_sig@.len(),
                i <= n,
                n <= msg@.body.len(),
                forall|j: int| 0 <= j < i ==> tag_of(msg@.body[j]) == out_sig@[j],
            decreases n - i,
        {
            let t: Tag = arg_tag(&msg.body[i]);
            if t != out_sig[i] {
                proof {
                    assert(tag_of(msg@.body[i as int]) != out_sig@[i as int]);
                }
                return Err(CallError::TypeMismatch);
            }
            i = i + 1;
        }
        let mut v: Vec<Argument> = Vec::new();
        let mut k: usize = 0;
        proof {
            assert(args_view(v@) =~= msg@.body.subrange(0, 0));
        }
        while k < n
            invariant
                n == out_sig@.len(),
                k <= n,
                n <= msg@.body.len(),
                args_view(v@) == msg@.body.subrange(0, k as int),
            decreases n - k,
        {
            let a: Argument = copy_arg(&msg.body[k]);
            let ghost pre = args_view(v@);
            v.push(a);
            k = k + 1;
            proof {
                assert(args_view(v@) =~= pre.push(msg@.body[k - 1]));
                assert(msg@.body.subrange(0, k as int) =~= msg@.body.subrange(0, k - 1).push(
                    msg@.body[k - 1],
                ));
            }
        }
        Ok(v)
    }
}

} // verus!
