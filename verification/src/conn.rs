//! The connection: owner of the serial counter, the pending-call set
//! and the outgoing frame queue. Its receive path decodes one frame,
//! routes method calls through the object tree, resolves replies
//! against pending calls, and surfaces signals.

use vstd::prelude::*;
use crate::arg::{args_match_sig, args_view, check_args_match, ArgV, Argument};
use crate::codec::{decode, encode, spec_decode, spec_encode, DecodeError};
use crate::dispatch::{
    reg_has_pair, reg_has_path, reg_has_triple, reg_wf, request_of, triple_matches, Entry,
    Handler, HandlerError, HandlerReply, LookupOutcome, Registry, SignalOut,
};
use crate::msg::{is_reply_kind, opt_bytes_view, Kind, Message, MessageV};

verus! {

/// The bytes of the error name `UnknownObject`.
pub open spec fn name_unknown_object() -> Seq<u8> {
    seq![85u8, 110, 107, 110, 111, 119, 110, 79, 98, 106, 101, 99, 116]
}

/// The bytes of the error name `UnknownInterface`.
pub open spec fn name_unknown_interface() -> Seq<u8> {
    seq![85u8, 110, 107, 110, 111, 119, 110, 73, 110, 116, 101, 114, 102, 97, 99, 101]
}

/// The bytes of the error name `UnknownMethod`.
pub open spec fn name_unknown_method() -> Seq<u8> {
    seq![85u8, 110, 107, 110, 111, 119, 110, 77, 101, 116, 104, 111, 100]
}

/// The bytes of the error name `InvalidArgs`.
pub open spec fn name_invalid_args() -> Seq<u8> {
    seq![73u8, 110, 118, 97, 108, 105, 100, 65, 114, 103, 115]
}

/// A client-side record of an in-flight method call.
#[derive(Clone, Copy, PartialEq, Eq, Structural, Debug)]
pub struct PendingCall {
    pub serial: u64,
    pub deadline: u64,
}

/// What the receive path did with one incoming frame.
#[derive(Debug)]
pub enum FrameEvent {
    /// A method call was routed; the replies are in the out queue.
    CallDispatched,
    /// A reply resolved the pending call with this serial.
    ReplyMatched { serial: u64, msg: Message },
    /// A reply matched no pending call and was discarded.
    ReplyDropped,
    /// An unsolicited signal arrived.
    SignalReceived { msg: Message },
}

/// The models of a queue of messages, element by element.
pub open spec fn msg_views(s: Seq<Message>) -> Seq<MessageV> {
    s.map_values(|m: Message| m@)
}

pub open spec fn pending_has(p: Seq<PendingCall>, s: u64) -> bool {
    exists|i: int| 0 <= i < p.len() && (#[trigger] p[i]).serial == s
}

pub open spec fn pending_distinct(p: Seq<PendingCall>) -> bool {
    forall|i: int, j: int|
        0 <= i < j < p.len() ==> (#[trigger] p[i]).serial != (#[trigger] p[j]).serial
}

pub open spec fn pending_bounded(p: Seq<PendingCall>, bound: u64) -> bool {
    forall|i: int| 0 <= i < p.len() ==> (#[trigger] p[i]).serial < bound
}

/// The pending calls that survive an expiry sweep at time `now`:
/// those whose deadline has not yet been reached, in order.
pub open spec fn pending_live(p: Seq<PendingCall>, now: u64) -> Seq<PendingCall>
    decreases p.len(),
{
    if p.len() == 0 {
        Seq::empty()
    } else {
        let rest = pending_live(p.drop_last(), now);
        if p.last().deadline > now {
            rest.push(p.last())
        } else {
            rest
        }
    }
}

/// The serials of the pending calls an expiry sweep at `now` removes,
/// in order.
pub open spec fn expired_serials(p: Seq<PendingCall>, now: u64) -> Seq<u64>
    decreases p.len(),
{
    if p.len() == 0 {
        Seq::empty()
    } else {
        let rest = expired_serials(p.drop_last(), now);
        if p.last().deadline <= now {
            rest.push(p.last().serial)
        } else {
            rest
        }
    }
}

/// The model of a method-call frame the connection sends.
pub open spec fn call_msg(
    serial: u64,
    dest: Option<Seq<u8>>,
    path: Seq<u8>,
    iface: Option<Seq<u8>>,
    member: Seq<u8>,
    body: Seq<ArgV>,
    no_reply: bool,
) -> MessageV {
    MessageV {
        kind: Kind::MethodCall,
        serial,
        no_reply,
        reply_serial: None,
        path: Some(path),
        interface: iface,
        member: Some(member),
        destination: dest,
        sender: None,
        error_name: None,
        body,
    }
}

/// The model of a signal frame.
pub open spec fn sig_msg(
    serial: u64,
    path: Seq<u8>,
    iface: Seq<u8>,
    member: Seq<u8>,
    body: Seq<ArgV>,
) -> MessageV {
    MessageV {
        kind: Kind::Signal,
        serial,
        no_reply: false,
        reply_serial: None,
        path: Some(path),
        interface: Some(iface),
        member: Some(member),
        destination: None,
        sender: None,
        error_name: None,
        body,
    }
}

/// The model of an error reply.
pub open spec fn err_msg(
    serial: u64,
    reply_to: u64,
    dest: Option<Seq<u8>>,
    name: Seq<u8>,
    body: Seq<ArgV>,
) -> MessageV {
    MessageV {
        kind: Kind::Error,
        serial,
        no_reply: false,
        reply_serial: Some(reply_to),
        path: None,
        interface: None,
        member: None,
        destination: dest,
        sender: None,
        error_name: Some(name),
        body,
    }
}

/// The model of a method-return reply.
pub open spec fn ret_msg(serial: u64, reply_to: u64, dest: Option<Seq<u8>>, body: Seq<ArgV>) -> MessageV {
    MessageV {
        kind: Kind::MethodReturn,
        serial,
        no_reply: false,
        reply_serial: Some(reply_to),
        path: None,
        interface: None,
        member: None,
        destination: dest,
        sender: None,
        error_name: None,
        body,
    }
}

/// What the dispatcher appends to the out queue for one routed method
/// call: exactly one reply frame first, carrying the call's serial as
/// its reply serial, of kind method-return or error and never both or
/// neither; then only signal frames. Each lookup or argument failure
/// yields the matching error name, an empty body and no signals; and
/// only a failure may look like that: a call that reached its handler
/// is answered with a method return, or with a handler error, whose
/// body is the single message-text argument.
pub open spec fn routed_ok<H>(reg: Seq<Entry<H>>, call: MessageV, appended: Seq<MessageV>) -> bool {
    &&& appended.len() >= 1
    &&& (appended[0].kind == Kind::MethodReturn || appended[0].kind == Kind::Error)
    &&& appended[0].reply_serial == Some(call.serial)
    &&& appended[0].destination == call.sender
    &&& forall|i: int|
        1 <= i < appended.len() ==> (#[trigger] appended[i]).kind == Kind::Signal
            && appended[i].reply_serial is None
    &&& !reg_has_path(reg, call.path.unwrap()) ==> appended.len() == 1 && appended[0].kind
        == Kind::Error && appended[0].error_name == Some(name_unknown_object()) && appended[0].body
        == Seq::<ArgV>::empty()
    &&& reg_has_path(reg, call.path.unwrap()) && !reg_has_pair(
        reg,
        call.path.unwrap(),
        call.interface,
    ) ==> appended.len() == 1 && appended[0].kind == Kind::Error && appended[0].error_name == Some(
        name_unknown_interface(),
    ) && appended[0].body == Seq::<ArgV>::empty()
    &&& reg_has_pair(reg, call.path.unwrap(), call.interface) && !reg_has_triple(
        reg,
        call.path.unwrap(),
        call.interface,
        call.member.unwrap(),
    ) ==> appended.len() == 1 && appended[0].kind == Kind::Error && appended[0].error_name == Some(
        name_unknown_method(),
    ) && appended[0].body == Seq::<ArgV>::empty()
    &&& forall|j: int|
        0 <= j < reg.len() && triple_matches(
            #[trigger] reg[j],
            call.path.unwrap(),
            call.interface,
            call.member.unwrap(),
        ) && !args_match_sig(call.body, reg[j].in_sig@) ==> appended.len() == 1 && appended[0].kind
            == Kind::Error && appended[0].error_name == Some(name_invalid_args())
            && appended[0].body == Seq::<ArgV>::empty()
    &&& routed_to_handler(reg, call) ==> (appended[0].kind == Kind::MethodReturn || (
    appended[0].kind == Kind::Error && appended[0].body.len() == 1 && appended[0].body[0] is Str))
}

/// The call reaches a handler: its triple is registered and its
/// arguments match the registered input signature.
pub open spec fn routed_to_handler<H>(reg: Seq<Entry<H>>, call: MessageV) -> bool {
    &&& reg_has_triple(reg, call.path.unwrap(), call.interface, call.member.unwrap())
    &&& forall|j: int|
        0 <= j < reg.len() && triple_matches(
            #[trigger] reg[j],
            call.path.unwrap(),
            call.interface,
            call.member.unwrap(),
        ) ==> args_match_sig(call.body, reg[j].in_sig@)
}

/// How many of a handler's signals fit the serial space that remains
/// after the reply took `first_serial`: all of them, unless the
/// counter would pass the largest serial, which cuts the tail off.
pub open spec fn kept_signal_count(n: int, first_serial: u64) -> int {
    if n <= u64::MAX - first_serial - 1 {
        n
    } else {
        u64::MAX - first_serial - 1
    }
}

/// One endpoint's protocol engine: the serial counter, the pending
/// calls, the object tree, and the queue of frames to send.
///
/// The host owns this value, so the fields are readable by it (the
/// receive loop drains `out`, and checking the serial headroom a call
/// requires takes `next_serial`). Every guarantee stated here is
/// conditioned on `wf()`: the constructor establishes it, every
/// operation preserves it, and a host that writes to the counter or
/// the pending set directly steps outside the stated contracts just
/// as it would by swapping the whole value.
pub struct Connection<H> {
    pub next_serial: u64,
    pub pending: Vec<PendingCall>,
    pub registry: Registry<H>,
    pub out: Vec<Message>,
}

impl<H: Handler> Connection<H> {
    /// The connection's invariant: serials start at 1 and grow; every
    /// pending call's serial was allocated earlier and no serial is
    /// tracked twice; the object tree is well formed.
    pub open spec fn wf(&self) -> bool {
        &&& self.next_serial >= 1
        &&& pending_distinct(self.pending@)
        &&& pending_bounded(self.pending@, self.next_serial)
        &&& reg_wf(self.registry.entries@)
    }

    /// A fresh connection around an object tree. Serials start at 1.
    pub fn new(registry: Registry<H>) -> (c: Connection<H>)
        requires
            reg_wf(registry.entries@),
        ensures
            c.wf(),
            c.next_serial == 1,
            c.pending@ =~= Seq::<PendingCall>::empty(),
            c.out@ =~= Seq::<Message>::empty(),
            c.registry == registry,
    {
        Connection { next_serial: 1, pending: Vec::new(), registry, out: Vec::new() }
    }

    /// Composes and queues a method-call frame with a fresh serial.
    /// Unless the caller waives the reply, a pending call with the
    /// given deadline starts tracking it.
    pub fn send_call(
        &mut self,
        destination: Option<Vec<u8>>,
        path: Vec<u8>,
        interface: Option<Vec<u8>>,
        member: Vec<u8>,
        args: Vec<Argument>,
        no_reply: bool,
        deadline: u64,
    ) -> (serial: u64)
        requires
            old(self).wf(),
            old(self).next_serial < u64::MAX,
        ensures
            final(self).wf(),
            serial == old(self).next_serial,
            final(self).next_serial == old(self).next_serial + 1,
            final(self).registry == old(self).registry,
            msg_views(final(self).out@) == msg_views(old(self).out@).push(
                call_msg(
                    serial,
                    opt_bytes_view(destination),
                    path@,
                    opt_bytes_view(interface),
                    member@,
                    args_view(args@),
                    no_reply,
                ),
            ),
            no_reply ==> final(self).pending@ == old(self).pending@,
            !no_reply ==> final(self).pending@ == old(self).pending@.push(
                PendingCall { serial, deadline },
            ),
    {
        let serial: u64 = self.next_serial;
        self.next_serial = serial + 1;
        let m = Message {
            kind: Kind::MethodCall,
            serial,
            no_reply,
            reply_serial: None,
            path: Some(path),
            interface,
            member: Some(member),
            destination,
            sender: None,
            error_name: None,
            body: args,
        };
        let ghost mv = m@;
        self.out.push(m);
        if !no_reply {
            self.pending.push(PendingCall { serial, deadline });
        }
        proof {
            assert(msg_views(self.out@) =~= msg_views(old(self).out@).push(mv));
        }
        serial
    }

    /// Composes and queues a signal frame: fire and forget, no reply
    /// expected and no pending call created.
    pub fn emit_signal(
        &mut self,
        path: Vec<u8>,
        interface: Vec<u8>,
        member: Vec<u8>,
        args: Vec<Argument>,
    ) -> (serial: u64)
        requires
            old(self).wf(),
            old(self).next_serial < u64::MAX,
        ensures
            final(self).wf(),
            serial == old(self).next_serial,
            final(self).next_serial == old(self).next_serial + 1,
            final(self).registry == old(self).registry,
            final(self).pending@ == old(self).pending@,
            msg_views(final(self).out@) == msg_views(old(self).out@).push(
                sig_msg(serial, path@, interface@, member@, args_view(args@)),
            ),
    {
        let serial: u64 = self.next_serial;
        self.next_serial = serial + 1;
        let m = Message {
            kind: Kind::Signal,
            serial,
            no_reply: false,
            reply_serial: None,
            path: Some(path),
            interface: Some(interface),
            member: Some(member),
            destination: None,
            sender: None,
            error_name: None,
            body: args,
        };
        let ghost mv = m@;
        self.out.push(m);
        proof {
            assert(msg_views(self.out@) =~= msg_views(old(self).out@).push(mv));
        }
        serial
    }

    /// Takes the oldest queued outgoing frame, encoded for the wire.
    pub fn pop_outgoing_frame(&mut self) -> (r: Option<Vec<u8>>)
        ensures
            final(self).next_serial == old(self).next_serial,
            final(self).pending@ == old(self).pending@,
            final(self).registry == old(self).registry,
            old(self).out@.len() == 0 ==> (r is None && final(self).out@ == old(self).out@),
            old(self).out@.len() > 0 ==> (r matches Some(b) && b@ == spec_encode(
                msg_views(old(self).out@)[0],
            ) && final(self).out@ == old(self).out@.remove(0)),
    {
        if self.out.len() == 0 {
            return None;
        }
        let m: Message = self.out.remove(0);
        proof {
            assert(msg_views(old(self).out@)[0] == m@);
        }
        Some(encode(&m))
    }

    /// Removes every pending call whose deadline has been reached and
    /// returns their serials: those calls resolve to a timeout.
    pub fn expire_pending(&mut self, now: u64) -> (expired: Vec<u64>)
        requires
            old(self).wf(),
        ensures
            final(self).wf(),
            final(self).next_serial == old(self).next_serial,
            final(self).out@ == old(self).out@,
            final(self).registry == old(self).registry,
            final(self).pending@ == pending_live(old(self).pending@, now),
            expired@ == expired_serials(old(self).pending@, now),
    {
        let ghost oldp = self.pending@;
        let mut kept: Vec<PendingCall> = Vec::new();
        let mut expired: Vec<u64> = Vec::new();
        let n: usize = self.pending.len();
        let mut i: usize = 0;
        proof {
            assert(oldp.subrange(0, 0) =~= Seq::<PendingCall>::empty());
        }
        while i < n
            invariant
                n == self.pending@.len(),
                i <= n,
                self.pending@ == oldp,
                kept@ == pending_live(oldp.subrange(0, i as int), now),
                expired@ == expired_serials(oldp.subrange(0, i as int), now),
            decreases n - i,
        {
            let c: PendingCall = self.pending[i];
            let ghost pref = oldp.subrange(0, i as int);
            if c.deadline > now {
                kept.push(c);
            } else {
                expired.push(c.serial);
            }
            i = i + 1;
            proof {
                let cur = oldp.subrange(0, i as int);
                assert(cur.drop_last() =~= pref);
                assert(cur.last() == c);
            }
        }
        proof {
            assert(oldp.subrange(0, n as int) =~= oldp);
        }
        self.pending = kept;
        proof {
            lemma_live_wf(oldp, now, self.next_serial);
        }
        expired
    }
}

/// Everything the live set keeps was pending before: the sweep
/// invents no calls.
pub proof fn lemma_live_membership(p: Seq<PendingCall>, now: u64, s: u64)
    requires
        pending_has(pending_live(p, now), s),
    ensures
        pending_has(p, s),
    decreases p.len(),
{
    if p.len() > 0 {
        let live = pending_live(p, now);
        let rest = pending_live(p.drop_last(), now);
        if p.last().deadline > now && p.last().serial == s {
            assert(p[p.len() - 1].serial == s);
        } else {
            assert(pending_has(rest, s)) by {
                let i = choose|i: int| 0 <= i < live.len() && live[i].serial == s;
                if p.last().deadline > now {
                    assert(live == rest.push(p.last()));
                    assert(i < rest.len());
                    assert(rest[i].serial == s);
                } else {
                    assert(live == rest);
                }
            }
            lemma_live_membership(p.drop_last(), now, s);
            let j = choose|j: int| 0 <= j < p.drop_last().len() && p.drop_last()[j].serial == s;
            assert(p[j].serial == s);
        }
    }
}

/// Every serial the sweep reports was pending before.
pub proof fn lemma_expired_membership(p: Seq<PendingCall>, now: u64, s: u64)
    requires
        expired_serials(p, now).contains(s),
    ensures
        pending_has(p, s),
    decreases p.len(),
{
    if p.len() > 0 {
        let ex = expired_serials(p, now);
        let rest = expired_serials(p.drop_last(), now);
        if p.last().deadline <= now && p.last().serial == s {
            assert(p[p.len() - 1].serial == s);
        } else {
            assert(rest.contains(s)) by {
                let i = choose|i: int| 0 <= i < ex.len() && ex[i] == s;
                if p.last().deadline <= now {
                    assert(ex == rest.push(p.last().serial));
                    assert(i < rest.len());
                    assert(rest[i] == s);
                } else {
                    assert(ex == rest);
                }
            }
            lemma_expired_membership(p.drop_last(), now, s);
            let j = choose|j: int| 0 <= j < p.drop_last().len() && p.drop_last()[j].serial == s;
            assert(p[j].serial == s);
        }
    }
}

/// The sweep keeps the pending set well formed.
pub proof fn lemma_live_wf(p: Seq<PendingCall>, now: u64, bound: u64)
    requires
        pending_distinct(p),
        pending_bounded(p, bound),
    ensures
        pending_distinct(pending_live(p, now)),
        pending_bounded(pending_live(p, now), bound),
    decreases p.len(),
{
    if p.len() > 0 {
        let dl = p.drop_last();
        assert(pending_distinct(dl) && pending_bounded(dl, bound)) by {
            assert(forall|i: int| 0 <= i < dl.len() ==> dl[i] == p[i]);
        }
        lemma_live_wf(dl, now, bound);
        let rest = pending_live(dl, now);
        if p.last().deadline > now {
            let live = pending_live(p, now);
            assert(live == rest.push(p.last()));
            assert forall|i: int, j: int|
                0 <= i < j < live.len() implies (#[trigger] live[i]).serial != (
            #[trigger] live[j]).serial by {
                if j == live.len() - 1 {
                    assert(live[j] == p.last());
                    if live[i].serial == p.last().serial {
                        assert(pending_has(rest, p.last().serial));
                        lemma_live_membership(dl, now, p.last().serial);
                        let k = choose|k: int| 0 <= k < dl.len() && dl[k].serial == p.last().serial;
                        assert(p[k].serial == p[p.len() - 1].serial);
                    }
                }
            }
            assert forall|i: int| 0 <= i < live.len() implies (#[trigger] live[i]).serial
                < bound by {
                if i == live.len() - 1 {
                    assert(live[i] == p.last());
                    assert(p[p.len() - 1].serial < bound);
                }
            }
        }
    }
}

/// A pending call that misses its deadline resolves to a timeout, and
/// only to a timeout: the sweep that reports its serial also removes
/// it, so a reply arriving later finds no pending call with that
/// serial and is discarded rather than resolved a second time.
pub proof fn lemma_timeout_wins(p: Seq<PendingCall>, now: u64, s: u64)
    requires
        pending_distinct(p),
        expired_serials(p, now).contains(s),
    ensures
        !pending_has(pending_live(p, now), s),
    decreases p.len(),
{
    if p.len() > 0 {
        let dl = p.drop_last();
        assert(pending_distinct(dl)) by {
            assert(forall|i: int| 0 <= i < dl.len() ==> dl[i] == p[i]);
        }
        let live = pending_live(p, now);
        let rest = pending_live(dl, now);
        let ex = expired_serials(p, now);
        let exrest = expired_serials(dl, now);
        if p.last().deadline > now {
            assert(ex == exrest);
            lemma_expired_membership(dl, now, s);
            let k = choose|k: int| 0 <= k < dl.len() && dl[k].serial == s;
            lemma_timeout_wins(dl, now, s);
            assert(live == rest.push(p.last()));
            if pending_has(live, s) {
                let i = choose|i: int| 0 <= i < live.len() && live[i].serial == s;
                if i == live.len() - 1 {
                    // the kept last call would share the serial of an
                    // earlier pending call, contradicting distinctness
                    assert(live[i] == p.last());
                    assert(p[k].serial == p[p.len() - 1].serial);
                    assert(false);
                } else {
                    assert(rest[i].serial == s);
                    assert(false);
                }
            }
        } else {
            assert(live == rest);
            if p.last().serial == s {
                if pending_has(rest, s) {
                    lemma_live_membership(dl, now, s);
                    let k = choose|k: int| 0 <= k < dl.len() && dl[k].serial == s;
                    assert(p[k].serial == p[p.len() - 1].serial);
                    assert(false);
                }
            } else {
                assert(exrest.contains(s)) by {
                    let i = choose|i: int| 0 <= i < ex.len() && ex[i] == s;
                    assert(ex == exrest.push(p.last().serial));
                    assert(i < exrest.len());
                    assert(exrest[i] == s);
                }
                lemma_timeout_wins(dl, now, s);
            }
        }
    }
}

fn unknown_object_name() -> (v: Vec<u8>)
    ensures
        v@ == name_unknown_object(),
{
    let v: Vec<u8> = vec![85u8, 110, 107, 110, 111, 119, 110, 79, 98, 106, 101, 99, 116];
    proof {
        assert(v@ =~= name_unknown_object());
    }
    v
}

fn unknown_interface_name() -> (v: Vec<u8>)
    ensures
        v@ == name_unknown_interface(),
{
    let v: Vec<u8> = vec![85u8, 110, 107, 110, 111, 119, 110, 73, 110, 116, 101, 114, 102, 97, 99, 101];
    proof {
        assert(v@ =~= name_unknown_interface());
    }
    v
}

fn unknown_method_name() -> (v: Vec<u8>)
    ensures
        v@ == name_unknown_method(),
{
    let v: Vec<u8> = vec![85u8, 110, 107, 110, 111, 119, 110, 77, 101, 116, 104, 111, 100];
    proof {
        assert(v@ =~= name_unknown_method());
    }
    v
}

fn invalid_args_name() -> (v: Vec<u8>)
    ensures
        v@ == name_invalid_args(),
{
    let v: Vec<u8> = vec![73u8, 110, 118, 97, 108, 105, 100, 65, 114, 103, 115];
    proof {
        assert(v@ =~= name_invalid_args());
    }
    v
}


/// The pending set, the out queue and the serial counter are as they
/// were.
pub open spec fn unchanged<H>(pre: Connection<H>, post: Connection<H>) -> bool {
    &&& post.out@ == pre.out@
    &&& post.pending@ == pre.pending@
    &&& post.next_serial == pre.next_serial
}

/// What one accepted frame did to the connection, by the decoded
/// message's kind. A method call leaves the pending set alone and
/// appends a routed block to the out queue; a signal changes nothing;
/// a reply resolves the one pending call with its serial, or is
/// discarded if none is tracked.
pub open spec fn frame_event_post<H>(
    pre: Connection<H>,
    post: Connection<H>,
    d: MessageV,
    ev: FrameEvent,
) -> bool {
    &&& d.kind == Kind::MethodCall ==> {
        &&& ev is CallDispatched
        &&& post.pending@ == pre.pending@
        &&& msg_views(post.out@).subrange(0, pre.out@.len() as int) == msg_views(pre.out@)
        &&& msg_views(post.out@).len() > pre.out@.len()
        &&& routed_ok(pre.registry.entries@, d, msg_views(post.out@).skip(pre.out@.len() as int))
    }
    &&& d.kind == Kind::Signal ==> {
        &&& ev matches FrameEvent::SignalReceived { msg } && msg@ == d
        &&& unchanged(pre, post)
    }
    &&& is_reply_kind(d.kind) ==> (d.reply_serial matches Some(rs) && {
        &&& pending_has(pre.pending@, rs) ==> {
            &&& ev matches FrameEvent::ReplyMatched { serial, msg } && serial == rs && msg@ == d
            &&& !pending_has(post.pending@, rs)
            &&& forall|s2: u64|
                s2 != rs ==> pending_has(post.pending@, s2) == pending_has(pre.pending@, s2)
            &&& post.pending@.len() + 1 == pre.pending@.len()
            &&& post.out@ == pre.out@
            &&& post.next_serial == pre.next_serial
        }
        &&& !pending_has(pre.pending@, rs) ==> {
            &&& ev is ReplyDropped
            &&& unchanged(pre, post)
        }
    })
}

impl<H: Handler> Connection<H> {
    /// Allocates a serial and queues a synthesized error reply with
    /// the given name and an empty body.
    fn push_synth_error(&mut self, reply_to: u64, dest: Option<Vec<u8>>, name: Vec<u8>)
        requires
            old(self).wf(),
            old(self).next_serial < u64::MAX,
        ensures
            final(self).wf(),
            final(self).next_serial == old(self).next_serial + 1,
            final(self).pending@ == old(self).pending@,
            final(self).registry == old(self).registry,
            msg_views(final(self).out@) == msg_views(old(self).out@).push(
                err_msg(
                    old(self).next_serial,
                    reply_to,
                    opt_bytes_view(dest),
                    name@,
                    Seq::empty(),
                ),
            ),
    {
        let serial: u64 = self.next_serial;
        self.next_serial = serial + 1;
        let m = Message {
            kind: Kind::Error,
            serial,
            no_reply: false,
            reply_serial: Some(reply_to),
            path: None,
            interface: None,
            member: None,
            destination: dest,
            sender: None,
            error_name: Some(name),
            body: Vec::new(),
        };
        let ghost mv = m@;
        self.out.push(m);
        proof {
            assert(args_view(Seq::<Argument>::empty()) =~= Seq::<ArgV>::empty());
            assert(mv =~= err_msg(serial, reply_to, opt_bytes_view(dest), name@, Seq::empty()));
            assert(msg_views(self.out@) =~= msg_views(old(self).out@).push(mv));
        }
    }

    /// Removes the pending call with this serial, if one is tracked.
    fn resolve_reply(&mut self, rs: u64) -> (found: bool)
        requires
            old(self).wf(),
        ensures
            final(self).wf(),
            final(self).next_serial == old(self).next_serial,
            final(self).out@ == old(self).out@,
            final(self).registry == old(self).registry,
            found == pending_has(old(self).pending@, rs),
            !found ==> final(self).pending@ == old(self).pending@,
            found ==> (!pending_has(final(self).pending@, rs) && (forall|s2: u64|
                s2 != rs ==> pending_has(final(self).pending@, s2) == pending_has(
                    old(self).pending@,
                    s2,
                )) && final(self).pending@.len() + 1 == old(self).pending@.len()),
    {
        let n: usize = self.pending.len();
        let mut i: usize = 0;
        while i < n
            invariant
                n == self.pending@.len(),
                i <= n,
                self.pending@ == old(self).pending@,
                self.next_serial == old(self).next_serial,
                self.out@ == old(self).out@,
                self.registry == old(self).registry,
                old(self).wf(),
                self.wf(),
                forall|j: int| 0 <= j < i ==> (#[trigger] self.pending@[j]).serial != rs,
            decreases n - i,
        {
            if self.pending[i].serial == rs {
                let ghost oldp = self.pending@;
                self.pending.remove(i);
                proof {
                    let newp = self.pending@;
                    assert(newp == oldp.remove(i as int));
                    assert(newp.len() + 1 == oldp.len());
                    assert(forall|j: int| 0 <= j < i ==> newp[j] == oldp[j]);
                    assert(forall|j: int| i <= j < newp.len() ==> newp[j] == oldp[j + 1]);
                    assert(pending_has(oldp, rs)) by {
                        assert(oldp[i as int].serial == rs);
                    }
                    assert(!pending_has(newp, rs)) by {
                        if pending_has(newp, rs) {
                            let j = choose|j: int|
                                0 <= j < newp.len() && newp[j].serial == rs;
                            if j < i {
                                assert(oldp[j].serial == rs);
                                assert(oldp[i as int].serial == rs);
                                assert(false);
                            } else {
                                assert(oldp[j + 1].serial == rs);
                                assert(oldp[i as int].serial == rs);
                                assert(false);
                            }
                        }
                    }
                    assert forall|s2: u64| s2 != rs implies pending_has(newp, s2) == pending_has(
                        oldp,
                        s2,
                    ) by {
                        if pending_has(oldp, s2) {
                            let j = choose|j: int|
                                0 <= j < oldp.len() && oldp[j].serial == s2;
                            assert(j != i);
                            if j < i {
                                assert(newp[j].serial == s2);
                            } else {
                                assert(newp[j - 1].serial == s2);
                            }
                            assert(pending_has(newp, s2));
                        }
                        if pending_has(newp, s2) {
                            let j = choose|j: int|
                                0 <= j < newp.len() && newp[j].serial == s2;
                            if j < i {
                                assert(oldp[j].serial == s2);
                            } else {
                                assert(oldp[j + 1].serial == s2);
                            }
                            assert(pending_has(oldp, s2));
                        }
                    }
                    assert forall|a: int, b: int| 0 <= a < b < newp.len() implies (
                    #[trigger] newp[a]).serial != (#[trigger] newp[b]).serial by {
                        if a < i && b < i {
                            assert(newp[a] == oldp[a] && newp[b] == oldp[b]);
                        } else if a < i {
                            assert(newp[a] == oldp[a] && newp[b] == oldp[b + 1]);
                        } else {
                            assert(newp[a] == oldp[a + 1] && newp[b] == oldp[b + 1]);
                        }
                    }
                    assert forall|a: int| 0 <= a < newp.len() implies (#[trigger] newp[a]).serial
                        < self.next_serial by {
                        if a < i {
                            assert(newp[a] == oldp[a]);
                        } else {
                            assert(newp[a] == oldp[a + 1]);
                        }
                    }
                }
                return true;
            }
            i = i + 1;
        }
        false
    }

    /// Routes one incoming method call: looks the triple up, checks
    /// the arguments, invokes the handler, and queues exactly one
    /// reply followed by the handler's signals.
    #[verifier::rlimit(100)]
    fn dispatch_call(&mut self, call: Message)
        requires
            old(self).wf(),
            old(self).next_serial < u64::MAX,
            call@.kind == Kind::MethodCall,
            call@.path is Some,
            call@.member is Some,
        ensures
            final(self).wf(),
            final(self).next_serial > old(self).next_serial,
            final(self).pending@ == old(self).pending@,
            final(self).registry == old(self).registry,
            msg_views(final(self).out@).subrange(0, old(self).out@.len() as int) == msg_views(
                old(self).out@,
            ),
            msg_views(final(self).out@).len() > old(self).out@.len(),
            routed_ok(
                old(self).registry.entries@,
                call@,
                msg_views(final(self).out@).skip(old(self).out@.len() as int),
            ),
    {
        let ghost reg = self.registry.entries@;
        let ghost callv = call@;
        let ghost base = msg_views(old(self).out@);
        let ghost base_len = old(self).out@.len() as int;
        let call_serial: u64 = call.serial;
        let Message { path, interface, member, sender, body, .. } = call;
        let p: Vec<u8> = match path {
            Some(p) => p,
            None => {
                proof {
                    assert(false);
                }
                return ;
            },
        };
        let mem: Vec<u8> = match member {
            Some(x) => x,
            None => {
                proof {
                    assert(false);
                }
                return ;
            },
        };
        proof {
            assert(callv.path.unwrap() == p@);
            assert(callv.member.unwrap() == mem@);
            assert(callv.interface == opt_bytes_view(interface));
            assert(callv.sender == opt_bytes_view(sender));
            assert(callv.body == args_view(body@));
            assert(callv.serial == call_serial);
        }
        let outcome = self.registry.lookup(&p, &interface, &mem);
        match outcome {
            LookupOutcome::NoObject => {
                let name = unknown_object_name();
                self.push_synth_error(call_serial, sender, name);
                proof {
                    let fin = msg_views(self.out@);
                    let e = err_msg(
                        old(self).next_serial,
                        call_serial,
                        opt_bytes_view(sender),
                        name_unknown_object(),
                        Seq::empty(),
                    );
                    assert(fin.subrange(0, base_len) =~= base);
                    assert(fin.skip(base_len) =~= seq![e]);
                    assert(!routed_to_handler(reg, callv)) by {
                        if reg_has_triple(
                            reg,
                            callv.path.unwrap(),
                            callv.interface,
                            callv.member.unwrap(),
                        ) {
                            let j = choose|j: int|
                                0 <= j < reg.len() && triple_matches(
                                    reg[j],
                                    callv.path.unwrap(),
                                    callv.interface,
                                    callv.member.unwrap(),
                                );
                            assert(reg[j].path@ == callv.path.unwrap());
                            assert(reg_has_path(reg, callv.path.unwrap()));
                            assert(false);
                        }
                    }
                    lemma_failure_block_routed(reg, callv, e);
                }
            },
            LookupOutcome::NoInterface => {
                let name = unknown_interface_name();
                self.push_synth_error(call_serial, sender, name);
                proof {
                    let fin = msg_views(self.out@);
                    let e = err_msg(
                        old(self).next_serial,
                        call_serial,
                        opt_bytes_view(sender),
                        name_unknown_interface(),
                        Seq::empty(),
                    );
                    assert(fin.subrange(0, base_len) =~= base);
                    assert(fin.skip(base_len) =~= seq![e]);
                    assert(!routed_to_handler(reg, callv)) by {
                        if reg_has_triple(
                            reg,
                            callv.path.unwrap(),
                            callv.interface,
                            callv.member.unwrap(),
                        ) {
                            let j = choose|j: int|
                                0 <= j < reg.len() && triple_matches(
                                    reg[j],
                                    callv.path.unwrap(),
                                    callv.interface,
                                    callv.member.unwrap(),
                                );
                            assert(reg[j].path@ == callv.path.unwrap() && Some(reg[j].interface@)
                                == callv.interface);
                            assert(reg_has_pair(reg, callv.path.unwrap(), callv.interface));
                            assert(false);
                        }
                    }
                    lemma_failure_block_routed(reg, callv, e);
                }
            },
            LookupOutcome::NoMethod => {
                let name = unknown_method_name();
                self.push_synth_error(call_serial, sender, name);
                proof {
                    let fin = msg_views(self.out@);
                    let e = err_msg(
                        old(self).next_serial,
                        call_serial,
                        opt_bytes_view(sender),
                        name_unknown_method(),
                        Seq::empty(),
                    );
                    assert(fin.subrange(0, base_len) =~= base);
                    assert(fin.skip(base_len) =~= seq![e]);
                    assert(!routed_to_handler(reg, callv));
                    lemma_failure_block_routed(reg, callv, e);
                }
            },
            LookupOutcome::Found(idx) => {
                let args_ok = check_args_match(&body, &self.registry.entries[idx].in_sig);
                if !args_ok {
                    let name = invalid_args_name();
                    self.push_synth_error(call_serial, sender, name);
                    proof {
                        let fin = msg_views(self.out@);
                        let e = err_msg(
                            old(self).next_serial,
                            call_serial,
                            opt_bytes_view(sender),
                            name_invalid_args(),
                            Seq::empty(),
                        );
                        assert(fin.subrange(0, base_len) =~= base);
                        assert(fin.skip(base_len) =~= seq![e]);
                        assert(!routed_to_handler(reg, callv)) by {
                            if routed_to_handler(reg, callv) {
                                assert(triple_matches(
                                    reg[idx as int],
                                    callv.path.unwrap(),
                                    callv.interface,
                                    callv.member.unwrap(),
                                ));
                                assert(args_match_sig(callv.body, reg[idx as int].in_sig@));
                                assert(false);
                            }
                        }
                        lemma_failure_block_routed(reg, callv, e);
                    }
                } else {
                    let req = request_of(p, interface, mem, body, call_serial);
                    let hr = self.registry.entries[idx].handler.handle(&req);
                    let ghost hrv = hr;
                    let rserial: u64 = self.next_serial;
                    let mut frames: Vec<Message> = build_reply_block(
                        hr,
                        call_serial,
                        sender,
                        rserial,
                    );
                    let ghost fv = frames@;
                    proof {
                        assert(fv.len() >= 1);
                        assert(fv.len() <= u64::MAX - rserial);
                    }
                    self.next_serial = rserial + (frames.len() as u64);
                    while frames.len() > 0
                        invariant
                            fv.len() >= 1,
                            frames@.len() <= fv.len(),
                            frames@ == fv.skip(fv.len() - frames@.len()),
                            base == msg_views(old(self).out@),
                            base_len == base.len(),
                            msg_views(self.out@) == base + msg_views(fv).subrange(
                                0,
                                fv.len() - frames@.len(),
                            ),
                            self.pending@ == old(self).pending@,
                            self.registry == old(self).registry,
                            self.next_serial > old(self).next_serial,
                            old(self).wf(),
                            self.wf(),
                        decreases frames@.len(),
                    {
                        let ghost donef = fv.len() - frames@.len();
                        let f = frames.remove(0);
                        proof {
                            assert(f == fv[donef]);
                            assert(frames@ =~= fv.skip(donef + 1));
                        }
                        let ghost pre = msg_views(self.out@);
                        self.out.push(f);
                        proof {
                            assert(msg_views(self.out@) =~= pre.push(f@));
                            assert(msg_views(fv).subrange(0, donef + 1) =~= msg_views(
                                fv,
                            ).subrange(0, donef).push(msg_views(fv)[donef]));
                            assert(msg_views(fv)[donef] == f@);
                            assert(base + msg_views(fv).subrange(0, donef) + seq![f@] =~= base
                                + msg_views(fv).subrange(0, donef + 1));
                        }
                    }
                    proof {
                        assert(msg_views(fv).subrange(0, fv.len() as int) =~= msg_views(fv));
                        assert(msg_views(self.out@) == base + msg_views(fv));
                        assert(msg_views(self.out@).subrange(0, base_len) =~= base);
                        assert(msg_views(self.out@).skip(base_len) =~= msg_views(fv));
                        let ap = msg_views(fv);
                        match hrv {
                            Ok(h) => {
                                assert(ap[0] == ret_msg(
                                    rserial,
                                    call_serial,
                                    opt_bytes_view(sender),
                                    args_view(h.out_args@),
                                ));
                            },
                            Err(he) => {
                                assert(ap[0] == err_msg(
                                    rserial,
                                    call_serial,
                                    opt_bytes_view(sender),
                                    he.name@,
                                    seq![ArgV::Str(he.message@)],
                                ));
                                assert(ap[0].body.len() == 1 && ap[0].body[0] is Str);
                            },
                        }
                        lemma_success_block_routed(reg, callv, ap, idx as int);
                    }
                }
            },
        }
    }

    /// Decodes one incoming frame and acts on it: a method call is
    /// routed and answered, a reply resolves or misses the pending
    /// set, a signal is surfaced, and an undecodable frame is
    /// reported without touching any state.
    pub fn handle_frame(&mut self, frame: &Vec<u8>) -> (r: Result<FrameEvent, DecodeError>)
        requires
            old(self).wf(),
            old(self).next_serial < u64::MAX,
        ensures
            final(self).wf(),
            final(self).registry == old(self).registry,
            match r {
                Err(e) => spec_decode(frame@) == Err::<MessageV, DecodeError>(e) && unchanged(
                    *old(self),
                    *final(self),
                ),
                Ok(ev) => (spec_decode(frame@) matches Ok(d) && frame_event_post(
                    *old(self),
                    *final(self),
                    d,
                    ev,
                )),
            },
    {
        let m: Message = match decode(frame) {
            Ok(m) => m,
            Err(e) => {
                return Err(e);
            },
        };
        match m.kind {
            Kind::Signal => Ok(FrameEvent::SignalReceived { msg: m }),
            Kind::MethodCall => {
                self.dispatch_call(m);
                Ok(FrameEvent::CallDispatched)
            },
            Kind::MethodReturn | Kind::Error => {
                let rs: u64 = match m.reply_serial {
                    Some(x) => x,
                    None => {
                        proof {
                            assert(false);
                        }
                        return Err(DecodeError::Malformed);
                    },
                };
                let found = self.resolve_reply(rs);
                if found {
                    Ok(FrameEvent::ReplyMatched { serial: rs, msg: m })
                } else {
                    Ok(FrameEvent::ReplyDropped)
                }
            },
        }
    }
}

/// The exact frames one handler outcome becomes. A success is a
/// method return carrying the handler's output arguments, followed by
/// the handler's signals in order, with consecutive serials starting
/// at `first_serial`; a handler error is one error frame carrying the
/// handler's error name and its message text as the single argument.
/// Handler errors are never escalated: the result is always reply
/// frames. A signal for which no serial remains below the largest one
/// is dropped, with the frames before it kept.
pub fn build_reply_block(
    hr: Result<HandlerReply, HandlerError>,
    call_serial: u64,
    dest: Option<Vec<u8>>,
    first_serial: u64,
) -> (frames: Vec<Message>)
    requires
        first_serial < u64::MAX,
    ensures
        hr matches Err(he) ==> (frames@.len() == 1 && msg_views(frames@)[0] == err_msg(
            first_serial,
            call_serial,
            opt_bytes_view(dest),
            he.name@,
            seq![ArgV::Str(he.message@)],
        )),
        hr matches Ok(h) ==> (frames@.len() == 1 + kept_signal_count(
            h.signals@.len() as int,
            first_serial,
        ) && msg_views(frames@)[0] == ret_msg(
            first_serial,
            call_serial,
            opt_bytes_view(dest),
            args_view(h.out_args@),
        ) && (forall|i: int|
            1 <= i < frames@.len() ==> msg_views(frames@)[i] == sig_msg(
                (first_serial + i) as u64,
                h.signals@[i - 1].path@,
                h.signals@[i - 1].interface@,
                h.signals@[i - 1].member@,
                args_view(h.signals@[i - 1].args@),
            ))),
        frames@.len() >= 1,
        frames@.len() <= u64::MAX - first_serial,
{
    let mut frames: Vec<Message> = Vec::new();
    match hr {
        Err(he) => {
            let HandlerError { name, message } = he;
            let ghost messagev = message@;
            let mut b: Vec<Argument> = Vec::new();
            b.push(Argument::Str(message));
            let reply = Message {
                kind: Kind::Error,
                serial: first_serial,
                no_reply: false,
                reply_serial: Some(call_serial),
                path: None,
                interface: None,
                member: None,
                destination: dest,
                sender: None,
                error_name: Some(name),
                body: b,
            };
            let ghost rv = reply@;
            frames.push(reply);
            proof {
                assert(msg_views(frames@) =~= seq![rv]);
                assert(args_view(seq![Argument::Str(message)]) =~= seq![ArgV::Str(messagev)]);
                assert(rv.body =~= seq![ArgV::Str(messagev)]);
            }
        },
        Ok(h) => {
            let HandlerReply { out_args, signals } = h;
            let reply = Message {
                kind: Kind::MethodReturn,
                serial: first_serial,
                no_reply: false,
                reply_serial: Some(call_serial),
                path: None,
                interface: None,
                member: None,
                destination: dest,
                sender: None,
                error_name: None,
                body: out_args,
            };
            let ghost rv = reply@;
            frames.push(reply);
            proof {
                assert(msg_views(frames@) =~= seq![rv]);
            }
            let mut sigs: Vec<SignalOut> = signals;
            let ghost sv = sigs@;
            let cap: u64 = u64::MAX - 1 - first_serial;
            while sigs.len() > 0 && (frames.len() as u64) <= cap
                invariant
                    first_serial < u64::MAX,
                    cap == u64::MAX - 1 - first_serial,
                    frames@.len() >= 1,
                    frames@.len() + sigs@.len() == 1 + sv.len(),
                    sigs@ == sv.skip(frames@.len() - 1),
                    msg_views(frames@)[0] == rv,
                    frames@.len() - 1 <= cap,
                    forall|i: int|
                        1 <= i < frames@.len() ==> msg_views(frames@)[i] == sig_msg(
                            (first_serial + i) as u64,
                            sv[i - 1].path@,
                            sv[i - 1].interface@,
                            sv[i - 1].member@,
                            args_view(sv[i - 1].args@),
                        ),
                decreases sigs@.len(),
            {
                let ghost flen = frames@.len() as int;
                let s0 = sigs.remove(0);
                proof {
                    assert(s0 == sv[flen - 1]);
                    assert(sigs@ =~= sv.skip(flen));
                }
                let ss: u64 = first_serial + (frames.len() as u64);
                let smsg = Message {
                    kind: Kind::Signal,
                    serial: ss,
                    no_reply: false,
                    reply_serial: None,
                    path: Some(s0.path),
                    interface: Some(s0.interface),
                    member: Some(s0.member),
                    destination: None,
                    sender: None,
                    error_name: None,
                    body: s0.args,
                };
                let ghost smv = smsg@;
                let ghost pre = msg_views(frames@);
                frames.push(smsg);
                proof {
                    assert(msg_views(frames@) =~= pre.push(smv));
                    assert(smv == sig_msg(
                        (first_serial + flen) as u64,
                        sv[flen - 1].path@,
                        sv[flen - 1].interface@,
                        sv[flen - 1].member@,
                        args_view(sv[flen - 1].args@),
                    ));
                }
            }
            proof {
                if sigs@.len() == 0 {
                    assert(frames@.len() - 1 == sv.len());
                    assert(kept_signal_count(sv.len() as int, first_serial) == sv.len() as int);
                } else {
                    assert((frames@.len() as u64) > cap);
                    assert(frames@.len() - 1 == cap);
                    assert(sv.len() > cap);
                    assert(kept_signal_count(sv.len() as int, first_serial) == cap as int);
                }
            }
        },
    }
    frames
}

/// A single synthesized error reply satisfies the routing contract
/// when it carries the name that matches where the lookup failed,
/// provided the call did not in fact reach a handler.
proof fn lemma_failure_block_routed<H>(reg: Seq<Entry<H>>, call: MessageV, e: MessageV)
    requires
        e.kind == Kind::Error,
        e.reply_serial == Some(call.serial),
        e.destination == call.sender,
        e.body == Seq::<ArgV>::empty(),
        !routed_to_handler(reg, call),
        !reg_has_path(reg, call.path.unwrap()) ==> e.error_name == Some(name_unknown_object()),
        reg_has_path(reg, call.path.unwrap()) && !reg_has_pair(
            reg,
            call.path.unwrap(),
            call.interface,
        ) ==> e.error_name == Some(name_unknown_interface()),
        reg_has_pair(reg, call.path.unwrap(), call.interface) && !reg_has_triple(
            reg,
            call.path.unwrap(),
            call.interface,
            call.member.unwrap(),
        ) ==> e.error_name == Some(name_unknown_method()),
        reg_has_triple(reg, call.path.unwrap(), call.interface, call.member.unwrap())
            ==> e.error_name == Some(name_invalid_args()),
    ensures
        routed_ok(reg, call, seq![e]),
{
    let appended = seq![e];
    assert(appended[0] == e);
    assert forall|j: int|
        0 <= j < reg.len() && triple_matches(
            #[trigger] reg[j],
            call.path.unwrap(),
            call.interface,
            call.member.unwrap(),
        ) && !args_match_sig(call.body, reg[j].in_sig@) implies appended.len() == 1
        && appended[0].kind == Kind::Error && appended[0].error_name == Some(name_invalid_args())
        && appended[0].body == Seq::<ArgV>::empty() by {
        assert(reg_has_triple(reg, call.path.unwrap(), call.interface, call.member.unwrap()));
    }
}

/// A reply built from the matched entry's handler result, followed by
/// signal frames only, satisfies the routing contract: a method
/// return, or a handler error whose body is the one message-text
/// argument, never a synthesized lookup failure.
proof fn lemma_success_block_routed<H>(
    reg: Seq<Entry<H>>,
    call: MessageV,
    appended: Seq<MessageV>,
    idx: int,
)
    requires
        reg_wf(reg),
        0 <= idx < reg.len(),
        triple_matches(reg[idx], call.path.unwrap(), call.interface, call.member.unwrap()),
        args_match_sig(call.body, reg[idx].in_sig@),
        appended.len() >= 1,
        appended[0].kind == Kind::MethodReturn || (appended[0].kind == Kind::Error
            && appended[0].body.len() == 1 && appended[0].body[0] is Str),
        appended[0].reply_serial == Some(call.serial),
        appended[0].destination == call.sender,
        forall|t: int|
            1 <= t < appended.len() ==> (#[trigger] appended[t]).kind == Kind::Signal
                && appended[t].reply_serial is None,
    ensures
        routed_ok(reg, call, appended),
{
    assert(reg_has_path(reg, call.path.unwrap())) by {
        assert(reg[idx].path@ == call.path.unwrap());
    }
    assert(reg_has_pair(reg, call.path.unwrap(), call.interface)) by {
        assert(reg[idx].path@ == call.path.unwrap() && Some(reg[idx].interface@)
            == call.interface);
    }
    assert(reg_has_triple(reg, call.path.unwrap(), call.interface, call.member.unwrap())) by {
        assert(triple_matches(reg[idx], call.path.unwrap(), call.interface, call.member.unwrap()));
    }
    assert forall|j: int|
        0 <= j < reg.len() && triple_matches(
            #[trigger] reg[j],
            call.path.unwrap(),
            call.interface,
            call.member.unwrap(),
        ) && !args_match_sig(call.body, reg[j].in_sig@) implies appended.len() == 1
        && appended[0].kind == Kind::Error && appended[0].error_name == Some(name_invalid_args())
        && appended[0].body == Seq::<ArgV>::empty() by {
        if j != idx {
            if j < idx {
                assert(!(reg[j].path@ == reg[idx].path@ && reg[j].interface@ == reg[idx].interface@
                    && reg[j].member@ == reg[idx].member@));
            } else {
                assert(!(reg[idx].path@ == reg[j].path@ && reg[idx].interface@ == reg[j].interface@
                    && reg[idx].member@ == reg[j].member@));
            }
            assert(false);
        } else {
            assert(false);
        }
    }
}

} // verus!
