//! The object tree: a registry mapping (path, interface, member) to a
//! handler with declared input and output signatures, and the exact
//! lookup the dispatcher routes by.

use vstd::prelude::*;
use crate::arg::{Argument, Tag};
use crate::bytes::bytes_eq;
use crate::path::{is_valid_path, valid_path};

verus! {

/// What a handler reports when it fails: an error name and a message
/// text, both sent back to the caller in an error frame.
#[derive(Clone, Debug)]
pub struct HandlerError {
    pub name: Vec<u8>,
    pub message: Vec<u8>,
}

/// A signal a handler wants emitted together with its reply.
#[derive(Clone, Debug)]
pub struct SignalOut {
    pub path: Vec<u8>,
    pub interface: Vec<u8>,
    pub member: Vec<u8>,
    pub args: Vec<Argument>,
}

/// A successful handler outcome: the reply's output arguments, then
/// any signals to send after the reply, in order.
#[derive(Clone, Debug)]
pub struct HandlerReply {
    pub out_args: Vec<Argument>,
    pub signals: Vec<SignalOut>,
}

/// What a handler sees of the call it serves.
#[derive(Clone, Debug)]
pub struct Request {
    pub path: Vec<u8>,
    pub interface: Option<Vec<u8>>,
    pub member: Vec<u8>,
    pub args: Vec<Argument>,
    pub serial: u64,
}

/// A method handler. The host application implements this for the
/// objects it exposes; the dispatcher calls it only after the call's
/// arguments matched the registered input signature. A handler that
/// keeps state does so behind interior mutability of its own.
pub trait Handler {
    fn handle(&self, req: &Request) -> Result<HandlerReply, HandlerError>;
}

/// The request a routed call hands to its handler: exactly the
/// call's object path, interface, member, arguments and serial,
/// nothing added and nothing withheld. The dispatcher builds it only
/// after the arguments matched the registered input signature.
pub fn request_of(
    path: Vec<u8>,
    interface: Option<Vec<u8>>,
    member: Vec<u8>,
    args: Vec<Argument>,
    serial: u64,
) -> (r: Request)
    ensures
        r.path == path,
        r.interface == interface,
        r.member == member,
        r.args == args,
        r.serial == serial,
{
    Request { path, interface, member, args, serial }
}

/// One registration: a (path, interface, member) triple, the declared
/// signatures, and the handler that serves it.
pub struct Entry<H> {
    pub path: Vec<u8>,
    pub interface: Vec<u8>,
    pub member: Vec<u8>,
    pub in_sig: Vec<Tag>,
    pub out_sig: Vec<Tag>,
    pub handler: H,
}

/// The object tree, built at startup and immutable thereafter.
pub struct Registry<H> {
    pub entries: Vec<Entry<H>>,
}

pub open spec fn reg_has_path<H>(r: Seq<Entry<H>>, path: Seq<u8>) -> bool {
    exists|i: int| 0 <= i < r.len() && (#[trigger] r[i]).path@ == path
}

pub open spec fn reg_has_pair<H>(r: Seq<Entry<H>>, path: Seq<u8>, iface: Option<Seq<u8>>) -> bool {
    exists|i: int|
        0 <= i < r.len() && (#[trigger] r[i]).path@ == path && Some(r[i].interface@) == iface
}

pub open spec fn triple_matches<H>(
    e: Entry<H>,
    path: Seq<u8>,
    iface: Option<Seq<u8>>,
    member: Seq<u8>,
) -> bool {
    e.path@ == path && Some(e.interface@) == iface && e.member@ == member
}

pub open spec fn reg_has_triple<H>(
    r: Seq<Entry<H>>,
    path: Seq<u8>,
    iface: Option<Seq<u8>>,
    member: Seq<u8>,
) -> bool {
    exists|i: int| 0 <= i < r.len() && triple_matches(#[trigger] r[i], path, iface, member)
}

/// A well-formed registry: every path valid, no triple registered
/// twice.
pub open spec fn reg_wf<H>(r: Seq<Entry<H>>) -> bool {
    &&& forall|i: int| 0 <= i < r.len() ==> valid_path((#[trigger] r[i]).path@)
    &&& forall|i: int, j: int|
        0 <= i < j < r.len() ==> !((#[trigger] r[i]).path@ == (#[trigger] r[j]).path@
            && r[i].interface@ == r[j].interface@ && r[i].member@ == r[j].member@)
}

/// Why a registration was refused.
#[derive(Clone, Copy, PartialEq, Eq, Structural, Debug)]
pub enum RegisterError {
    /// The object path breaks the path validity rule.
    InvalidPath,
    /// The (path, interface, member) triple is already registered.
    DuplicateEntry,
}

/// Where a lookup of a call's (path, interface, member) failed, or the
/// index of the entry it found.
#[derive(Clone, Copy, PartialEq, Eq, Structural, Debug)]
pub enum LookupOutcome {
    NoObject,
    NoInterface,
    NoMethod,
    Found(usize),
}

impl<H> Registry<H> {
    /// An empty object tree.
    pub fn new() -> (r: Registry<H>)
        ensures
            r.entries@ =~= Seq::<Entry<H>>::empty(),
            reg_wf(r.entries@),
    {
        Registry { entries: Vec::new() }
    }

    /// Registers an entry. Rejects an invalid object path and a
    /// duplicate (path, interface, member) triple; otherwise appends.
    pub fn register(&mut self, e: Entry<H>) -> (r: Result<(), RegisterError>)
        requires
            reg_wf(old(self).entries@),
        ensures
            reg_wf(final(self).entries@),
            !valid_path(e.path@) ==> (r == Err::<(), RegisterError>(RegisterError::InvalidPath)
                && final(self).entries@ == old(self).entries@),
            valid_path(e.path@) && reg_has_triple(
                old(self).entries@,
                e.path@,
                Some(e.interface@),
                e.member@,
            ) ==> (r == Err::<(), RegisterError>(RegisterError::DuplicateEntry)
                && final(self).entries@ == old(self).entries@),
            valid_path(e.path@) && !reg_has_triple(
                old(self).entries@,
                e.path@,
                Some(e.interface@),
                e.member@,
            ) ==> (r == Ok::<(), RegisterError>(())
                && final(self).entries@ == old(self).entries@.push(e)),
    {
        if !is_valid_path(&e.path) {
            return Err(RegisterError::InvalidPath);
        }
        let n: usize = self.entries.len();
        let mut i: usize = 0;
        while i < n
            invariant
                n == self.entries@.len(),
                i <= n,
                self.entries@ == old(self).entries@,
                reg_wf(self.entries@),
                valid_path(e.path@),
                forall|j: int|
                    0 <= j < i ==> !triple_matches(
                        #[trigger] self.entries@[j],
                        e.path@,
                        Some(e.interface@),
                        e.member@,
                    ),
            decreases n - i,
        {
            let same = bytes_eq(&self.entries[i].path, &e.path) && bytes_eq(
                &self.entries[i].interface,
                &e.interface,
            ) && bytes_eq(&self.entries[i].member, &e.member);
            if same {
                return Err(RegisterError::DuplicateEntry);
            }
            i = i + 1;
        }
        self.entries.push(e);
        proof {
            let r = self.entries@;
            assert(forall|k: int| 0 <= k < r.len() - 1 ==> r[k] == old(self).entries@[k]);
        }
        Ok(())
    }

    /// Looks a call's addressing triple up, reporting which part of
    /// the lookup failed, exactly as the error taxonomy distinguishes.
    pub fn lookup(&self, path: &Vec<u8>, iface: &Option<Vec<u8>>, member: &Vec<u8>) -> (r:
        LookupOutcome)
        ensures
            (r == LookupOutcome::NoObject) == !reg_has_path(self.entries@, path@),
            (r == LookupOutcome::NoInterface) == (reg_has_path(self.entries@, path@)
                && !reg_has_pair(self.entries@, path@, crate::msg::opt_bytes_view(*iface))),
            (r == LookupOutcome::NoMethod) == (reg_has_pair(
                self.entries@,
                path@,
                crate::msg::opt_bytes_view(*iface),
            ) && !reg_has_triple(
                self.entries@,
                path@,
                crate::msg::opt_bytes_view(*iface),
                member@,
            )),
            r matches LookupOutcome::Found(i) ==> 0 <= i < self.entries@.len()
                && triple_matches(
                self.entries@[i as int],
                path@,
                crate::msg::opt_bytes_view(*iface),
                member@,
            ),
            (r matches LookupOutcome::Found(_)) == reg_has_triple(
                self.entries@,
                path@,
                crate::msg::opt_bytes_view(*iface),
                member@,
            ),
    {
        let ghost ifv = crate::msg::opt_bytes_view(*iface);
        let n: usize = self.entries.len();
        let mut found_path: bool = false;
        let mut found_pair: bool = false;
        let mut i: usize = 0;
        while i < n
            invariant
                n == self.entries@.len(),
                i <= n,
                ifv == crate::msg::opt_bytes_view(*iface),
                found_path ==> reg_has_path(self.entries@, path@),
                !found_path ==> forall|j: int|
                    0 <= j < i ==> (#[trigger] self.entries@[j]).path@ != path@,
                found_pair ==> reg_has_pair(self.entries@, path@, ifv),
                !found_pair ==> forall|j: int|
                    0 <= j < i ==> !((#[trigger] self.entries@[j]).path@ == path@ && Some(
                        self.entries@[j].interface@,
                    ) == ifv),
                forall|j: int|
                    0 <= j < i ==> !triple_matches(#[trigger] self.entries@[j], path@, ifv, member@),
            decreases n - i,
        {
            let pmatch: bool = bytes_eq(&self.entries[i].path, path);
            let imatch: bool = match iface {
                Some(f) => {
                    proof {
                        assert(ifv == Some(f@));
                    }
                    bytes_eq(&self.entries[i].interface, f)
                },
                None => {
                    proof {
                        assert(ifv is None);
                    }
                    false
                },
            };
            let mmatch: bool = bytes_eq(&self.entries[i].member, member);
            proof {
                assert(imatch == (Some(self.entries@[i as int].interface@) == ifv));
            }
            if pmatch {
                found_path = true;
                proof {
                    assert((self.entries@[i as int]).path@ == path@);
                }
            }
            if pmatch && imatch {
                found_pair = true;
            }
            if pmatch && imatch && mmatch {
                proof {
                    assert(triple_matches(self.entries@[i as int], path@, ifv, member@));
                }
                return LookupOutcome::Found(i);
            }
            i = i + 1;
        }
        if !found_path {
            return LookupOutcome::NoObject;
        }
        if !found_pair {
            return LookupOutcome::NoInterface;
        }
        LookupOutcome::NoMethod
    }
}

} // verus!
