//! The bus-side name table: which connection owns each well-known
//! name, and the four-way outcome of a registration request.

use vstd::prelude::*;
use crate::bytes::bytes_eq;

verus! {

/// The flags a connection sends with a name request.
#[derive(Clone, Copy, PartialEq, Eq, Structural, Debug)]
pub struct NameFlags {
    /// The requester, once owner, lets a later requester replace it.
    pub allow_replacement: bool,
    /// The requester wants to replace a willing current owner.
    pub replace_existing: bool,
    /// The requester refuses to wait in the queue.
    pub do_not_queue: bool,
}

/// The four distinct outcomes of a name request, never merged.
#[derive(Clone, Copy, PartialEq, Eq, Structural, Debug)]
pub enum NameOutcome {
    /// The requester now owns the name.
    Owner,
    /// The requester already owned the name.
    AlreadyOwned,
    /// Another connection keeps the name; the requester waits.
    InQueue,
    /// Another connection keeps the name and the requester would not
    /// wait.
    Denied,
}

/// One well-known name: its owner, whether the owner allows
/// replacement, and the connections waiting for it in order.
pub struct NameEntry {
    pub name: Vec<u8>,
    pub owner: u64,
    pub allow_replacement: bool,
    pub queue: Vec<u64>,
}

/// Mathematical model of a name entry.
#[verifier::ext_equal]
pub struct NameEntryV {
    pub name: Seq<u8>,
    pub owner: u64,
    pub allow_replacement: bool,
    pub queue: Seq<u64>,
}

impl View for NameEntry {
    type V = NameEntryV;

    open spec fn view(&self) -> NameEntryV {
        NameEntryV {
            name: self.name@,
            owner: self.owner,
            allow_replacement: self.allow_replacement,
            queue: self.queue@,
        }
    }
}

pub open spec fn table_views(t: Seq<NameEntry>) -> Seq<NameEntryV> {
    t.map_values(|e: NameEntry| e@)
}

pub open spec fn table_has(t: Seq<NameEntry>, n: Seq<u8>) -> bool {
    exists|i: int| 0 <= i < t.len() && (#[trigger] t[i]).name@ == n
}

/// Each name appears at most once.
pub open spec fn table_wf(t: Seq<NameEntry>) -> bool {
    forall|i: int, j: int|
        0 <= i < j < t.len() ==> (#[trigger] t[i]).name@ != (#[trigger] t[j]).name@
}

/// The bus's registry of well-known names.
pub struct NameTable {
    pub entries: Vec<NameEntry>,
}

impl NameTable {
    /// An empty name table.
    pub fn new() -> (t: NameTable)
        ensures
            t.entries@ =~= Seq::<NameEntry>::empty(),
            table_wf(t.entries@),
    {
        NameTable { entries: Vec::new() }
    }

    /// Requests a well-known name for connection `conn`. An unowned
    /// name is granted. A name the requester already owns refreshes
    /// its replacement flag. A name owned by a willing other owner is
    /// taken over when the requester asks to replace it. Otherwise
    /// the requester is denied when it refuses to queue, and queued
    /// when it accepts: denial and ownership are never confused.
    pub fn request_name(&mut self, conn: u64, name: Vec<u8>, flags: NameFlags) -> (r: NameOutcome)
        requires
            table_wf(old(self).entries@),
        ensures
            table_wf(final(self).entries@),
            !table_has(old(self).entries@, name@) ==> (r == NameOutcome::Owner && table_views(
                final(self).entries@,
            ) == table_views(old(self).entries@).push(
                NameEntryV {
                    name: name@,
                    owner: conn,
                    allow_replacement: flags.allow_replacement,
                    queue: Seq::empty(),
                },
            )),
            forall|i: int|
                0 <= i < old(self).entries@.len() && (#[trigger] old(self).entries@[i]).name@
                    == name@ ==> request_outcome_at(
                    old(self).entries@,
                    final(self).entries@,
                    i,
                    conn,
                    flags,
                    r,
                ),
    {
        let n: usize = self.entries.len();
        let mut i: usize = 0;
        while i < n
            invariant
                n == self.entries@.len(),
                i <= n,
                self.entries@ == old(self).entries@,
                table_wf(self.entries@),
                forall|j: int| 0 <= j < i ==> (#[trigger] self.entries@[j]).name@ != name@,
            decreases n - i,
        {
            if bytes_eq(&self.entries[i].name, &name) {
                let ghost oldt = self.entries@;
                let e: NameEntry = self.entries.remove(i);
                let ghost ev = e@;
                let outcome: NameOutcome;
                let e2: NameEntry;
                if e.owner == conn {
                    outcome = NameOutcome::AlreadyOwned;
                    e2 = NameEntry {
                        allow_replacement: flags.allow_replacement,
                        ..e
                    };
                } else if e.allow_replacement && flags.replace_existing {
                    outcome = NameOutcome::Owner;
                    e2 = NameEntry {
                        owner: conn,
                        allow_replacement: flags.allow_replacement,
                        ..e
                    };
                } else if flags.do_not_queue {
                    outcome = NameOutcome::Denied;
                    e2 = e;
                } else {
                    outcome = NameOutcome::InQueue;
                    let NameEntry { name: ename, owner, allow_replacement, mut queue } = e;
                    queue.push(conn);
                    e2 = NameEntry { name: ename, owner, allow_replacement, queue };
                }
                let ghost e2v = e2@;
                self.entries.insert(i, e2);
                proof {
                    let newt = self.entries@;
                    assert(newt =~= oldt.update(i as int, e2));
                    assert(table_views(newt) =~= table_views(oldt).update(i as int, e2v));
                    assert(table_wf(newt)) by {
                        assert(forall|k: int|
                            0 <= k < newt.len() && k != i ==> newt[k] == oldt[k]);
                        assert(newt[i as int].name@ == oldt[i as int].name@);
                    }
                    let e0 = oldt[i as int]@;
                    assert(ev == e0);
                    if e0.owner == conn {
                        assert(e2v =~= (NameEntryV {
                            allow_replacement: flags.allow_replacement,
                            ..e0
                        }));
                    } else if e0.allow_replacement && flags.replace_existing {
                        assert(e2v =~= (NameEntryV {
                            owner: conn,
                            allow_replacement: flags.allow_replacement,
                            ..e0
                        }));
                    } else if flags.do_not_queue {
                        assert(e2v == e0);
                        assert(table_views(oldt).update(i as int, e2v) =~= table_views(oldt));
                    } else {
                        assert(e2v =~= (NameEntryV { queue: e0.queue.push(conn), ..e0 }));
                    }
                    assert forall|j: int|
                        0 <= j < oldt.len() && (#[trigger] oldt[j]).name@
                            == name@ implies request_outcome_at(
                        oldt,
                        newt,
                        j,
                        conn,
                        flags,
                        outcome,
                    ) by {
                        assert(oldt[i as int].name@ == name@);
                        if j != i {
                            assert(false);
                        }
                    }
                }
                return outcome;
            }
            i = i + 1;
        }
        let ghost oldt = self.entries@;
        let e = NameEntry {
            name,
            owner: conn,
            allow_replacement: flags.allow_replacement,
            queue: Vec::new(),
        };
        let ghost ev = e@;
        self.entries.push(e);
        proof {
            assert(table_views(self.entries@) =~= table_views(oldt).push(ev));
            assert(ev =~= (NameEntryV {
                name: ev.name,
                owner: conn,
                allow_replacement: flags.allow_replacement,
                queue: Seq::empty(),
            }));
            assert(table_wf(self.entries@)) by {
                assert(forall|k: int|
                    0 <= k < oldt.len() ==> self.entries@[k] == oldt[k]);
            }
        }
        NameOutcome::Owner
    }
}

/// The outcome and the table change when entry `i` holds the
/// requested name: refreshed when already owned, taken over when the
/// owner allows replacement and the requester asks for it, denied
/// when the requester will not queue, queued otherwise.
pub open spec fn request_outcome_at(
    oldt: Seq<NameEntry>,
    newt: Seq<NameEntry>,
    i: int,
    conn: u64,
    flags: NameFlags,
    r: NameOutcome,
) -> bool {
    let e = oldt[i]@;
    &&& e.owner == conn ==> (r == NameOutcome::AlreadyOwned && table_views(newt) == table_views(
        oldt,
    ).update(i, NameEntryV { allow_replacement: flags.allow_replacement, ..e }))
    &&& e.owner != conn && e.allow_replacement && flags.replace_existing ==> (r
        == NameOutcome::Owner && table_views(newt) == table_views(oldt).update(
        i,
        NameEntryV { owner: conn, allow_replacement: flags.allow_replacement, ..e },
    ))
    &&& e.owner != conn && !(e.allow_replacement && flags.replace_existing) && flags.do_not_queue
        ==> (r == NameOutcome::Denied && table_views(newt) == table_views(oldt))
    &&& e.owner != conn && !(e.allow_replacement && flags.replace_existing) && !flags.do_not_queue
        ==> (r == NameOutcome::InQueue && table_views(newt) == table_views(oldt).update(
        i,
        NameEntryV { queue: e.queue.push(conn), ..e },
    ))
}

} // verus!
