//! Server eligibility, dispatch planning and reply correlation.
//!
//! A request is fanned out to every server that declared the capability and,
//! when the caller named a server, can serve from that server's project root.
//! Each fan-out registers one correlation entry that tracks the full set of
//! servers expected to reply; the continuation runs exactly once, when every
//! expected server has replied or had its transport torn down, and its results
//! keep the eligibility-scan order whatever the arrival order was.

use vstd::prelude::*;
use vstd::string::*;
use crate::types::{Capability, ServerSettings};

verus! {

/// Whether the server declared the capability at startup.
pub open spec fn declares(s: ServerSettings, cap: Capability) -> bool {
    s.capabilities@.contains(cap)
}

/// An explicit server choice by the caller: the name and the project root it
/// was configured with.
pub struct TargetServer {
    pub name: String,
    pub root: String,
}

/// Whether a server can serve a request aimed at the named server: same name,
/// started for the same project root.
pub open spec fn can_serve(s: ServerSettings, name: Seq<char>, root: Seq<char>) -> bool {
    s.name@ == name && s.root@ == root
}

/// The eligibility rule: capability declared, and — only when the caller named
/// a server — reachable from that server's root.
pub open spec fn is_eligible(
    s: ServerSettings,
    cap: Capability,
    target: Option<TargetServer>,
) -> bool {
    declares(s, cap) && match target {
        None => true,
        Some(t) => can_serve(s, t.name@, t.root@),
    }
}

/// Indices of the eligible servers among the first `n`, in enumeration order.
pub open spec fn eligible_upto(
    servers: Seq<ServerSettings>,
    cap: Capability,
    target: Option<TargetServer>,
    n: int,
) -> Seq<usize>
    decreases n,
{
    if n <= 0 {
        Seq::empty()
    } else {
        let pre = eligible_upto(servers, cap, target, n - 1);
        if is_eligible(servers[n - 1], cap, target) {
            pre.push((n - 1) as usize)
        } else {
            pre
        }
    }
}

/// Indices of all eligible servers, in enumeration order.
pub open spec fn eligible_idx(
    servers: Seq<ServerSettings>,
    cap: Capability,
    target: Option<TargetServer>,
) -> Seq<usize> {
    eligible_upto(servers, cap, target, servers.len() as int)
}

fn declares_exec(s: &ServerSettings, cap: Capability) -> (r: bool)
    ensures
        r == declares(*s, cap),
{
    let mut i: usize = 0;
    while i < s.capabilities.len()
        invariant
            i <= s.capabilities@.len(),
            forall|j: int| 0 <= j < i ==> s.capabilities@[j] != cap,
        decreases s.capabilities@.len() - i,
    {
        if s.capabilities[i] == cap {
            return true;
        }
        i = i + 1;
    }
    false
}

fn is_eligible_exec(s: &ServerSettings, cap: Capability, target: &Option<TargetServer>) -> (r:
    bool)
    ensures
        r == is_eligible(*s, cap, *target),
{
    if !declares_exec(s, cap) {
        return false;
    }
    match target {
        None => true,
        Some(t) => s.name == t.name && s.root == t.root,
    }
}

/// Enumerate the servers eligible for `cap`, keeping their enumeration order.
pub fn eligible_servers(
    servers: &Vec<ServerSettings>,
    cap: Capability,
    target: &Option<TargetServer>,
) -> (r: Vec<usize>)
    ensures
        r@ == eligible_idx(servers@, cap, *target),
{
    let mut r: Vec<usize> = Vec::new();
    let mut i: usize = 0;
    while i < servers.len()
        invariant
            i <= servers@.len(),
            r@ == eligible_upto(servers@, cap, *target, i as int),
        decreases servers@.len() - i,
    {
        if is_eligible_exec(&servers[i], cap, target) {
            r.push(i);
        }
        i = i + 1;
    }
    r
}

/// What one dispatch decides, before any message leaves the process.
pub enum DispatchPlan {
    /// No eligible server: the caller's completion path runs at once; `ack`
    /// says whether a blocked caller must still be released by an explicit
    /// no-op acknowledgment.
    Released { ack: bool },
    /// Several servers could serve an exclusive feature: the caller must pick
    /// one instead of an automatic fan-out.
    Menu { choices: Vec<usize> },
    /// Fan the request out to every listed server under one correlation id.
    Fan { targets: Vec<usize>, correlation_id: u64 },
}

/// Decide how to dispatch: a no-op for an empty eligible set (the caller is
/// always released, never left hanging), a menu when an exclusive feature has
/// several candidates, otherwise a fan-out to all eligible servers.
pub fn plan_dispatch(
    servers: &Vec<ServerSettings>,
    cap: Capability,
    target: &Option<TargetServer>,
    exclusive: bool,
    blocking: bool,
    fresh_id: u64,
) -> (r: DispatchPlan)
    ensures
        ({
            let elig = eligible_idx(servers@, cap, *target);
            &&& (elig.len() == 0) ==> (r matches DispatchPlan::Released { ack } && ack == blocking)
            &&& (elig.len() > 1 && exclusive) ==> (r matches DispatchPlan::Menu { choices }
                && choices@ == elig)
            &&& (elig.len() == 1 || (elig.len() > 1 && !exclusive)) ==> (
            r matches DispatchPlan::Fan { targets, correlation_id } && targets@ == elig
                && correlation_id == fresh_id)
        }),
{
    let elig = eligible_servers(servers, cap, target);
    if elig.len() == 0 {
        DispatchPlan::Released { ack: blocking }
    } else if elig.len() > 1 && exclusive {
        DispatchPlan::Menu { choices: elig }
    } else {
        DispatchPlan::Fan { targets: elig, correlation_id: fresh_id }
    }
}

/// How one expected server's slot in a correlation entry stands.
pub enum ReplyState {
    /// No reply yet, transport still up.
    Waiting,
    /// The transport was torn down first: an absent result.
    Absent,
    /// The reply body.
    Arrived(String),
}

/// One correlation entry: a request id, the servers expected to reply in
/// eligibility-scan order, and one slot per expected server.
pub struct PendingEntry {
    pub id: u64,
    pub expected: Vec<u64>,
    pub outcomes: Vec<ReplyState>,
}

pub open spec fn entry_wf(e: PendingEntry) -> bool {
    &&& e.expected@.len() == e.outcomes@.len()
    &&& e.expected@.len() > 0
    &&& forall|i: int, j: int| 0 <= i < j < e.expected@.len() ==> e.expected@[i] != e.expected@[j]
}

/// Every expected server has replied or been resolved absent.
pub open spec fn entry_complete(e: PendingEntry) -> bool {
    forall|i: int| 0 <= i < e.outcomes@.len() ==> !(#[trigger] e.outcomes@[i] is Waiting)
}

/// The slot of `server` in the entry, if it is expected at all; unique by
/// well-formedness.
pub open spec fn slot_of(e: PendingEntry, server: u64) -> Option<int> {
    if exists|j: int| 0 <= j < e.expected@.len() && e.expected@[j] == server {
        Some(choose|j: int| 0 <= j < e.expected@.len() && e.expected@[j] == server)
    } else {
        None
    }
}

pub open spec fn has_id(t: Seq<PendingEntry>, id: u64) -> bool {
    exists|k: int| 0 <= k < t.len() && (#[trigger] t[k]).id == id
}

/// The ordered results a completed entry hands to its continuation: one pair
/// per expected server, in the order of the eligibility scan; a server that
/// never replied contributes `None`.
pub open spec fn results_match(r: Seq<(u64, Option<String>)>, e: PendingEntry) -> bool {
    &&& r.len() == e.expected@.len()
    &&& forall|i: int|
        0 <= i < r.len() ==> (#[trigger] r[i]).0 == e.expected@[i] && (match e.outcomes@[i] {
            ReplyState::Arrived(s) => r[i].1 matches Some(p) && p@ == s@,
            _ => r[i].1 is None,
        })
}

/// `e2` is `e` with slot `j` alone resolved to `v`, everything else untouched.
pub open spec fn entry_with_slot(e: PendingEntry, e2: PendingEntry, j: int, v: ReplyState) -> bool {
    &&& e2.id == e.id
    &&& e2.expected@ == e.expected@
    &&& e2.outcomes@ == e.outcomes@.update(j, v)
}

/// The effect of recording a reply from `server` on the entry at `k`: the one
/// slot is filled, the entry leaves the table exactly when it thereby
/// completes, and only then does the continuation get its ordered results.
pub open spec fn record_effect(
    oe: Seq<PendingEntry>,
    ne: Seq<PendingEntry>,
    k: int,
    server: u64,
    payload: Seq<char>,
    done: Option<Vec<(u64, Option<String>)>>,
) -> bool {
    let e = oe[k];
    match slot_of(e, server) {
        // A reply from a server that was never expected is ignored.
        None => ne == oe && done is None,
        Some(j) => if !(e.outcomes@[j] is Waiting) {
            // A slot already resolved stays as it is.
            ne == oe && done is None
        } else if forall|i: int|
            0 <= i < e.outcomes@.len() && i != j ==> !(#[trigger] e.outcomes@[i] is Waiting) {
            // The last awaited reply: the entry completes and leaves the
            // table, and the results keep the expected-server order.
            &&& ne == oe.remove(k)
            &&& done matches Some(res) && res@.len() == e.expected@.len() && (forall|i: int|
                0 <= i < res@.len() ==> (#[trigger] res@[i]).0 == e.expected@[i] && (if i == j {
                    res@[i].1 matches Some(p) && p@ == payload
                } else {
                    match e.outcomes@[i] {
                        ReplyState::Arrived(s) => res@[i].1 matches Some(p) && p@ == s@,
                        _ => res@[i].1 is None,
                    }
                }))
        } else {
            // Still waiting on someone else: only the one slot is filled.
            &&& ne.len() == oe.len()
            &&& forall|i: int| 0 <= i < oe.len() && i != k ==> ne[i] == oe[i]
            &&& ne[k].id == e.id
            &&& ne[k].expected@ == e.expected@
            &&& ne[k].outcomes@.len() == e.outcomes@.len()
            &&& forall|i: int|
                0 <= i < e.outcomes@.len() && i != j ==> ne[k].outcomes@[i] == e.outcomes@[i]
            &&& ne[k].outcomes@[j] matches ReplyState::Arrived(p) && p@ == payload
            &&& done is None
        },
    }
}

fn find_entry_idx(entries: &Vec<PendingEntry>, id: u64) -> (r: Option<usize>)
    ensures
        match r {
            Some(k) => k < entries@.len() && entries@[k as int].id == id,
            None => !has_id(entries@, id),
        },
{
    let mut k: usize = 0;
    while k < entries.len()
        invariant
            k <= entries@.len(),
            forall|j: int| 0 <= j < k ==> (#[trigger] entries@[j]).id != id,
        decreases entries@.len() - k,
    {
        if entries[k].id == id {
            return Some(k);
        }
        k = k + 1;
    }
    None
}

fn find_slot(expected: &Vec<u64>, server: u64) -> (r: Option<usize>)
    ensures
        match r {
            Some(j) => j < expected@.len() && expected@[j as int] == server,
            None => forall|i: int| 0 <= i < expected@.len() ==> expected@[i] != server,
        },
{
    let mut j: usize = 0;
    while j < expected.len()
        invariant
            j <= expected@.len(),
            forall|i: int| 0 <= i < j ==> expected@[i] != server,
        decreases expected@.len() - j,
    {
        if expected[j] == server {
            return Some(j);
        }
        j = j + 1;
    }
    None
}

/// Whether every slot of the entry is resolved.
fn entry_complete_exec(e: &PendingEntry) -> (r: bool)
    ensures
        r == entry_complete(*e),
{
    let mut i: usize = 0;
    let mut all_done = true;
    let n = e.outcomes.len();
    while i < n
        invariant
            i <= n,
            n == e.outcomes@.len(),
            all_done == forall|x: int| 0 <= x < i ==> !(#[trigger] e.outcomes@[x] is Waiting),
        decreases n - i,
    {
        let w = match &e.outcomes[i] {
            ReplyState::Waiting => true,
            _ => false,
        };
        if w {
            all_done = false;
        }
        i = i + 1;
    }
    all_done
}

fn clone_string(s: &String) -> (r: String)
    ensures
        r@ == s@,
{
    let mut r = String::new();
    r.append(s.as_str());
    r
}

/// The ordered results of an entry, one per expected server.
fn entry_results(e: &PendingEntry) -> (r: Vec<(u64, Option<String>)>)
    requires
        e.expected@.len() == e.outcomes@.len(),
    ensures
        results_match(r@, *e),
{
    let mut r: Vec<(u64, Option<String>)> = Vec::new();
    let mut i: usize = 0;
    let n = e.expected.len();
    while i < n
        invariant
            i <= n,
            n == e.expected@.len(),
            e.outcomes@.len() == n,
            r@.len() == i,
            forall|x: int|
                0 <= x < i ==> (#[trigger] r@[x]).0 == e.expected@[x] && (match e.outcomes@[x] {
                    ReplyState::Arrived(s) => r@[x].1 matches Some(p) && p@ == s@,
                    _ => r@[x].1 is None,
                }),
        decreases n - i,
    {
        let v: Option<String> = match &e.outcomes[i] {
            ReplyState::Arrived(s) => Some(clone_string(s)),
            _ => None,
        };
        r.push((e.expected[i], v));
        i = i + 1;
    }
    r
}

/// The entries among the first `n` that are not yet complete, in order.
pub open spec fn incomplete_upto(t: Seq<PendingEntry>, n: int) -> Seq<PendingEntry>
    decreases n,
{
    if n <= 0 {
        Seq::empty()
    } else {
        let pre = incomplete_upto(t, n - 1);
        if entry_complete(t[n - 1]) {
            pre
        } else {
            pre.push(t[n - 1])
        }
    }
}

/// The entries among the first `n` that are complete, in order.
pub open spec fn completed_upto(t: Seq<PendingEntry>, n: int) -> Seq<PendingEntry>
    decreases n,
{
    if n <= 0 {
        Seq::empty()
    } else {
        let pre = completed_upto(t, n - 1);
        if entry_complete(t[n - 1]) {
            pre.push(t[n - 1])
        } else {
            pre
        }
    }
}

/// The effect of a transport teardown on one entry: the torn-down server's
/// waiting slot resolves to absent; an entry not waiting on it is untouched.
pub open spec fn absent_effect(e: PendingEntry, e2: PendingEntry, server: u64) -> bool {
    match slot_of(e, server) {
        None => e2 == e,
        Some(j) => if e.outcomes@[j] is Waiting {
            entry_with_slot(e, e2, j, ReplyState::Absent)
        } else {
            e2 == e
        },
    }
}

/// The table mapping live correlation ids to the servers still awaited.
pub struct PendingRequestTable {
    pub entries: Vec<PendingEntry>,
}

impl PendingRequestTable {
    /// Entries are well-formed and no two share a correlation id.
    pub open spec fn wf(self) -> bool {
        &&& forall|k: int| 0 <= k < self.entries@.len() ==> entry_wf(#[trigger] self.entries@[k])
        &&& forall|k: int, l: int|
            0 <= k < l < self.entries@.len() ==> self.entries@[k].id != self.entries@[l].id
    }

    pub fn new() -> (r: PendingRequestTable)
        ensures
            r.wf(),
            r.entries@.len() == 0,
    {
        PendingRequestTable { entries: Vec::new() }
    }

    pub fn has_entry(&self, id: u64) -> (r: bool)
        ensures
            r == has_id(self.entries@, id),
    {
        find_entry_idx(&self.entries, id).is_some()
    }

    /// Register one fan-out: a fresh correlation id and the full set of
    /// servers expected to reply, in eligibility-scan order.
    pub fn register(&mut self, id: u64, expected: Vec<u64>)
        requires
            old(self).wf(),
            !has_id(old(self).entries@, id),
            expected@.len() > 0,
            forall|i: int, j: int| 0 <= i < j < expected@.len() ==> expected@[i] != expected@[j],
        ensures
            final(self).wf(),
            final(self).entries@.len() == old(self).entries@.len() + 1,
            forall|k: int|
                0 <= k < old(self).entries@.len() ==> final(self).entries@[k] == old(
                    self,
                ).entries@[k],
            ({
                let e = final(self).entries@.last();
                &&& e.id == id
                &&& e.expected@ == expected@
                &&& e.outcomes@.len() == expected@.len()
                &&& forall|i: int|
                    0 <= i < e.outcomes@.len() ==> #[trigger] e.outcomes@[i] is Waiting
            }),
    {
        let mut outcomes: Vec<ReplyState> = Vec::new();
        let mut i: usize = 0;
        let n = expected.len();
        while i < n
            invariant
                i <= n,
                outcomes@.len() == i,
                forall|j: int| 0 <= j < i ==> #[trigger] outcomes@[j] is Waiting,
            decreases n - i,
        {
            outcomes.push(ReplyState::Waiting);
            i = i + 1;
        }
        self.entries.push(PendingEntry { id, expected, outcomes });
    }

    /// Record one server's reply under its correlation id. Returns the
    /// ordered results exactly when this was the last awaited reply; the
    /// completed entry leaves the table at that moment, so no id's
    /// continuation can ever fire twice.
    pub fn record_reply(&mut self, id: u64, server: u64, payload: String) -> (done: Option<
        Vec<(u64, Option<String>)>,
    >)
        requires
            old(self).wf(),
        ensures
            final(self).wf(),
            !has_id(old(self).entries@, id) ==> final(self).entries@ == old(self).entries@
                && done is None,
            forall|k: int|
                0 <= k < old(self).entries@.len() && (#[trigger] old(self).entries@[k]).id == id
                    ==> record_effect(
                    old(self).entries@,
                    final(self).entries@,
                    k,
                    server,
                    payload@,
                    done,
                ),
    {
        let ghost oe = self.entries@;
        let k = match find_entry_idx(&self.entries, id) {
            None => {
                return None;
            },
            Some(k) => k,
        };
        let ghost e = oe[k as int];
        proof {
            assert(entry_wf(e));
            // The correlation id is unique, so the found entry is the one
            // every quantified claim is about.
            assert forall|kk: int|
                0 <= kk < oe.len() && (#[trigger] oe[kk]).id == id implies kk == k as int by {
                if kk < k as int {
                    assert(oe[kk].id != oe[k as int].id);
                }
                if kk > k as int {
                    assert(oe[k as int].id != oe[kk].id);
                }
            }
        }
        let j = match find_slot(&self.entries[k].expected, server) {
            None => {
                proof {
                    assert(forall|i: int|
                        0 <= i < e.expected@.len() ==> e.expected@[i] != server);
                    assert(slot_of(e, server) is None);
                    assert(record_effect(oe, self.entries@, k as int, server, payload@, None));
                }
                return None;
            },
            Some(j) => j,
        };
        proof {
            let j0 = choose|x: int| 0 <= x < e.expected@.len() && e.expected@[x] == server;
            assert(0 <= (j as int) < e.expected@.len() && e.expected@[j as int] == server);
            assert(j0 == j as int);
            assert(slot_of(e, server) == Some(j as int));
        }
        let waiting = match &self.entries[k].outcomes[j] {
            ReplyState::Waiting => true,
            _ => false,
        };
        if !waiting {
            proof {
                assert(record_effect(oe, self.entries@, k as int, server, payload@, None));
            }
            return None;
        }
        let mut entry = self.entries.remove(k);
        entry.outcomes[j] = ReplyState::Arrived(payload);
        proof {
            assert(entry.outcomes@ == e.outcomes@.update(j as int, entry.outcomes@[j as int]));
            assert(entry_wf(entry));
        }
        if entry_complete_exec(&entry) {
            let res = entry_results(&entry);
            proof {
                assert(self.entries@ =~= oe.remove(k as int));
                assert forall|x: int|
                    0 <= x < self.entries@.len() implies entry_wf(
                    #[trigger] self.entries@[x],
                ) by {
                    if x < k as int {
                        assert(self.entries@[x] == oe[x]);
                    } else {
                        assert(self.entries@[x] == oe[x + 1]);
                    }
                }
                assert forall|x: int, y: int|
                    0 <= x < y < self.entries@.len() implies self.entries@[x].id
                    != self.entries@[y].id by {
                    let x0 = if x < k as int {
                        x
                    } else {
                        x + 1
                    };
                    let y0 = if y < k as int {
                        y
                    } else {
                        y + 1
                    };
                    assert(self.entries@[x] == oe[x0]);
                    assert(self.entries@[y] == oe[y0]);
                    assert(oe[x0].id != oe[y0].id);
                }
                assert(slot_of(e, server) == Some(j as int));
                assert(e.outcomes@[j as int] is Waiting);
                assert forall|i: int|
                    0 <= i < e.outcomes@.len() && i != j as int implies !(#[trigger] e.outcomes@[i]
                    is Waiting) by {
                    assert(entry.outcomes@[i] == e.outcomes@[i]);
                    assert(!(entry.outcomes@[i] is Waiting));
                }
                assert(self.entries@ == oe.remove(k as int));
                assert(res@.len() == e.expected@.len());
                assert(forall|i: int|
                    0 <= i < res@.len() ==> (#[trigger] res@[i]).0 == e.expected@[i]);
                assert(res@[j as int].1 matches Some(p) && p@ == payload@);
                assert(forall|i: int|
                    0 <= i < res@.len() && i != j as int ==> (match e.outcomes@[i] {
                        ReplyState::Arrived(s) => (#[trigger] res@[i]).1 matches Some(p) && p@
                            == s@,
                        _ => res@[i].1 is None,
                    }));
                assert(record_effect(oe, self.entries@, k as int, server, payload@, Some(res)));
            }
            Some(res)
        } else {
            self.entries.insert(k, entry);
            proof {
                assert(self.entries@ =~= oe.update(k as int, self.entries@[k as int]));
                assert forall|x: int|
                    0 <= x < self.entries@.len() implies entry_wf(
                    #[trigger] self.entries@[x],
                ) by {
                    if x != k as int {
                        assert(self.entries@[x] == oe[x]);
                    }
                }
                assert forall|x: int, y: int|
                    0 <= x < y < self.entries@.len() implies self.entries@[x].id
                    != self.entries@[y].id by {
                    assert(self.entries@[x].id == oe[x].id);
                    assert(self.entries@[y].id == oe[y].id);
                }
                assert(record_effect(oe, self.entries@, k as int, server, payload@, None));
            }
            None
        }
    }

    /// A transport was torn down: resolve that server's slot as absent in
    /// every entry still waiting on it. Entries that never expected the
    /// server are untouched.
    pub fn mark_server_absent(&mut self, server: u64)
        requires
            old(self).wf(),
        ensures
            final(self).wf(),
            final(self).entries@.len() == old(self).entries@.len(),
            forall|k: int|
                0 <= k < old(self).entries@.len() ==> absent_effect(
                    #[trigger] old(self).entries@[k],
                    final(self).entries@[k],
                    server,
                ),
    {
        let ghost oe = old(self).entries@;
        let n = self.entries.len();
        let mut k: usize = 0;
        while k < n
            invariant
                k <= n,
                n == self.entries@.len(),
                old(self).wf(),
                oe == old(self).entries@,
                self.entries@.len() == oe.len(),
                forall|x: int| k <= x < n ==> self.entries@[x] == oe[x],
                forall|x: int|
                    0 <= x < k ==> absent_effect(#[trigger] oe[x], self.entries@[x], server),
                forall|x: int|
                    0 <= x < n ==> (#[trigger] self.entries@[x]).id == oe[x].id && entry_wf(
                        self.entries@[x],
                    ),
            decreases n - k,
        {
            let ghost e = self.entries@[k as int];
            proof {
                assert(e == oe[k as int]);
                assert(entry_wf(e));
            }
            match find_slot(&self.entries[k].expected, server) {
                None => {
                    proof {
                        assert(forall|i: int|
                            0 <= i < e.expected@.len() ==> e.expected@[i] != server);
                        assert(slot_of(e, server) is None);
                    }
                },
                Some(j) => {
                    proof {
                        let j0 = choose|x: int|
                            0 <= x < e.expected@.len() && e.expected@[x] == server;
                        assert(0 <= (j as int) < e.expected@.len() && e.expected@[j as int]
                            == server);
                        assert(j0 == j as int);
                        assert(slot_of(e, server) == Some(j as int));
                    }
                    let waiting = match &self.entries[k].outcomes[j] {
                        ReplyState::Waiting => true,
                        _ => false,
                    };
                    if waiting {
                        let ghost pre = self.entries@;
                        let mut entry = self.entries.remove(k);
                        entry.outcomes[j] = ReplyState::Absent;
                        proof {
                            assert(entry.outcomes@ == e.outcomes@.update(
                                j as int,
                                ReplyState::Absent,
                            ));
                        }
                        self.entries.insert(k, entry);
                        proof {
                            assert(self.entries@ =~= pre.update(
                                k as int,
                                self.entries@[k as int],
                            ));
                            assert(entry_with_slot(e, self.entries@[k as int], j as int,
                                ReplyState::Absent));
                        }
                    }
                },
            }
            k = k + 1;
        }
    }

    /// Remove and return every completed entry, in table order, each with the
    /// ordered results owed to its continuation.
    pub fn take_completed(&mut self) -> (r: Vec<(u64, Vec<(u64, Option<String>)>)>)
        requires
            old(self).wf(),
        ensures
            final(self).wf(),
            final(self).entries@ == incomplete_upto(
                old(self).entries@,
                old(self).entries@.len() as int,
            ),
            ({
                let comp = completed_upto(old(self).entries@, old(self).entries@.len() as int);
                &&& r@.len() == comp.len()
                &&& forall|i: int|
                    0 <= i < comp.len() ==> (#[trigger] r@[i]).0 == comp[i].id && results_match(
                        r@[i].1@,
                        comp[i],
                    )
            }),
    {
        let ghost oe = old(self).entries@;
        let mut remaining: Vec<PendingEntry> = Vec::new();
        let mut out: Vec<(u64, Vec<(u64, Option<String>)>)> = Vec::new();
        let n = self.entries.len();
        let mut k: usize = 0;
        while k < n
            invariant
                k <= n,
                n == oe.len(),
                old(self).wf(),
                oe == old(self).entries@,
                self.entries@ =~= oe.skip(k as int),
                remaining@ == incomplete_upto(oe, k as int),
                forall|x: int|
                    0 <= x < remaining@.len() ==> exists|kk: int|
                        0 <= kk < k && #[trigger] remaining@[x] == oe[kk],
                ({
                    let comp = completed_upto(oe, k as int);
                    &&& out@.len() == comp.len()
                    &&& forall|i: int|
                        0 <= i < comp.len() ==> (#[trigger] out@[i]).0 == comp[i].id
                            && results_match(out@[i].1@, comp[i])
                }),
            decreases n - k,
        {
            let e = self.entries.remove(0);
            proof {
                assert(e == oe.skip(k as int)[0]);
                assert(e == oe[k as int]);
                assert(self.entries@ =~= oe.skip(k as int + 1));
                assert(entry_wf(e));
            }
            if entry_complete_exec(&e) {
                let res = entry_results(&e);
                out.push((e.id, res));
            } else {
                remaining.push(e);
                proof {
                    assert forall|x: int|
                        0 <= x < remaining@.len() implies exists|kk: int|
                        0 <= kk < k + 1 && #[trigger] remaining@[x] == oe[kk] by {
                        if x == remaining@.len() - 1 {
                            assert(remaining@[x] == oe[k as int]);
                        }
                    }
                }
            }
            k = k + 1;
        }
        self.entries = remaining;
        proof {
            assert forall|x: int, y: int|
                0 <= x < y < self.entries@.len() implies self.entries@[x].id
                != self.entries@[y].id by {
                lemma_incomplete_upto_increasing(oe, n as int, x, y);
            }
            assert forall|x: int|
                0 <= x < self.entries@.len() implies entry_wf(#[trigger] self.entries@[x]) by {
                let kk = choose|kk: int| 0 <= kk < n && self.entries@[x] == oe[kk];
                assert(entry_wf(oe[kk]));
            }
        }
        out
    }
}

/// The incomplete entries keep their original, strictly increasing positions,
/// so two distinct remaining entries come from two distinct table entries.
proof fn lemma_incomplete_upto_increasing(t: Seq<PendingEntry>, n: int, x: int, y: int)
    requires
        0 <= n <= t.len(),
        forall|a: int, b: int| 0 <= a < b < t.len() ==> t[a].id != t[b].id,
        0 <= x < y < incomplete_upto(t, n).len(),
    ensures
        incomplete_upto(t, n)[x].id != incomplete_upto(t, n)[y].id,
    decreases n,
{
    lemma_incomplete_upto_from(t, n);
    let s = incomplete_upto(t, n);
    let kx = choose|kk: int| 0 <= kk < n && s[x] == t[kk] && from_count(t, kk) == x;
    let ky = choose|kk: int| 0 <= kk < n && s[y] == t[kk] && from_count(t, kk) == y;
    if kx == ky {
        assert(false);
    } else if kx < ky {
        assert(t[kx].id != t[ky].id);
    } else {
        lemma_from_count_monotone(t, ky, kx);
        assert(false);
    }
}

/// How many of the first `k` entries are incomplete: the position entry `k`
/// would take among the remaining entries.
pub open spec fn from_count(t: Seq<PendingEntry>, k: int) -> int
    decreases k,
{
    if k <= 0 {
        0
    } else {
        from_count(t, k - 1) + if entry_complete(t[k - 1]) {
            0int
        } else {
            1int
        }
    }
}

proof fn lemma_from_count_monotone(t: Seq<PendingEntry>, a: int, b: int)
    requires
        0 <= a <= b,
    ensures
        from_count(t, a) <= from_count(t, b),
    decreases b - a,
{
    if a < b {
        lemma_from_count_monotone(t, a, b - 1);
    }
}

/// Every remaining entry is one of the first `n` table entries, standing at
/// the position `from_count` gives it.
proof fn lemma_incomplete_upto_from(t: Seq<PendingEntry>, n: int)
    requires
        0 <= n <= t.len(),
    ensures
        incomplete_upto(t, n).len() == from_count(t, n),
        forall|x: int|
            0 <= x < incomplete_upto(t, n).len() ==> exists|kk: int|
                0 <= kk < n && #[trigger] incomplete_upto(t, n)[x] == t[kk] && from_count(t, kk)
                    == x,
    decreases n,
{
    if n > 0 {
        lemma_incomplete_upto_from(t, n - 1);
        let s = incomplete_upto(t, n);
        let pre = incomplete_upto(t, n - 1);
        assert forall|x: int|
            0 <= x < s.len() implies exists|kk: int|
            0 <= kk < n && #[trigger] s[x] == t[kk] && from_count(t, kk) == x by {
            if !entry_complete(t[n - 1]) && x == s.len() - 1 {
                assert(s[x] == t[n - 1] && from_count(t, n - 1) == x);
            } else {
                assert(s[x] == pre[x]);
                let kk = choose|kk: int|
                    0 <= kk < n - 1 && pre[x] == t[kk] && from_count(t, kk) == x;
                assert(s[x] == t[kk] && from_count(t, kk) == x);
            }
        }
    }
}

/// Law: once a correlation id's continuation has fired, the id is gone from
/// the table, so a further reply under it can only be ignored — the
/// continuation fires exactly once.
pub proof fn lemma_completion_fires_once(
    oe: Seq<PendingEntry>,
    ne: Seq<PendingEntry>,
    k: int,
    id: u64,
)
    requires
        forall|x: int, y: int| 0 <= x < y < oe.len() ==> oe[x].id != oe[y].id,
        0 <= k < oe.len(),
        oe[k].id == id,
        ne == oe.remove(k),
    ensures
        !has_id(ne, id),
{
    assert forall|x: int| 0 <= x < ne.len() implies (#[trigger] ne[x]).id != id by {
        if x < k {
            assert(ne[x] == oe[x]);
        } else {
            assert(ne[x] == oe[x + 1]);
        }
    }
}

/// Law: the results handed to a continuation cover every expected server, in
/// the eligibility-scan order the fan-out registered, with each server either
/// resolved by a reply or resolved absent — never still awaited.
pub proof fn lemma_results_complete_and_ordered(r: Seq<(u64, Option<String>)>, e: PendingEntry)
    requires
        results_match(r, e),
        entry_complete(e),
        e.expected@.len() == e.outcomes@.len(),
    ensures
        r.len() == e.expected@.len(),
        forall|i: int| 0 <= i < r.len() ==> (#[trigger] r[i]).0 == e.expected@[i],
        forall|i: int|
            0 <= i < r.len() ==> ((#[trigger] r[i]).1 is Some <==> e.outcomes@[i] is Arrived),
{
    assert forall|i: int|
        0 <= i < r.len() implies ((#[trigger] r[i]).1 is Some <==> e.outcomes@[i] is Arrived) by {
        assert(!(e.outcomes@[i] is Waiting));
    }
}

} // verus!
