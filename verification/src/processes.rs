//! Telling the processes of an osu!tourney session apart by their names and
//! window titles: the manager, the numbered clients, and lazer instances.

use vstd::prelude::*;
use std::collections::HashMap;
use crate::error::MemoryError;
use crate::text::{
    chars_of, contains, int_to_string, parse_i32, spec_contains, spec_int_to_string,
    spec_parse_i32, spec_starts_with, spec_to_lowercase, spec_trim, starts_with, to_lowercase, trim,
};

verus! {

broadcast use vstd::std_specs::hash::group_hash_axioms;

/// Whether a window title belongs to an osu!lazer tournament client: its
/// lowercase form contains `[tournament client]`.
pub open spec fn spec_is_lazer_title(title: Seq<char>) -> bool {
    spec_contains(spec_to_lowercase(title), "[tournament client]"@)
}

/// Whether a window title belongs to an osu!lazer tournament client.
pub fn is_lazer_title(title: &str) -> (r: bool)
    ensures
        r == spec_is_lazer_title(title@),
{
    let lower = to_lowercase(title);
    let lc = chars_of(lower.as_str());
    let needle = chars_of("[tournament client]");
    contains(&lc, &needle)
}

/// Whether a process's module name is that of osu!stable: `osu!.exe` once lowercased.
pub open spec fn spec_is_osu_process_name(name: Seq<char>) -> bool {
    spec_to_lowercase(name) == "osu!.exe"@
}

/// Whether a process's module name is that of osu!stable.
pub fn is_osu_process_name(name: &str) -> (r: bool)
    ensures
        r == spec_is_osu_process_name(name@),
{
    let lower = to_lowercase(name);
    let expected = String::from_str("osu!.exe");
    lower == expected
}

/// Whether a titled process is a lazer instance.
pub open spec fn spec_is_lazer_pid(pid: u32, titles: Map<u32, String>) -> bool {
    titles.contains_key(pid) && spec_is_lazer_title(titles[pid]@)
}

/// The pids that are not lazer instances, in their order.
pub open spec fn spec_without_lazer(pids: Seq<u32>, titles: Map<u32, String>) -> Seq<u32>
    decreases pids.len(),
{
    if pids.len() == 0 {
        Seq::empty()
    } else {
        let prev = spec_without_lazer(pids.drop_last(), titles);
        if spec_is_lazer_pid(pids.last(), titles) {
            prev
        } else {
            prev.push(pids.last())
        }
    }
}

/// Drops the pids whose window title is that of a lazer instance.
pub fn without_lazer(pids: &[u32], titles: &HashMap<u32, String>) -> (r: Vec<u32>)
    ensures
        r@ == spec_without_lazer(pids@, titles@),
{
    let mut r: Vec<u32> = Vec::new();
    let mut i: usize = 0;
    while i < pids.len()
        invariant
            i <= pids@.len(),
            r@ == spec_without_lazer(pids@.take(i as int), titles@),
        decreases pids.len() - i,
    {
        let pid = pids[i];
        assert(pids@.take(i + 1).drop_last() =~= pids@.take(i as int));
        let lazer = match titles.get(&pid) {
            Some(t) => is_lazer_title(t.as_str()),
            None => false,
        };
        if !lazer {
            r.push(pid);
        }
        i = i + 1;
    }
    assert(pids@.take(pids@.len() as int) =~= pids@);
    r
}

/// Whether a window title is kept when windows are listed: it mentions
/// `osu!` or `Tournament`.
pub open spec fn spec_is_osu_window_title(title: Seq<char>) -> bool {
    spec_contains(title, "osu!"@) || spec_contains(title, "Tournament"@)
}

/// The window titles after one more window of process `pid` is listed: an
/// osu! title is recorded, unless the process already has a title that
/// names a `Tournament Client`.
pub open spec fn spec_record_window(titles: Map<u32, String>, pid: u32, title: String) -> Map<u32, String> {
    if spec_is_osu_window_title(title@) && !(titles.contains_key(pid) && spec_contains(
        titles[pid]@,
        "Tournament Client"@,
    )) {
        titles.insert(pid, title)
    } else {
        titles
    }
}

/// A title that names a `Tournament Client` is never replaced by a later
/// window of the same process, and windows of other processes leave it be.
pub proof fn lemma_client_title_kept(titles: Map<u32, String>, pid: u32, other: u32, title: String)
    requires
        titles.contains_key(pid),
        spec_contains(titles[pid]@, "Tournament Client"@),
    ensures
        spec_record_window(titles, other, title).contains_key(pid),
        other == pid ==> spec_record_window(titles, other, title)[pid] == titles[pid],
        other != pid ==> spec_record_window(titles, other, title)[pid] == titles[pid],
{
}

/// Records the title of one window of process `pid`.
pub fn record_window(titles: &mut HashMap<u32, String>, pid: u32, title: String)
    ensures
        final(titles)@ == spec_record_window(old(titles)@, pid, title),
{
    let tc = chars_of(title.as_str());
    let osu = chars_of("osu!");
    let tournament = chars_of("Tournament");
    if contains(&tc, &osu) || contains(&tc, &tournament) {
        let dominated = match titles.get(&pid) {
            Some(existing) => {
                let ec = chars_of(existing.as_str());
                let tclient = chars_of("Tournament Client");
                contains(&ec, &tclient)
            },
            None => false,
        };
        if !dominated {
            titles.insert(pid, title);
        }
    }
}

/// What a window title says of its process.
#[derive(Debug, Clone, Copy, PartialEq, Eq, Structural)]
pub enum TitleKind {
    /// `Tournament Client <slot>`.
    Client(i32),
    /// `GDI+ Window ...`: the tournament manager.
    Manager,
    /// Anything else.
    Other,
}

/// The title prefix of a numbered tournament client.
pub open spec fn spec_client_prefix() -> Seq<char> {
    "Tournament Client "@
}

/// What a window title says of its process, once trimmed: a client when it
/// starts with `Tournament Client ` followed by a slot number (itself
/// trimmed), the manager when it starts with `GDI+ Window`.
pub open spec fn spec_title_kind(title: Seq<char>) -> TitleKind {
    let t = spec_trim(title);
    if spec_starts_with(t, spec_client_prefix()) {
        match spec_parse_i32(spec_trim(t.skip(spec_client_prefix().len() as int))) {
            Some(slot) => TitleKind::Client(slot),
            None => TitleKind::Other,
        }
    } else if spec_starts_with(t, "GDI+ Window"@) {
        TitleKind::Manager
    } else {
        TitleKind::Other
    }
}

/// What a window title says of its process.
pub fn title_kind(title: &str) -> (r: TitleKind)
    ensures
        r == spec_title_kind(title@),
{
    let tc = chars_of(title);
    let t = trim(&tc);
    let prefix = chars_of("Tournament Client ");
    if starts_with(&t, &prefix) {
        let mut rest: Vec<char> = Vec::new();
        let mut i: usize = prefix.len();
        while i < t.len()
            invariant
                prefix@.len() <= i <= t@.len(),
                rest@ == t@.subrange(prefix@.len() as int, i as int),
            decreases t.len() - i,
        {
            rest.push(t[i]);
            assert(rest@ =~= t@.subrange(prefix@.len() as int, i + 1));
            i = i + 1;
        }
        assert(rest@ =~= t@.skip(prefix@.len() as int));
        let rt = trim(&rest);
        match parse_i32(&rt) {
            Some(slot) => TitleKind::Client(slot),
            None => TitleKind::Other,
        }
    } else {
        let gdi = chars_of("GDI+ Window");
        if starts_with(&t, &gdi) {
            TitleKind::Manager
        } else {
            TitleKind::Other
        }
    }
}

/// What a scan of the pids and their window titles has found: the last
/// manager, the clients by slot, and the first slot seen twice.
pub struct IdentifyScan {
    pub manager: Option<u32>,
    pub clients: Map<i32, u32>,
    pub duplicate: Option<i32>,
}

/// The scan of `pids` in order, each looked up in `titles`; it stops
/// changing at the first slot that a second client claims.
pub open spec fn spec_identify_scan(pids: Seq<u32>, titles: Map<u32, String>) -> IdentifyScan
    decreases pids.len(),
{
    if pids.len() == 0 {
        IdentifyScan { manager: None, clients: Map::empty(), duplicate: None }
    } else {
        let prev = spec_identify_scan(pids.drop_last(), titles);
        let pid = pids.last();
        if prev.duplicate is Some || !titles.contains_key(pid) {
            prev
        } else {
            match spec_title_kind(titles[pid]@) {
                TitleKind::Client(slot) => if prev.clients.contains_key(slot) {
                    IdentifyScan { duplicate: Some(slot), ..prev }
                } else {
                    IdentifyScan { clients: prev.clients.insert(slot, pid), ..prev }
                },
                TitleKind::Manager => IdentifyScan { manager: Some(pid), ..prev },
                TitleKind::Other => prev,
            }
        }
    }
}

/// Whether `v` lists exactly the entries of `m`, by strictly increasing slot.
pub open spec fn spec_sorted_entries(v: Seq<(i32, u32)>, m: Map<i32, u32>) -> bool {
    &&& forall|i: int, j: int| 0 <= i < j < v.len() ==> (#[trigger] v[i]).0 < (#[trigger] v[j]).0
    &&& forall|k: int| 0 <= k < v.len() ==> m.contains_key((#[trigger] v[k]).0) && m[v[k].0] == v[k].1
    &&& forall|s: i32| m.contains_key(s) ==> exists|k: int| 0 <= k < v.len() && (#[trigger] v[k]).0 == s
}

/// The message of the error for a slot that two clients claim.
pub open spec fn spec_duplicate_message(slot: i32) -> Seq<char> {
    "Duplicate Tournament Client "@ + spec_int_to_string(slot as int)
}

/// The place where `slot` stands in the sorted `v`: `Ok(k)` when `v[k]` has
/// it, `Err(k)` when it would be inserted at `k`.
fn find_slot(v: &Vec<(i32, u32)>, slot: i32) -> (r: Result<usize, usize>)
    requires
        forall|i: int, j: int| 0 <= i < j < v@.len() ==> (#[trigger] v@[i]).0 < (#[trigger] v@[j]).0,
    ensures
        r matches Ok(k) ==> k < v@.len() && v@[k as int].0 == slot,
        r matches Err(k) ==> k <= v@.len() && (forall|i: int| 0 <= i < k ==> (#[trigger] v@[i]).0 < slot)
            && (forall|i: int| k <= i < v@.len() ==> (#[trigger] v@[i]).0 > slot),
{
    let mut k: usize = 0;
    while k < v.len() && v[k].0 < slot
        invariant
            k <= v@.len(),
            forall|i: int| 0 <= i < k ==> (#[trigger] v@[i]).0 < slot,
        decreases v.len() - k,
    {
        k = k + 1;
    }
    if k < v.len() && v[k].0 == slot {
        Ok(k)
    } else {
        assert forall|i: int| k <= i < v@.len() implies (#[trigger] v@[i]).0 > slot by {
            if i > k {
                assert(v@[k as int].0 < v@[i].0);
            }
        }
        Err(k)
    }
}

/// Finds the tournament manager and the numbered clients among `pids` from
/// their window titles: clients sorted by slot, the manager being the last
/// `GDI+ Window` process. Fails with `Duplicate Tournament Client <slot>`
/// when two processes claim one slot, else with `ProcessNotFound` when no
/// manager is found.
pub fn identify_tourney_processes(pids: &[u32], titles: &HashMap<u32, String>) -> (r: Result<
    (u32, Vec<(i32, u32)>),
    MemoryError,
>)
    ensures
        ({
            let scan = spec_identify_scan(pids@, titles@);
            match r {
                Ok((m, v)) => scan.duplicate is None && scan.manager == Some(m)
                    && spec_sorted_entries(v@, scan.clients),
                Err(e) => match scan.duplicate {
                    Some(slot) => e matches MemoryError::ReadFailed(s) && s@ == spec_duplicate_message(slot),
                    None => scan.manager is None && e is ProcessNotFound,
                },
            }
        }),
{
    let mut manager: Option<u32> = None;
    let mut clients: Vec<(i32, u32)> = Vec::new();
    let mut i: usize = 0;
    while i < pids.len()
        invariant
            i <= pids@.len(),
            ({
                let scan = spec_identify_scan(pids@.take(i as int), titles@);
                &&& scan.duplicate is None
                &&& scan.manager == manager
                &&& spec_sorted_entries(clients@, scan.clients)
            }),
        decreases pids.len() - i,
    {
        let pid = pids[i];
        let ghost prev = spec_identify_scan(pids@.take(i as int), titles@);
        assert(pids@.take(i + 1).drop_last() =~= pids@.take(i as int));
        assert(pids@.take(i + 1).last() == pid);
        match titles.get(&pid) {
            Some(title) => {
                match title_kind(title.as_str()) {
                    TitleKind::Client(slot) => {
                        match find_slot(&clients, slot) {
                            Ok(k) => {
                                let mut msg = String::from_str("Duplicate Tournament Client ");
                                let n = int_to_string(slot as i64);
                                msg.append(n.as_str());
                                proof {
                                    let s = spec_identify_scan(pids@.take(i + 1), titles@);
                                    assert(prev.clients.contains_key(clients@[k as int].0));
                                    assert(s.duplicate == Some(slot));
                                    let full = pids@;
                                    lemma_scan_keeps_duplicate(full, titles@, (i + 1) as int);
                                }
                                return Err(MemoryError::ReadFailed(msg));
                            },
                            Err(k) => {
                                proof {
                                    if prev.clients.contains_key(slot) {
                                        let j = choose|j: int| 0 <= j < clients@.len() && (#[trigger] clients@[j]).0 == slot;
                                        if j < k {
                                        } else {
                                        }
                                    }
                                }
                                let ghost old_clients = clients@;
                                clients.insert(k, (slot, pid));
                                proof {
                                    let s = spec_identify_scan(pids@.take(i + 1), titles@);
                                    assert(s.clients == prev.clients.insert(slot, pid));
                                    assert forall|a: int, b: int| 0 <= a < b < clients@.len() implies
                                        (#[trigger] clients@[a]).0 < (#[trigger] clients@[b]).0 by {
                                        if a < k && b < k {
                                            assert(clients@[a] == old_clients[a]);
                                            assert(clients@[b] == old_clients[b]);
                                        } else if a < k && b == k {
                                            assert(clients@[a] == old_clients[a]);
                                        } else if a < k {
                                            assert(clients@[a] == old_clients[a]);
                                            assert(clients@[b] == old_clients[b - 1]);
                                        } else if a == k {
                                            assert(clients@[b] == old_clients[b - 1]);
                                        } else {
                                            assert(clients@[a] == old_clients[a - 1]);
                                            assert(clients@[b] == old_clients[b - 1]);
                                        }
                                    }
                                    assert forall|q: int| 0 <= q < clients@.len() implies
                                        s.clients.contains_key((#[trigger] clients@[q]).0)
                                            && s.clients[clients@[q].0] == clients@[q].1 by {
                                        if q < k {
                                            assert(clients@[q] == old_clients[q]);
                                        } else if q > k {
                                            assert(clients@[q] == old_clients[q - 1]);
                                        }
                                    }
                                    assert forall|sl: i32| s.clients.contains_key(sl) implies exists|q: int|
                                        0 <= q < clients@.len() && (#[trigger] clients@[q]).0 == sl by {
                                        if sl == slot {
                                            assert(clients@[k as int].0 == sl);
                                        } else {
                                            let q = choose|q: int| 0 <= q < old_clients.len() && (#[trigger] old_clients[q]).0 == sl;
                                            if q < k {
                                                assert(clients@[q] == old_clients[q]);
                                            } else {
                                                assert(clients@[q + 1] == old_clients[q]);
                                            }
                                        }
                                    }
                                }
                            },
                        }
                    },
                    TitleKind::Manager => {
                        manager = Some(pid);
                    },
                    TitleKind::Other => {},
                }
            },
            None => {},
        }
        i = i + 1;
    }
    assert(pids@.take(pids@.len() as int) =~= pids@);
    match manager {
        Some(m) => Ok((m, clients)),
        None => Err(MemoryError::ProcessNotFound),
    }
}

/// Once a scan has met a duplicate slot, further pids do not change it.
proof fn lemma_scan_keeps_duplicate(pids: Seq<u32>, titles: Map<u32, String>, i: int)
    requires
        0 <= i <= pids.len(),
        spec_identify_scan(pids.take(i), titles).duplicate is Some,
    ensures
        spec_identify_scan(pids, titles).duplicate == spec_identify_scan(pids.take(i), titles).duplicate,
    decreases pids.len() - i,
{
    if i == pids.len() {
        assert(pids.take(i) =~= pids);
    } else {
        assert(pids.take(i + 1).drop_last() =~= pids.take(i));
        lemma_scan_keeps_duplicate(pids, titles, i + 1);
    }
}

/// The clients to attach to: the identified tournament clients when there
/// are some; else, in standalone mode, the first pid as slot 0 (the flag is
/// then `true`); else the error of the identification (`ProcessNotFound`
/// when it found no client).
pub fn resolve_client_pids(
    identified: Result<(u32, Vec<(i32, u32)>), MemoryError>,
    pids: &[u32],
    standalone: bool,
) -> (r: Result<(Vec<(i32, u32)>, bool), MemoryError>)
    ensures
        match identified {
            Ok((_, c)) if c@.len() > 0 => r matches Ok((v, fallback)) && v@ == c@ && !fallback,
            _ => if standalone {
                if pids@.len() == 0 {
                    r matches Err(e) && e is ProcessNotFound
                } else {
                    r matches Ok((v, fallback)) && v@ == seq![(0i32, pids@[0])] && fallback
                }
            } else {
                match identified {
                    Ok(_) => r matches Err(e) && e is ProcessNotFound,
                    Err(e0) => r matches Err(e) && e == e0,
                }
            },
        },
{
    let tourney_err = match identified {
        Ok((_, clients)) => {
            if clients.len() > 0 {
                return Ok((clients, false));
            }
            MemoryError::ProcessNotFound
        },
        Err(e) => e,
    };
    if standalone {
        if pids.len() == 0 {
            Err(MemoryError::ProcessNotFound)
        } else {
            let mut v: Vec<(i32, u32)> = Vec::new();
            v.push((0i32, pids[0]));
            assert(v@ =~= seq![(0i32, pids@[0])]);
            Ok((v, true))
        }
    } else {
        Err(tourney_err)
    }
}

/// Whether the clients found now are the ones attached to: as many, with
/// the same pid in each place.
pub fn same_client_pids(current: &[(i32, u32)], attached: &[u32]) -> (r: bool)
    ensures
        r == (current@.len() == attached@.len() && forall|i: int|
            0 <= i < current@.len() ==> (#[trigger] current@[i]).1 == attached@[i]),
{
    if current.len() != attached.len() {
        return false;
    }
    let mut i: usize = 0;
    while i < attached.len()
        invariant
            i <= attached@.len(),
            current@.len() == attached@.len(),
            forall|k: int| 0 <= k < i ==> (#[trigger] current@[k]).1 == attached@[k],
        decreases attached.len() - i,
    {
        if current[i].1 != attached[i] {
            return false;
        }
        i = i + 1;
    }
    true
}

} // verus!
