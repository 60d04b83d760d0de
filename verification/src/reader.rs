//! The decisions of the tournament reader around its reads: attaching to
//! the clients, checking that they are still the running ones, and
//! publishing what a poll found.

use vstd::prelude::*;
use crate::error::{spec_error_message, MemoryError};
use crate::processes::{resolve_client_pids, same_client_pids};
use crate::text::{int_to_string, spec_int_to_string};
use crate::tourney::{spec_team_of_slot, team_of_slot, TourneyData};

verus! {

/// What attaching to the tournament clients does next.
#[derive(Debug)]
pub enum ConnectStep {
    /// List the running osu! processes.
    FindProcesses,
    /// Identify the tournament processes among these pids.
    Identify(Vec<u32>),
    /// Open each of these (slot, pid) clients; `true` when the first osu!
    /// process stands in for a missing tournament.
    InitClients(Vec<(i32, u32)>, bool),
    /// Publish that this many clients are attached.
    Commit(usize),
    /// Give up for now.
    Fail,
}

/// The first step of attaching: nothing can be read without the offsets.
pub fn connect_begin(offsets_loaded: bool) -> (r: ConnectStep)
    ensures
        offsets_loaded ==> r is FindProcesses,
        !offsets_loaded ==> r is Fail,
{
    if offsets_loaded { ConnectStep::FindProcesses } else { ConnectStep::Fail }
}

/// After listing the osu! processes: give up when that failed or found none.
pub fn connect_after_find(pids: Result<Vec<u32>, MemoryError>) -> (r: ConnectStep)
    ensures
        match pids {
            Ok(p) if p@.len() > 0 => r matches ConnectStep::Identify(q) && q@ == p@,
            _ => r is Fail,
        },
{
    match pids {
        Ok(p) => if p.len() > 0 { ConnectStep::Identify(p) } else { ConnectStep::Fail },
        Err(_) => ConnectStep::Fail,
    }
}

/// After identifying the tournament processes: the clients that
/// `resolve_client_pids` settles on, or give up.
pub fn connect_after_identify(
    identified: Result<(u32, Vec<(i32, u32)>), MemoryError>,
    pids: &[u32],
    standalone: bool,
) -> (r: ConnectStep)
    ensures
        match identified {
            Ok((_, c)) if c@.len() > 0 => r matches ConnectStep::InitClients(v, fallback) && v@ == c@ && !fallback,
            _ => if standalone && pids@.len() > 0 {
                r matches ConnectStep::InitClients(v, fallback) && v@ == seq![(0i32, pids@[0])] && fallback
            } else {
                r is Fail
            },
        },
{
    match resolve_client_pids(identified, pids, standalone) {
        Ok((clients, fallback)) => ConnectStep::InitClients(clients, fallback),
        Err(_) => ConnectStep::Fail,
    }
}

/// After opening the clients: publish them, or give up when none opened.
pub fn connect_after_init(opened: usize) -> (r: ConnectStep)
    ensures
        opened > 0 ==> (r matches ConnectStep::Commit(n) && n == opened),
        opened == 0 ==> r is Fail,
{
    if opened > 0 { ConnectStep::Commit(opened) } else { ConnectStep::Fail }
}

/// What a poll answers before reading anything: `false` with no offsets
/// loaded, `true` with no clients attached, and nothing (`None`: read the
/// clients) otherwise.
pub open spec fn spec_poll_gate(has_offsets: bool, attached: nat) -> Option<bool> {
    if !has_offsets {
        Some(false)
    } else if attached == 0 {
        Some(true)
    } else {
        None
    }
}

/// Whether a poll is answered before any read: see `spec_poll_gate`.
pub fn poll_gate(has_offsets: bool, attached: usize) -> (r: Option<bool>)
    ensures
        r == spec_poll_gate(has_offsets, attached as nat),
{
    if !has_offsets {
        Some(false)
    } else if attached == 0 {
        Some(true)
    } else {
        None
    }
}

/// A detached reader (no clients attached, as a disconnect leaves it)
/// answers a poll at once, with whether its offsets are loaded, and so reads
/// and changes no data.
pub proof fn lemma_detached_poll(has_offsets: bool)
    ensures
        spec_poll_gate(has_offsets, 0) == Some(has_offsets),
{
}

/// Whether the attached clients need a look at the running processes: with
/// none attached there is nothing to check and the answer is `true`.
pub fn validate_begin(attached: usize) -> (r: Option<bool>)
    ensures
        attached == 0 ==> r == Some(true),
        attached > 0 ==> r is None,
{
    if attached == 0 { Some(true) } else { None }
}

/// Whether the attached clients (by pid, in order) are still the running
/// ones: the clients settled on now (an error when the processes could not
/// be listed or resolved) must be as many, with the same pids in order.
pub fn validate_finish(current: Result<(Vec<(i32, u32)>, bool), MemoryError>, attached: &[u32]) -> (r: bool)
    ensures
        match current {
            Ok((c, _)) => r == (c@.len() == attached@.len() && forall|i: int|
                0 <= i < c@.len() ==> (#[trigger] c@[i]).1 == attached@[i]),
            Err(_) => !r,
        },
{
    match current {
        Ok((c, _)) => same_client_pids(c.as_slice(), attached),
        Err(_) => false,
    }
}

impl TourneyData {
    /// Sets the team of client `i` from its slot when teams have
    /// `team_size > 0` members: 0 (left/red) for a slot before `team_size`,
    /// else 1 (right/blue). With no team size the team stays.
    pub fn assign_team(&mut self, i: usize, team_size: i32)
        requires
            i < old(self).clients@.len(),
        ensures
            final(self).state == old(self).state,
            final(self).beatmap == old(self).beatmap,
            final(self).clients@.len() == old(self).clients@.len(),
            forall|k: int| 0 <= k < old(self).clients@.len() && k != i ==> #[trigger] final(self).clients@[k] == old(self).clients@[k],
            final(self).clients@[i as int].slot == old(self).clients@[i as int].slot,
            final(self).clients@[i as int].score == old(self).clients@[i as int].score,
            final(self).clients@[i as int].mods == old(self).clients@[i as int].mods,
            final(self).clients@[i as int].team == if team_size > 0 {
                spec_team_of_slot(old(self).clients@[i as int].slot, team_size) as int
            } else {
                old(self).clients@[i as int].team as int
            },
            team_size > 0 ==> (final(self).clients@[i as int].team == 0 || final(self).clients@[i as int].team == 1),
    {
        if team_size > 0 {
            let slot = self.clients[i].slot;
            let team = team_of_slot(slot, team_size);
            let mut c = self.clients.remove(i);
            c.team = team;
            self.clients.insert(i, c);
            assert(self.clients@ =~= old(self).clients@.update(i as int, c));
        }
    }
}

/// Which step of opening a client failed.
#[derive(Debug, Clone, Copy, PartialEq, Eq, Structural)]
pub enum InitStage {
    /// Opening the process.
    Open,
    /// Scanning for the rulesets pattern.
    RulesetsScan,
    /// Scanning for the base pattern.
    BaseScan,
}

/// The message of a failure to open the client in `slot`, wrapping the
/// message of the underlying error.
pub open spec fn spec_init_error_message(stage: InitStage, slot: i32, cause: Seq<char>) -> Seq<char> {
    match stage {
        InitStage::Open => "Failed to open client "@ + spec_int_to_string(slot as int) + ": "@ + cause,
        InitStage::RulesetsScan => "Client "@ + spec_int_to_string(slot as int) + " rulesets pattern scan failed: "@ + cause,
        InitStage::BaseScan => "Client "@ + spec_int_to_string(slot as int) + " base pattern scan failed: "@ + cause,
    }
}

/// The error of a failure to open the client in `slot` at `stage`.
pub fn init_error(stage: InitStage, slot: i32, cause: &MemoryError) -> (r: MemoryError)
    ensures
        r matches MemoryError::ReadFailed(s) && s@ == spec_init_error_message(stage, slot, spec_error_message(*cause)),
{
    let n = int_to_string(slot as i64);
    let c = cause.message();
    let mut s = match stage {
        InitStage::Open => String::from_str("Failed to open client "),
        InitStage::RulesetsScan => String::from_str("Client "),
        InitStage::BaseScan => String::from_str("Client "),
    };
    s.append(n.as_str());
    match stage {
        InitStage::Open => s.append(": "),
        InitStage::RulesetsScan => s.append(" rulesets pattern scan failed: "),
        InitStage::BaseScan => s.append(" base pattern scan failed: "),
    }
    s.append(c.as_str());
    MemoryError::ReadFailed(s)
}

} // verus!
