//! The data that the reader publishes for a tournament, the offsets that
//! locate it in a client's memory, and the decisions of each poll: which
//! words to read, in what order, and what they change.

use vstd::prelude::*;
use crate::error::{spec_error_message, MemoryError};
use crate::mods::{parse_mods_bitfield, spec_mod_acronyms, spec_mods_string, GameplayMods};
use crate::pattern::spec_wrapping_add;

verus! {

/// Whether the reader is looking for clients or attached to them.
#[derive(Debug, Clone, Copy, PartialEq, Eq, Structural)]
pub enum TourneyState {
    Scanning,
    Connected,
}

/// The beatmap that the tournament is playing.
#[derive(Debug, Clone, Copy, PartialEq, Eq, Structural)]
pub struct Beatmap {
    pub id: i32,
}

impl Default for Beatmap {
    fn default() -> (r: Self)
        ensures
            r.id == 0,
    {
        Beatmap { id: 0 }
    }
}

/// One client of the tournament: its slot, its team (0 for the left/red
/// side, 1 for the right/blue side), its score and its mods.
#[derive(Debug, Clone)]
pub struct TourneyClient {
    pub slot: i32,
    pub team: i32,
    pub score: i32,
    pub mods: GameplayMods,
}

/// Whether `c` is the value that a client starts from.
pub open spec fn spec_is_default_client(c: TourneyClient) -> bool {
    &&& c.slot == 0
    &&& c.team == 0
    &&& c.score == 0
    &&& c.mods.mods@.len() == 0
    &&& c.mods.mods_string@.len() == 0
}

impl Default for TourneyClient {
    fn default() -> (r: Self)
        ensures
            spec_is_default_client(r),
    {
        TourneyClient { slot: 0, team: 0, score: 0, mods: GameplayMods::default() }
    }
}

/// What the reader publishes: its state, the beatmap and one entry per client.
#[derive(Debug, Clone)]
pub struct TourneyData {
    pub state: TourneyState,
    pub beatmap: Beatmap,
    pub clients: Vec<TourneyClient>,
}

impl Default for TourneyData {
    fn default() -> (r: Self)
        ensures
            r.state == TourneyState::Scanning,
            r.beatmap.id == 0,
            r.clients@.len() == 0,
    {
        TourneyData { state: TourneyState::Scanning, beatmap: Beatmap::default(), clients: Vec::new() }
    }
}

impl TourneyData {
    /// Marks the reader attached to `n` clients, each starting from the default.
    pub fn connect(&mut self, n: usize)
        ensures
            final(self).state == TourneyState::Connected,
            final(self).beatmap == old(self).beatmap,
            final(self).clients@.len() == n,
            forall|i: int| 0 <= i < n ==> spec_is_default_client(#[trigger] final(self).clients@[i]),
    {
        let mut clients: Vec<TourneyClient> = Vec::new();
        let mut i: usize = 0;
        while i < n
            invariant
                i <= n,
                clients@.len() == i,
                forall|k: int| 0 <= k < i ==> spec_is_default_client(#[trigger] clients@[k]),
            decreases n - i,
        {
            clients.push(TourneyClient::default());
            i = i + 1;
        }
        self.state = TourneyState::Connected;
        self.clients = clients;
    }

    /// Marks the reader detached: scanning again, with no clients.
    pub fn disconnect(&mut self)
        ensures
            final(self).state == TourneyState::Scanning,
            final(self).beatmap == old(self).beatmap,
            final(self).clients@.len() == 0,
    {
        self.clients.clear();
        self.state = TourneyState::Scanning;
    }

    /// Gives the data exactly `n` clients: the first ones are kept, missing
    /// ones are added from the default.
    pub fn resize_clients(&mut self, n: usize)
        ensures
            final(self).state == old(self).state,
            final(self).beatmap == old(self).beatmap,
            final(self).clients@.len() == n,
            forall|i: int|
                0 <= i < n && i < old(self).clients@.len() ==> #[trigger] final(self).clients@[i]
                    == old(self).clients@[i],
            forall|i: int|
                old(self).clients@.len() <= i < n ==> spec_is_default_client(
                    #[trigger] final(self).clients@[i],
                ),
    {
        let ghost m: int = if old(self).clients@.len() <= n { old(self).clients@.len() as int } else { n as int };
        if self.clients.len() > n {
            self.clients.truncate(n);
        }
        while self.clients.len() < n
            invariant
                self.state == old(self).state,
                self.beatmap == old(self).beatmap,
                m <= self.clients@.len() <= n,
                m == if old(self).clients@.len() <= n { old(self).clients@.len() as int } else { n as int },
                forall|i: int| 0 <= i < m ==> #[trigger] self.clients@[i] == old(self).clients@[i],
                forall|i: int|
                    m <= i < self.clients@.len() ==> spec_is_default_client(
                        #[trigger] self.clients@[i],
                    ),
            decreases n - self.clients@.len(),
        {
            self.clients.push(TourneyClient::default());
        }
    }
}

/// Division of `a` by `b > 0` rounding toward zero, as `i32` division does.
pub open spec fn spec_div_toward_zero(a: int, b: int) -> int {
    if a >= 0 {
        a / b
    } else {
        -((-a) / b)
    }
}

/// The number of clients on each team: half of them, rounded down.
pub open spec fn spec_team_size(num_clients: usize) -> i32 {
    spec_div_toward_zero((num_clients as i32) as int, 2) as i32
}

/// The number of clients on each team: half of them, rounded down (the
/// count taken as an `i32`).
pub fn team_size(num_clients: usize) -> (r: i32)
    ensures
        r == spec_team_size(num_clients),
        num_clients <= i32::MAX ==> r == num_clients / 2,
{
    #[verifier::truncate]
    let n = num_clients as i32;
    n / 2
}

/// The team of the client in `slot` when each team has `team_size` clients:
/// 0 (left/red) for the slots before `team_size`, 1 (right/blue) for the
/// others. With an odd number of clients the extra one joins team 1.
pub open spec fn spec_team_of_slot(slot: i32, team_size: i32) -> i32 {
    if slot < team_size {
        0
    } else {
        1
    }
}

/// The team of the client in `slot` when each team has `team_size > 0`
/// clients: 0 (left/red) or 1 (right/blue).
pub fn team_of_slot(slot: i32, team_size: i32) -> (r: i32)
    requires
        team_size > 0,
    ensures
        r == spec_team_of_slot(slot, team_size),
        r == 0 || r == 1,
{
    if slot < team_size {
        0
    } else {
        1
    }
}

/// Whatever the number of clients, every slot lands on team 0 (left/red) or
/// team 1 (right/blue), the first `n / 2` slots on team 0. With an even
/// number of clients the slots `0..n` split into two halves of equal size.
pub proof fn lemma_two_teams(slot: i32, n: usize)
    requires
        2 <= n <= i32::MAX,
    ensures
        spec_team_size(n) == n / 2,
        spec_team_size(n) > 0,
        spec_team_of_slot(slot, spec_team_size(n)) == 0 || spec_team_of_slot(slot, spec_team_size(n)) == 1,
        spec_team_of_slot(slot, spec_team_size(n)) == 0 <==> slot < n / 2,
        n % 2 == 0 && 0 <= slot < n ==> (spec_team_of_slot(slot, spec_team_size(n)) == 1 <==> n / 2 <= slot < n),
{
    assert((n as i32) as int == n as int);
}

/// Where the patterns and pointer offsets of a client build are.
#[derive(Debug, Clone)]
pub struct PatternOffsets {
    pub base: String,
    pub rulesets: String,
}

/// Offsets from the base pattern.
#[derive(Debug, Clone, Copy)]
pub struct BaseOffsets {
    pub beatmap_ptr: isize,
}

/// Offsets inside the beatmap object.
#[derive(Debug, Clone, Copy)]
pub struct BeatmapOffsets {
    pub map_id: usize,
}

/// Offsets from the rulesets pattern to the ruleset and its gameplay data.
#[derive(Debug, Clone, Copy)]
pub struct RulesetOffsets {
    pub ptr_offset: isize,
    pub ptr_deref: usize,
    pub gameplay_ptr: usize,
    pub gameplay_base: usize,
    pub gameplay_score: usize,
    pub mode: usize,
    pub mods_ptr: usize,
    pub mods_xor1: usize,
    pub mods_xor2: usize,
}

/// Every offset the reader uses.
#[derive(Debug, Clone)]
pub struct Offsets {
    pub patterns: PatternOffsets,
    pub base: BaseOffsets,
    pub beatmap: BeatmapOffsets,
    pub ruleset: RulesetOffsets,
}

/// `a + off` in the address space, wrapping around (what
/// `(a as isize + off) as usize` gives).
pub open spec fn spec_offset_addr(a: usize, off: isize) -> usize {
    if a + off > usize::MAX {
        (a + off - (usize::MAX + 1)) as usize
    } else if a + off < 0 {
        (a + off + (usize::MAX + 1)) as usize
    } else {
        (a + off) as usize
    }
}

/// `a + b` in the address space, wrapping around.
pub open spec fn spec_addr(a: usize, b: usize) -> usize {
    spec_wrapping_add(a as int, b as int) as usize
}

fn offset_addr(a: usize, off: isize) -> (r: usize)
    ensures
        r == spec_offset_addr(a, off),
{
    a.wrapping_add_signed(off)
}

fn addr(a: usize, b: usize) -> (r: usize)
    ensures
        r == spec_addr(a, b),
{
    a.wrapping_add(b)
}

/// Whether `addr` looks like a pointer into a 32-bit process: at least
/// `0x10000` and at most `0xFFFF_FFFF`.
pub open spec fn spec_is_plausible_ptr(addr: usize) -> bool {
    0x1_0000 <= addr <= 0xFFFF_FFFF
}

/// Whether `addr` looks like a pointer into a 32-bit process.
pub fn is_plausible_ptr(addr: usize) -> (r: bool)
    ensures
        r == spec_is_plausible_ptr(addr),
{
    0x1_0000 <= addr && addr <= 0xFFFF_FFFF
}

/// Whether a game mode number is one of the four rulesets (0 to 3).
pub open spec fn spec_is_gameplay_mode(mode: i32) -> bool {
    0 <= mode <= 3
}

/// A 32-bit word read from memory, taken as an `i32`.
pub open spec fn spec_word_i32(w: u32) -> i32 {
    w as i32
}

/// The next thing a poll of a client's memory needs, or its end.
#[derive(Debug, Clone, Copy, PartialEq, Eq, Structural)]
pub enum PollStep {
    /// Read the little-endian 32-bit word at this address and hand it back.
    Read(usize),
    /// The poll is over; `false` when the process is likely gone.
    Done(bool),
}

/// Where a poll of one client stands: the read it waits for, with what
/// the earlier reads found.
#[derive(Debug, Clone, Copy, PartialEq, Eq, Structural)]
pub enum PollStage {
    /// Waiting for the pointer held next to the rulesets pattern.
    RulesetsPtr,
    /// Waiting for the ruleset pointer, through the rulesets pointer.
    Ruleset,
    /// The ruleset could not be resolved; waiting for the word at the
    /// rulesets address itself, to tell a dead process from an idle one.
    Probe,
    /// Waiting for the gameplay pointer of the ruleset.
    GameplayPtr,
    /// Waiting for the gameplay base, through the gameplay pointer.
    GameplayBase,
    /// Waiting for the game mode, at the gameplay base `base`.
    Mode { base: usize },
    /// Waiting for the score, at the gameplay base `base`.
    Score { base: usize },
    /// Waiting for the mods pointer, at the gameplay base `base`.
    ModsPtr { base: usize },
    /// Waiting for the first mods word, through the mods pointer.
    Xor1 { mods_ptr: usize },
    /// Waiting for the second mods word, the first being `xor1`.
    Xor2 { mods_ptr: usize, xor1: u32 },
    /// Nothing more to read.
    Finished,
}

/// How many reads at most remain from a stage.
pub open spec fn spec_stage_rank(s: PollStage) -> nat {
    match s {
        PollStage::RulesetsPtr => 10,
        PollStage::Ruleset => 9,
        PollStage::Probe => 1,
        PollStage::GameplayPtr => 8,
        PollStage::GameplayBase => 7,
        PollStage::Mode { .. } => 6,
        PollStage::Score { .. } => 5,
        PollStage::ModsPtr { .. } => 4,
        PollStage::Xor1 { .. } => 3,
        PollStage::Xor2 { .. } => 2,
        PollStage::Finished => 0,
    }
}

/// The largest score that is taken as real, plus one.
pub const SCORE_LIMIT: i32 = 2_000_000_000;

/// The bound below which a mods word is taken as real.
pub const MODS_LIMIT: u32 = 0x20000;

/// A poll of one client's memory: it says which words to read and, from
/// what they hold, updates the client's slot, score and mods and tells
/// whether the process is still alive.
#[derive(Debug, Clone, Copy)]
pub struct ClientPoll {
    pub stage: PollStage,
    pub rulesets_addr: usize,
    pub offsets: RulesetOffsets,
}

/// The transition of a poll on the word `w` (`None` when the read failed):
/// the next stage and what is asked next.
pub open spec fn spec_poll_next(p: ClientPoll, w: Option<u32>) -> (PollStage, PollStep) {
    let o = p.offsets;
    match p.stage {
        PollStage::RulesetsPtr => match w {
            Some(v) if v != 0 => (PollStage::Ruleset, PollStep::Read(spec_addr(v as usize, o.ptr_deref))),
            _ => (PollStage::Probe, PollStep::Read(p.rulesets_addr)),
        },
        PollStage::Ruleset => match w {
            Some(v) if v != 0 => (PollStage::GameplayPtr, PollStep::Read(spec_addr(v as usize, o.gameplay_ptr))),
            _ => (PollStage::Probe, PollStep::Read(p.rulesets_addr)),
        },
        PollStage::Probe => (PollStage::Finished, PollStep::Done(w is Some)),
        PollStage::GameplayPtr => match w {
            None => (PollStage::Finished, PollStep::Done(false)),
            Some(v) => if v == 0 {
                (PollStage::Finished, PollStep::Done(true))
            } else {
                (PollStage::GameplayBase, PollStep::Read(spec_addr(v as usize, o.gameplay_base)))
            },
        },
        PollStage::GameplayBase => {
            let base: usize = match w { Some(v) => v as usize, None => 0 };
            if base == 0 || !spec_is_plausible_ptr(base) {
                (PollStage::Finished, PollStep::Done(true))
            } else {
                (PollStage::Mode { base }, PollStep::Read(spec_addr(base, o.mode)))
            }
        },
        PollStage::Mode { base } => {
            let mode: i32 = match w { Some(v) => spec_word_i32(v), None => -1i32 };
            if spec_is_gameplay_mode(mode) {
                (PollStage::Score { base }, PollStep::Read(spec_addr(base, o.gameplay_score)))
            } else {
                (PollStage::Finished, PollStep::Done(true))
            }
        },
        PollStage::Score { base } => (PollStage::ModsPtr { base }, PollStep::Read(spec_addr(base, o.mods_ptr))),
        PollStage::ModsPtr { base } => {
            let mods_ptr: usize = match w { Some(v) => v as usize, None => 0 };
            if mods_ptr == 0 {
                (PollStage::Finished, PollStep::Done(true))
            } else {
                (PollStage::Xor1 { mods_ptr }, PollStep::Read(spec_addr(mods_ptr, o.mods_xor1)))
            }
        },
        PollStage::Xor1 { mods_ptr } => {
            let xor1: u32 = match w { Some(v) => v, None => 0 };
            (PollStage::Xor2 { mods_ptr, xor1 }, PollStep::Read(spec_addr(mods_ptr, o.mods_xor2)))
        },
        PollStage::Xor2 { .. } => (PollStage::Finished, PollStep::Done(true)),
        PollStage::Finished => (PollStage::Finished, PollStep::Done(true)),
    }
}

/// The score that a poll stage sets from the word `w`, if any: at the score
/// stage, the word as an `i32` when it lies in `0..2_000_000_000`.
pub open spec fn spec_poll_score(stage: PollStage, w: Option<u32>) -> Option<i32> {
    match stage {
        PollStage::Score { .. } => {
            let raw: i32 = match w { Some(v) => spec_word_i32(v), None => 0 };
            if 0 <= raw < SCORE_LIMIT { Some(raw) } else { None }
        },
        _ => None,
    }
}

/// The mods bitfield that a poll stage decodes from the word `w`, if any: at
/// the second mods word, the xor of both words when below `0x20000`.
pub open spec fn spec_poll_mods(stage: PollStage, w: Option<u32>) -> Option<u32> {
    match stage {
        PollStage::Xor2 { xor1, .. } => {
            let xor2: u32 = match w { Some(v) => v, None => 0 };
            let raw = xor1 ^ xor2;
            if raw < MODS_LIMIT { Some(raw) } else { None }
        },
        _ => None,
    }
}

impl ClientPoll {
    /// Starts the poll of a client whose rulesets pattern is at
    /// `rulesets_addr`: records the client's slot in `out` and asks for the
    /// word at the rulesets address moved by `ptr_offset`.
    pub fn start(slot: i32, rulesets_addr: usize, offsets: &RulesetOffsets, out: &mut TourneyClient) -> (r: (
        ClientPoll,
        PollStep,
    ))
        ensures
            r.0.stage == PollStage::RulesetsPtr,
            r.0.rulesets_addr == rulesets_addr,
            r.0.offsets == *offsets,
            r.1 == PollStep::Read(spec_offset_addr(rulesets_addr, offsets.ptr_offset)),
            final(out).slot == slot,
            final(out).team == old(out).team,
            final(out).score == old(out).score,
            final(out).mods == old(out).mods,
    {
        out.slot = slot;
        let p = ClientPoll { stage: PollStage::RulesetsPtr, rulesets_addr, offsets: *offsets };
        (p, PollStep::Read(offset_addr(rulesets_addr, offsets.ptr_offset)))
    }

    /// Takes the word that the last step asked for (`None` when it could not
    /// be read), updates `out` and says what comes next.
    pub fn step(&mut self, w: Option<u32>, out: &mut TourneyClient) -> (r: PollStep)
        ensures
            (final(self).stage, r) == spec_poll_next(*old(self), w),
            final(self).rulesets_addr == old(self).rulesets_addr,
            final(self).offsets == old(self).offsets,
            spec_stage_rank(final(self).stage) < spec_stage_rank(old(self).stage)
                || old(self).stage == PollStage::Finished,
            r is Done <==> final(self).stage == PollStage::Finished,
            final(out).slot == old(out).slot,
            final(out).team == old(out).team,
            final(out).score == match spec_poll_score(old(self).stage, w) {
                Some(s) => s,
                None => old(out).score,
            },
            match spec_poll_mods(old(self).stage, w) {
                Some(m) => {
                    &&& final(out).mods.mods@.len() == spec_mod_acronyms(m).len()
                    &&& forall|k: int| 0 <= k < final(out).mods.mods@.len()
                        ==> (#[trigger] final(out).mods.mods@[k]).acronym@ == spec_mod_acronyms(m)[k]
                            && final(out).mods.mods@[k].settings is None
                    &&& final(out).mods.mods_string@ == spec_mods_string(m)
                },
                None => final(out).mods == old(out).mods,
            },
    {
        let o = self.offsets;
        let (stage, step) = match self.stage {
            PollStage::RulesetsPtr => match w {
                Some(v) if v != 0 => (PollStage::Ruleset, PollStep::Read(addr(v as usize, o.ptr_deref))),
                _ => (PollStage::Probe, PollStep::Read(self.rulesets_addr)),
            },
            PollStage::Ruleset => match w {
                Some(v) if v != 0 => (PollStage::GameplayPtr, PollStep::Read(addr(v as usize, o.gameplay_ptr))),
                _ => (PollStage::Probe, PollStep::Read(self.rulesets_addr)),
            },
            PollStage::Probe => (PollStage::Finished, PollStep::Done(w.is_some())),
            PollStage::GameplayPtr => match w {
                None => (PollStage::Finished, PollStep::Done(false)),
                Some(v) => if v == 0 {
                    (PollStage::Finished, PollStep::Done(true))
                } else {
                    (PollStage::GameplayBase, PollStep::Read(addr(v as usize, o.gameplay_base)))
                },
            },
            PollStage::GameplayBase => {
                let base: usize = match w { Some(v) => v as usize, None => 0 };
                if base == 0 || !is_plausible_ptr(base) {
                    (PollStage::Finished, PollStep::Done(true))
                } else {
                    (PollStage::Mode { base }, PollStep::Read(addr(base, o.mode)))
                }
            },
            PollStage::Mode { base } => {
                let mode: i32 = match w { Some(v) => v as i32, None => -1 };
                if 0 <= mode && mode <= 3 {
                    (PollStage::Score { base }, PollStep::Read(addr(base, o.gameplay_score)))
                } else {
                    (PollStage::Finished, PollStep::Done(true))
                }
            },
            PollStage::Score { base } => {
                let raw: i32 = match w { Some(v) => v as i32, None => 0 };
                if 0 <= raw && raw < SCORE_LIMIT {
                    out.score = raw;
                }
                (PollStage::ModsPtr { base }, PollStep::Read(addr(base, o.mods_ptr)))
            },
            PollStage::ModsPtr { base } => {
                let mods_ptr: usize = match w { Some(v) => v as usize, None => 0 };
                if mods_ptr == 0 {
                    (PollStage::Finished, PollStep::Done(true))
                } else {
                    (PollStage::Xor1 { mods_ptr }, PollStep::Read(addr(mods_ptr, o.mods_xor1)))
                }
            },
            PollStage::Xor1 { mods_ptr } => {
                let xor1: u32 = match w { Some(v) => v, None => 0 };
                (PollStage::Xor2 { mods_ptr, xor1 }, PollStep::Read(addr(mods_ptr, o.mods_xor2)))
            },
            PollStage::Xor2 { mods_ptr: _, xor1 } => {
                let xor2: u32 = match w { Some(v) => v, None => 0 };
                let raw = xor1 ^ xor2;
                if raw < MODS_LIMIT {
                    out.mods = parse_mods_bitfield(raw);
                }
                (PollStage::Finished, PollStep::Done(true))
            },
            PollStage::Finished => (PollStage::Finished, PollStep::Done(true)),
        };
        self.stage = stage;
        step
    }
}

/// Gameplay is active in each of the four game modes (osu!, taiko, catch,
/// mania): at the mode stage, a mode word that reads as an `i32` from 0 to 3
/// makes the poll go on to read the score at the gameplay base plus the
/// score offset; any other word, or a failed read, ends the poll alive with
/// nothing updated.
pub proof fn lemma_mode_gates_score(p: ClientPoll, base: usize, w: Option<u32>)
    requires
        p.stage == (PollStage::Mode { base }),
    ensures
        ({
            match w {
                Some(v) => if 0 <= (v as i32) && (v as i32) <= 3 {
                    spec_poll_next(p, w) == (PollStage::Score { base }, PollStep::Read(spec_addr(base, p.offsets.gameplay_score)))
                } else {
                    spec_poll_next(p, w) == (PollStage::Finished, PollStep::Done(true))
                },
                None => spec_poll_next(p, w) == (PollStage::Finished, PollStep::Done(true)),
            }
        }),
{
}

/// The mods bitfield read through a non-null `mods_ptr`: the xor of the two
/// mods words (a failed read counting as 0), when below `0x20000`.
pub open spec fn spec_read_mods(o: RulesetOffsets, mods_ptr: usize, mem: spec_fn(usize) -> Option<u32>) -> Option<u32> {
    let x1: u32 = match mem(spec_addr(mods_ptr, o.mods_xor1)) {
        Some(v) => v,
        None => 0,
    };
    let x2: u32 = match mem(spec_addr(mods_ptr, o.mods_xor2)) {
        Some(v) => v,
        None => 0,
    };
    let m = x1 ^ x2;
    if m < MODS_LIMIT { Some(m) } else { None }
}

/// What the gameplay data at `base` gives once gameplay is known to be
/// active: the score when it lies in `0..2_000_000_000` (a failed read
/// counting as 0) and the mods when the mods pointer is not null.
pub open spec fn spec_read_gameplay(o: RulesetOffsets, base: usize, mem: spec_fn(usize) -> Option<u32>) -> (bool, Option<i32>, Option<u32>) {
    let raw: i32 = match mem(spec_addr(base, o.gameplay_score)) {
        Some(v) => spec_word_i32(v),
        None => 0,
    };
    let score = if 0 <= raw < SCORE_LIMIT { Some(raw) } else { None };
    let mods_ptr: usize = match mem(spec_addr(base, o.mods_ptr)) {
        Some(v) => v as usize,
        None => 0,
    };
    (true, score, if mods_ptr == 0 { None } else { spec_read_mods(o, mods_ptr, mem) })
}

/// What the data behind a non-null gameplay pointer `g` gives: nothing to
/// update unless its base is a plausible pointer and its game mode is 0 to 3
/// (a failed read of the mode counting as -1).
pub open spec fn spec_read_from_gameplay_ptr(o: RulesetOffsets, g: u32, mem: spec_fn(usize) -> Option<u32>) -> (bool, Option<i32>, Option<u32>) {
    let base: usize = match mem(spec_addr(g as usize, o.gameplay_base)) {
        Some(b) => b as usize,
        None => 0,
    };
    if base == 0 || !spec_is_plausible_ptr(base) {
        (true, None, None)
    } else {
        let mode: i32 = match mem(spec_addr(base, o.mode)) {
            Some(v) => spec_word_i32(v),
            None => -1i32,
        };
        if !spec_is_gameplay_mode(mode) {
            (true, None, None)
        } else {
            spec_read_gameplay(o, base, mem)
        }
    }
}

/// The ruleset pointer found through the rulesets pattern, if both words of
/// the chain read and are not null.
pub open spec fn spec_resolve_ruleset(o: RulesetOffsets, rulesets_addr: usize, mem: spec_fn(usize) -> Option<u32>) -> Option<u32> {
    match mem(spec_offset_addr(rulesets_addr, o.ptr_offset)) {
        Some(p) if p != 0 => match mem(spec_addr(p as usize, o.ptr_deref)) {
            Some(r) if r != 0 => Some(r),
            _ => None,
        },
        _ => None,
    }
}

/// What reading the rulesets chain and the gameplay data of a client gives
/// when `mem` answers each word read (`None` for a failed read): whether the
/// process is alive, the score it sets and the mods bitfield it decodes. An
/// unresolved ruleset means alive exactly when the rulesets address reads; a
/// failed read of the gameplay pointer means dead; a null one means alive
/// with nothing to update.
pub open spec fn spec_read_client(
    o: RulesetOffsets,
    rulesets_addr: usize,
    mem: spec_fn(usize) -> Option<u32>,
) -> (bool, Option<i32>, Option<u32>) {
    match spec_resolve_ruleset(o, rulesets_addr, mem) {
        None => (mem(rulesets_addr) is Some, None, None),
        Some(r) => match mem(spec_addr(r as usize, o.gameplay_ptr)) {
            None => (false, None, None),
            Some(g) => if g == 0 {
                (true, None, None)
            } else {
                spec_read_from_gameplay_ptr(o, g, mem)
            },
        },
    }
}

/// Running a poll from `p`, whose last step asked `step`, with `mem`
/// answering each read, for at most `fuel` reads: whether it ends alive,
/// and the last score and mods bitfield its steps set.
pub open spec fn spec_run_poll(
    p: ClientPoll,
    step: PollStep,
    mem: spec_fn(usize) -> Option<u32>,
    fuel: nat,
) -> (bool, Option<i32>, Option<u32>)
    decreases fuel,
{
    match step {
        PollStep::Done(alive) => (alive, None, None),
        PollStep::Read(a) => if fuel == 0 {
            (false, None, None)
        } else {
            let w = mem(a);
            let (st, next) = spec_poll_next(p, w);
            let rest = spec_run_poll(ClientPoll { stage: st, ..p }, next, mem, (fuel - 1) as nat);
            (
                rest.0,
                if rest.1 is Some { rest.1 } else { spec_poll_score(p.stage, w) },
                if rest.2 is Some { rest.2 } else { spec_poll_mods(p.stage, w) },
            )
        },
    }
}

proof fn lemma_run_xor1(p: ClientPoll, mods_ptr: usize, mem: spec_fn(usize) -> Option<u32>, fuel: nat)
    requires
        fuel >= 2,
        p.stage == (PollStage::Xor1 { mods_ptr }),
    ensures
        spec_run_poll(p, PollStep::Read(spec_addr(mods_ptr, p.offsets.mods_xor1)), mem, fuel)
            == (true, None::<i32>, spec_read_mods(p.offsets, mods_ptr, mem)),
{
    reveal_with_fuel(spec_run_poll, 3);
}

proof fn lemma_run_gameplay(p: ClientPoll, base: usize, mem: spec_fn(usize) -> Option<u32>, fuel: nat)
    requires
        fuel >= 4,
        p.stage == (PollStage::Score { base }),
    ensures
        spec_run_poll(p, PollStep::Read(spec_addr(base, p.offsets.gameplay_score)), mem, fuel)
            == spec_read_gameplay(p.offsets, base, mem),
{
    reveal_with_fuel(spec_run_poll, 3);
    let o = p.offsets;
    let mods_ptr: usize = match mem(spec_addr(base, o.mods_ptr)) {
        Some(v) => v as usize,
        None => 0,
    };
    if mods_ptr != 0 {
        lemma_run_xor1(ClientPoll { stage: PollStage::Xor1 { mods_ptr }, ..p }, mods_ptr, mem, (fuel - 2) as nat);
    }
}

proof fn lemma_run_gameplay_ptr(p: ClientPoll, g: u32, mem: spec_fn(usize) -> Option<u32>, fuel: nat)
    requires
        fuel >= 6,
        g != 0,
        p.stage == PollStage::GameplayBase,
    ensures
        spec_run_poll(p, PollStep::Read(spec_addr(g as usize, p.offsets.gameplay_base)), mem, fuel)
            == spec_read_from_gameplay_ptr(p.offsets, g, mem),
{
    reveal_with_fuel(spec_run_poll, 3);
    let o = p.offsets;
    let base: usize = match mem(spec_addr(g as usize, o.gameplay_base)) {
        Some(b) => b as usize,
        None => 0,
    };
    if base != 0 && spec_is_plausible_ptr(base) {
        lemma_run_gameplay(ClientPoll { stage: PollStage::Score { base }, ..p }, base, mem, (fuel - 2) as nat);
    }
}

/// A poll started with `ClientPoll::start` and driven by `step`, each read
/// answered from the same memory, ends within ten reads and decides exactly
/// what reading the rulesets chain and gameplay data directly decides:
/// alive or not, and which score and mods it sets.
pub proof fn lemma_poll_reads_client(
    rulesets_addr: usize,
    o: RulesetOffsets,
    mem: spec_fn(usize) -> Option<u32>,
)
    ensures
        spec_run_poll(
            ClientPoll { stage: PollStage::RulesetsPtr, rulesets_addr, offsets: o },
            PollStep::Read(spec_offset_addr(rulesets_addr, o.ptr_offset)),
            mem,
            10,
        ) == spec_read_client(o, rulesets_addr, mem),
{
    reveal_with_fuel(spec_run_poll, 4);
    let p = ClientPoll { stage: PollStage::RulesetsPtr, rulesets_addr, offsets: o };
    match spec_resolve_ruleset(o, rulesets_addr, mem) {
        None => {},
        Some(r) => match mem(spec_addr(r as usize, o.gameplay_ptr)) {
            None => {},
            Some(g) => if g != 0 {
                lemma_run_gameplay_ptr(ClientPoll { stage: PollStage::GameplayBase, ..p }, g, mem, 7);
            },
        },
    }
}

/// A poll that finds the process dead changes neither score nor mods, and
/// one that finds no active gameplay (ruleset unresolved, null gameplay
/// pointer or base, implausible base, mode outside 0 to 3) reports the
/// process alive, or dead only when the rulesets address itself fails to
/// read, again without changes.
pub proof fn lemma_dead_or_idle_changes_nothing(
    o: RulesetOffsets,
    rulesets_addr: usize,
    mem: spec_fn(usize) -> Option<u32>,
)
    ensures
        !spec_read_client(o, rulesets_addr, mem).0 ==> spec_read_client(o, rulesets_addr, mem).1 is None
            && spec_read_client(o, rulesets_addr, mem).2 is None,
        spec_resolve_ruleset(o, rulesets_addr, mem) is None ==> spec_read_client(o, rulesets_addr, mem)
            == (mem(rulesets_addr) is Some, None::<i32>, None::<u32>),
{
}

/// Where a read of the beatmap id stands.
#[derive(Debug, Clone, Copy, PartialEq, Eq, Structural)]
pub enum BeatmapStage {
    /// Waiting for the beatmap pointer next to the base pattern.
    BeatmapPtr,
    /// Waiting for the beatmap id, through the beatmap pointer.
    MapId,
    /// Nothing more to read.
    Finished,
}

/// A read of the beatmap id that a client is playing.
#[derive(Debug, Clone, Copy)]
pub struct BeatmapPoll {
    pub stage: BeatmapStage,
    pub map_id: usize,
}

impl BeatmapPoll {
    /// Starts reading the beatmap of a client whose base pattern is at
    /// `base_addr`: asks for the word at the base address moved by
    /// `beatmap_ptr`.
    pub fn start(base_addr: usize, offsets: &Offsets) -> (r: (BeatmapPoll, PollStep))
        ensures
            r.0.stage == BeatmapStage::BeatmapPtr,
            r.0.map_id == offsets.beatmap.map_id,
            r.1 == PollStep::Read(spec_offset_addr(base_addr, offsets.base.beatmap_ptr)),
    {
        (
            BeatmapPoll { stage: BeatmapStage::BeatmapPtr, map_id: offsets.beatmap.map_id },
            PollStep::Read(offset_addr(base_addr, offsets.base.beatmap_ptr)),
        )
    }

    /// Takes the word that the last step asked for (`None` when it could not
    /// be read): a non-null beatmap pointer leads to the id, and a positive
    /// id replaces the one in `out`.
    pub fn step(&mut self, w: Option<u32>, out: &mut Beatmap) -> (r: PollStep)
        ensures
            final(self).map_id == old(self).map_id,
            match old(self).stage {
                BeatmapStage::BeatmapPtr => match w {
                    Some(p) if p != 0 => final(self).stage == BeatmapStage::MapId
                        && r == PollStep::Read(spec_addr(p as usize, old(self).map_id))
                        && *final(out) == *old(out),
                    _ => final(self).stage == BeatmapStage::Finished && r == PollStep::Done(true)
                        && *final(out) == *old(out),
                },
                BeatmapStage::MapId => final(self).stage == BeatmapStage::Finished
                    && r == PollStep::Done(true)
                    && final(out).id == match w {
                        Some(v) if spec_word_i32(v) > 0 => spec_word_i32(v),
                        _ => old(out).id,
                    },
                BeatmapStage::Finished => final(self).stage == BeatmapStage::Finished
                    && r == PollStep::Done(true) && *final(out) == *old(out),
            },
    {
        match self.stage {
            BeatmapStage::BeatmapPtr => match w {
                Some(p) if p != 0 => {
                    self.stage = BeatmapStage::MapId;
                    PollStep::Read(addr(p as usize, self.map_id))
                },
                _ => {
                    self.stage = BeatmapStage::Finished;
                    PollStep::Done(true)
                },
            },
            BeatmapStage::MapId => {
                if let Some(v) = w {
                    let id = v as i32;
                    if id > 0 {
                        out.id = id;
                    }
                }
                self.stage = BeatmapStage::Finished;
                PollStep::Done(true)
            },
            BeatmapStage::Finished => PollStep::Done(true),
        }
    }
}

/// The next thing a resolution of the ruleset pointer needs, or its outcome.
#[derive(Debug)]
pub enum ResolveStep {
    /// Read the little-endian 32-bit word at this address and hand it back.
    Read(usize),
    /// The ruleset is at this address.
    Resolved(usize),
    /// The ruleset could not be resolved.
    Failed(MemoryError),
}

/// Where a resolution of the ruleset pointer stands.
#[derive(Debug, Clone, Copy, PartialEq, Eq, Structural)]
pub enum ResolveStage {
    RulesetsPtr,
    Ruleset,
    Finished,
}

/// The resolution of a client's ruleset pointer from its rulesets pattern.
#[derive(Debug, Clone, Copy)]
pub struct RulesetResolve {
    pub stage: ResolveStage,
    pub ptr_deref: usize,
}

/// Whether `e` is a read failure with the message `msg`.
pub open spec fn spec_read_failed_with(e: MemoryError, msg: Seq<char>) -> bool {
    e matches MemoryError::ReadFailed(s) && s@ == msg
}

/// Whether a resolution step fails as a read failure with the message `msg`.
pub open spec fn spec_resolve_fails(r: ResolveStep, msg: Seq<char>) -> bool {
    r matches ResolveStep::Failed(e) && spec_read_failed_with(e, msg)
}

impl RulesetResolve {
    /// Starts resolving the ruleset of a client whose rulesets pattern is at
    /// `rulesets_addr`: asks for the word at the rulesets address moved by
    /// `ptr_offset`.
    pub fn start(rulesets_addr: usize, offsets: &RulesetOffsets) -> (r: (RulesetResolve, ResolveStep))
        ensures
            r.0.stage == ResolveStage::RulesetsPtr,
            r.0.ptr_deref == offsets.ptr_deref,
            r.1 == ResolveStep::Read(spec_offset_addr(rulesets_addr, offsets.ptr_offset)),
    {
        (
            RulesetResolve { stage: ResolveStage::RulesetsPtr, ptr_deref: offsets.ptr_deref },
            ResolveStep::Read(offset_addr(rulesets_addr, offsets.ptr_offset)),
        )
    }

    /// Takes the outcome of the read that the last step asked for: a failed
    /// read fails with its message, a null pointer fails with `Null rulesets
    /// ptr` or `Null ruleset`, and a non-null ruleset pointer is the result.
    pub fn step(&mut self, w: Result<u32, MemoryError>) -> (r: ResolveStep)
        requires
            old(self).stage != ResolveStage::Finished,
        ensures
            final(self).ptr_deref == old(self).ptr_deref,
            match w {
                Err(e) => final(self).stage == ResolveStage::Finished
                    && spec_resolve_fails(r, spec_error_message(e)),
                Ok(v) => if v == 0 {
                    final(self).stage == ResolveStage::Finished
                        && spec_resolve_fails(
                            r,
                            if old(self).stage == ResolveStage::RulesetsPtr {
                                "Null rulesets ptr"@
                            } else {
                                "Null ruleset"@
                            },
                        )
                } else if old(self).stage == ResolveStage::RulesetsPtr {
                    final(self).stage == ResolveStage::Ruleset
                        && r == ResolveStep::Read(spec_addr(v as usize, old(self).ptr_deref))
                } else {
                    final(self).stage == ResolveStage::Finished
                        && r == ResolveStep::Resolved(v as usize)
                },
            },
    {
        match w {
            Err(e) => {
                self.stage = ResolveStage::Finished;
                ResolveStep::Failed(MemoryError::ReadFailed(e.message()))
            },
            Ok(v) => {
                if v == 0 {
                    let msg = if self.stage == ResolveStage::RulesetsPtr {
                        String::from_str("Null rulesets ptr")
                    } else {
                        String::from_str("Null ruleset")
                    };
                    self.stage = ResolveStage::Finished;
                    ResolveStep::Failed(MemoryError::ReadFailed(msg))
                } else if self.stage == ResolveStage::RulesetsPtr {
                    self.stage = ResolveStage::Ruleset;
                    ResolveStep::Read(addr(v as usize, self.ptr_deref))
                } else {
                    self.stage = ResolveStage::Finished;
                    ResolveStep::Resolved(v as usize)
                }
            },
        }
    }
}

} // verus!
