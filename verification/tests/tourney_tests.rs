use std::collections::HashMap;

use osu_tourney_data_reader::error::MemoryError;
use osu_tourney_data_reader::tourney::{
    is_plausible_ptr, team_of_slot, team_size, Beatmap, BeatmapOffsets, BeatmapPoll, BaseOffsets,
    ClientPoll, Offsets, PatternOffsets, PollStep, ResolveStep, RulesetOffsets, RulesetResolve,
    TourneyClient, TourneyData, TourneyState,
};

fn ruleset_offsets() -> RulesetOffsets {
    RulesetOffsets {
        ptr_offset: -0xb,
        ptr_deref: 0x4,
        gameplay_ptr: 0x68,
        gameplay_base: 0x38,
        gameplay_score: 0x78,
        mode: 0x64,
        mods_ptr: 0x1c,
        mods_xor1: 0xc,
        mods_xor2: 0x8,
    }
}

fn offsets() -> Offsets {
    Offsets {
        patterns: PatternOffsets { base: "F8 01 74 04".to_string(), rulesets: "7D 15 A1".to_string() },
        base: BaseOffsets { beatmap_ptr: -0xc },
        beatmap: BeatmapOffsets { map_id: 0xc8 },
        ruleset: ruleset_offsets(),
    }
}

/// A client's memory while it plays: rulesets at 0x20000, score 123456, HD|DT.
fn playing_memory() -> HashMap<usize, u32> {
    let o = ruleset_offsets();
    let rulesets = 0x20000usize;
    let mut m = HashMap::new();
    m.insert(rulesets, 1);
    m.insert(rulesets - 0xb, 0x30000);
    m.insert(0x30000 + o.ptr_deref, 0x40000);
    m.insert(0x40000 + o.gameplay_ptr, 0x50000);
    m.insert(0x50000 + o.gameplay_base, 0x60000);
    m.insert(0x60000 + o.mode, 0);
    m.insert(0x60000 + o.gameplay_score, 123456);
    m.insert(0x60000 + o.mods_ptr, 0x70000);
    m.insert(0x70000 + o.mods_xor1, 0x5555_0000 ^ 72);
    m.insert(0x70000 + o.mods_xor2, 0x5555_0000);
    m
}

fn run_poll(mem: &HashMap<usize, u32>, out: &mut TourneyClient) -> (bool, usize) {
    let (mut poll, mut step) = ClientPoll::start(3, 0x20000, &ruleset_offsets(), out);
    let mut reads = 0;
    loop {
        match step {
            PollStep::Read(a) => {
                reads += 1;
                step = poll.step(mem.get(&a).copied(), out);
            }
            PollStep::Done(alive) => return (alive, reads),
        }
    }
}

#[test]
fn poll_reads_score_and_mods() {
    let mem = playing_memory();
    let mut out = TourneyClient::default();
    let (alive, reads) = run_poll(&mem, &mut out);
    assert!(alive);
    assert_eq!(reads, 9);
    assert_eq!(out.slot, 3);
    assert_eq!(out.score, 123456);
    assert_eq!(out.mods.mods_string, "DTHD");
}

#[test]
fn poll_keeps_values_outside_gameplay() {
    let mut mem = playing_memory();
    mem.insert(0x60000 + ruleset_offsets().mode, 7);
    let mut out = TourneyClient::default();
    out.score = 99;
    let (alive, _) = run_poll(&mem, &mut out);
    assert!(alive);
    assert_eq!(out.score, 99);
    assert_eq!(out.mods.mods_string, "");
}

#[test]
fn poll_ignores_implausible_scores_and_mods() {
    let o = ruleset_offsets();
    let mut mem = playing_memory();
    mem.insert(0x60000 + o.gameplay_score, 2_000_000_000);
    mem.insert(0x70000 + o.mods_xor1, 0x20000);
    mem.insert(0x70000 + o.mods_xor2, 0);
    let mut out = TourneyClient::default();
    out.score = 5;
    let (alive, _) = run_poll(&mem, &mut out);
    assert!(alive);
    assert_eq!(out.score, 5);
    assert_eq!(out.mods.mods_string, "");
}

#[test]
fn poll_dead_and_idle_processes() {
    // Nothing readable: the ruleset does not resolve and the rulesets address fails.
    let mut out = TourneyClient::default();
    let (alive, reads) = run_poll(&HashMap::new(), &mut out);
    assert!(!alive);
    assert_eq!(reads, 2);
    // The rulesets address reads but the chain is null: idle.
    let mut mem = HashMap::new();
    mem.insert(0x20000usize, 0u32);
    let (alive, _) = run_poll(&mem, &mut out);
    assert!(alive);
    // The gameplay pointer fails to read: dead.
    let mut mem = playing_memory();
    mem.remove(&(0x40000 + ruleset_offsets().gameplay_ptr));
    let (alive, _) = run_poll(&mem, &mut out);
    assert!(!alive);
    // An implausible base: alive, nothing read.
    let mut mem = playing_memory();
    mem.insert(0x50000 + ruleset_offsets().gameplay_base, 0x100);
    let mut out = TourneyClient::default();
    let (alive, reads) = run_poll(&mem, &mut out);
    assert!(alive);
    assert_eq!(reads, 4);
    assert_eq!(out.score, 0);
}

#[test]
fn beatmap_id_is_read_when_positive() {
    let o = offsets();
    let mut mem: HashMap<usize, u32> = HashMap::new();
    mem.insert(0x9000 - 0xc, 0x80000);
    mem.insert(0x80000 + 0xc8, 4242);
    let mut beatmap = Beatmap { id: 7 };
    let (mut poll, mut step) = BeatmapPoll::start(0x9000, &o);
    while let PollStep::Read(a) = step {
        step = poll.step(mem.get(&a).copied(), &mut beatmap);
    }
    assert_eq!(beatmap.id, 4242);
    mem.insert(0x80000 + 0xc8, (-5i32) as u32);
    let (mut poll, mut step) = BeatmapPoll::start(0x9000, &o);
    while let PollStep::Read(a) = step {
        step = poll.step(mem.get(&a).copied(), &mut beatmap);
    }
    assert_eq!(beatmap.id, 4242);
}

#[test]
fn ruleset_resolution_outcomes() {
    let o = ruleset_offsets();
    let (mut r, step) = RulesetResolve::start(0x20000, &o);
    assert!(matches!(step, ResolveStep::Read(0x1fff5)));
    assert!(matches!(r.step(Ok(0x30000)), ResolveStep::Read(0x30004)));
    assert!(matches!(r.step(Ok(0x40000)), ResolveStep::Resolved(0x40000)));

    let (mut r, _) = RulesetResolve::start(0x20000, &o);
    match r.step(Ok(0)) {
        ResolveStep::Failed(MemoryError::ReadFailed(s)) => assert_eq!(s, "Null rulesets ptr"),
        _ => panic!("expected a failure"),
    }
    let (mut r, _) = RulesetResolve::start(0x20000, &o);
    let _ = r.step(Ok(0x30000));
    match r.step(Ok(0)) {
        ResolveStep::Failed(MemoryError::ReadFailed(s)) => assert_eq!(s, "Null ruleset"),
        _ => panic!("expected a failure"),
    }
    let (mut r, _) = RulesetResolve::start(0x20000, &o);
    match r.step(Err(MemoryError::ReadFailed("ReadProcessMemory failed: 299".to_string()))) {
        ResolveStep::Failed(MemoryError::ReadFailed(s)) => {
            assert_eq!(s, "Read failed: ReadProcessMemory failed: 299")
        }
        _ => panic!("expected a failure"),
    }
}

#[test]
fn data_connect_resize_disconnect() {
    let mut d = TourneyData::default();
    assert_eq!(d.state, TourneyState::Scanning);
    d.beatmap.id = 11;
    d.connect(4);
    assert_eq!(d.state, TourneyState::Connected);
    assert_eq!(d.clients.len(), 4);
    d.clients[1].score = 500;
    d.resize_clients(2);
    assert_eq!(d.clients.len(), 2);
    assert_eq!(d.clients[1].score, 500);
    d.resize_clients(3);
    assert_eq!(d.clients[2].score, 0);
    d.disconnect();
    assert_eq!(d.state, TourneyState::Scanning);
    assert!(d.clients.is_empty());
    assert_eq!(d.beatmap.id, 11);
}

#[test]
fn teams_from_slots() {
    assert_eq!(team_size(8), 4);
    assert_eq!(team_size(1), 0);
    assert_eq!(team_of_slot(0, 4), 0);
    assert_eq!(team_of_slot(3, 4), 0);
    assert_eq!(team_of_slot(4, 4), 1);
    assert_eq!(team_of_slot(7, 4), 1);
    assert_eq!(team_of_slot(-3, 2), 0);
    let mut d = TourneyData::default();
    d.connect(4);
    d.clients[3].slot = 3;
    d.assign_team(3, 2);
    assert_eq!(d.clients[3].team, 1);
    d.assign_team(3, 0);
    assert_eq!(d.clients[3].team, 1);
}

#[test]
fn three_clients_stay_on_two_teams() {
    let ts = team_size(3);
    assert_eq!(ts, 1);
    let mut d = TourneyData::default();
    d.connect(3);
    for i in 0..3 {
        d.clients[i].slot = i as i32;
        d.assign_team(i, ts);
    }
    let teams: Vec<i32> = d.clients.iter().map(|c| c.team).collect();
    assert_eq!(teams, vec![0, 1, 1]);
}

#[test]
fn four_clients_split_in_halves() {
    let ts = team_size(4);
    let mut d = TourneyData::default();
    d.connect(4);
    for i in 0..4 {
        d.clients[i].slot = i as i32;
        d.assign_team(i, ts);
    }
    let teams: Vec<i32> = d.clients.iter().map(|c| c.team).collect();
    assert_eq!(teams, vec![0, 0, 1, 1]);
}

#[test]
fn plausible_pointers() {
    assert!(!is_plausible_ptr(0xffff));
    assert!(is_plausible_ptr(0x1_0000));
    assert!(is_plausible_ptr(0xffff_ffff));
    assert!(!is_plausible_ptr(0x1_0000_0000));
}
