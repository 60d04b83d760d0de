use std::collections::HashMap;

use osu_tourney_data_reader::error::MemoryError;
use osu_tourney_data_reader::finder::{
    build_anchors, filter_candidates, finder_clients, finder_pointer_paths, nearest_anchor,
    parse_finder_command, parse_num, path_line, resolve_gate, run_finder, FinderCommand, PathProbe,
    ResolveGate,
};
use osu_tourney_data_reader::supervisor::{LoopAction, LoopEvent, Supervisor};
use osu_tourney_data_reader::tourney::TourneyState;

fn cs(s: &str) -> Vec<char> {
    s.chars().collect()
}

#[test]
fn finder_needs_windows() {
    assert_eq!(run_finder().unwrap_err(), "find-offset is only supported on Windows");
}

#[test]
fn commands() {
    assert_eq!(parse_finder_command("q"), FinderCommand::Quit);
    assert_eq!(parse_finder_command(""), FinderCommand::Nothing);
    assert_eq!(parse_finder_command("b"), FinderCommand::Rebaseline);
    assert_eq!(parse_finder_command("r"), FinderCommand::Resolve { depth: 6, max_off: 0x400 });
    assert_eq!(parse_finder_command("r 3 0x80"), FinderCommand::Resolve { depth: 3, max_off: 0x80 });
    assert_eq!(parse_finder_command("r x 100"), FinderCommand::Resolve { depth: 6, max_off: 100 });
    assert_eq!(parse_finder_command("-42"), FinderCommand::Filter(-42));
    assert_eq!(parse_finder_command("rr"), FinderCommand::Unknown);
    assert_eq!(parse_num(&cs("0x1F")), Some(31));
    assert_eq!(parse_num(&cs("31")), Some(31));
    assert_eq!(parse_num(&cs("0xg")), None);
}

#[test]
fn candidates_keep_matching_values() {
    let mut c = vec![(0x10, 1), (0x20, 2), (0x30, 3)];
    filter_candidates(&mut c, &[Some(7), None, Some(6)], 7);
    assert_eq!(c, vec![(0x10, 7)]);
}

#[test]
fn finder_client_choice() {
    let mut t = HashMap::new();
    t.insert(2u32, "osu! [Tournament Client]".to_string());
    assert_eq!(finder_clients(Err(MemoryError::ProcessNotFound), &[1, 2, 3], &t), vec![(0, 1), (0, 3)]);
    assert_eq!(finder_clients(Ok((9, vec![(1, 4)])), &[1, 2, 3], &t), vec![(1, 4)]);
}

#[test]
fn anchors_and_nearest() {
    let a = build_anchors(0, 0x5000, 0x4000, 0, 0x1000);
    assert_eq!(a, vec![("gameplayBase", 0x5000), ("ruleset", 0x4000), ("baseAddr", 0x1000)]);
    assert_eq!(nearest_anchor(&a, 0x4100), Some((1, 0x100)));
    assert_eq!(nearest_anchor(&a, 0x0800), Some((2, -0x800)));
    assert_eq!(nearest_anchor(&[("a", 10), ("b", 30)], 20), Some((0, 10)));
    assert_eq!(nearest_anchor(&[], 20), None);
    assert_eq!(resolve_gate(11), ResolveGate::TooMany);
    assert_eq!(resolve_gate(0), ResolveGate::Empty);
    assert_eq!(resolve_gate(10), ResolveGate::Go);
}

#[test]
fn path_lines() {
    assert_eq!(path_line("scoreBase", &[16, 4]), "    scoreBase + [16, 4]");
    assert_eq!(path_line("ruleset", &[120]), "    ruleset + [120]   <- gameplay_score_spectator = 120");
    assert_eq!(path_line("ruleset", &[1, 2]), "    ruleset + [1, 2]");
}

#[test]
fn pointer_paths_direct_and_through_pointers() {
    let anchors = [("base", 0x1000usize), ("other", 0x9000)];
    // Direct: the target is just above an anchor.
    let paths = finder_pointer_paths(&[], &anchors, 0x1010, 3, 0x100);
    assert_eq!(paths, vec![("base", vec![0x10])]);
    // Through one pointer: 0x1008 holds 0x5000, the target is 0x5020.
    let mut map = vec![(0x5000usize, 0x1008usize), (0x7000, 0x2000)];
    map.sort();
    let paths = finder_pointer_paths(&map, &anchors, 0x5020, 3, 0x100);
    assert_eq!(paths, vec![("base", vec![0x8, 0x20])]);
    // Too deep for a depth of 0.
    assert!(finder_pointer_paths(&map, &anchors, 0x5020, 0, 0x100).is_empty());
    // Two pointers: 0x1004 -> 0x6000, 0x6010 -> 0x8000, target 0x8004.
    let mut map = vec![(0x6000usize, 0x1004usize), (0x8000, 0x6010)];
    map.sort();
    let paths = finder_pointer_paths(&map, &anchors, 0x8004, 3, 0x100);
    assert_eq!(paths, vec![("base", vec![0x4, 0x10, 0x4])]);
}

#[test]
fn path_probe_reads_near_anchors() {
    let anchors = vec![("a", 0x10000usize)];
    let mut mem: HashMap<usize, u32> = HashMap::new();
    mem.insert(0x10008, 0x20000);
    mem.insert(0x10004, 0x30000);
    mem.insert(0x30010, 0x40000);
    let target = 0x40020usize;
    let (mut probe, mut next) = PathProbe::start(anchors, target);
    let mut reads = 0usize;
    while let Some(a) = next {
        reads += 1;
        next = probe.step(mem.get(&a).copied());
    }
    assert_eq!(probe.paths, vec![("a", vec![0x4, 0x10, 0x20])]);
    assert_eq!(reads, 256 + 64 + 64 + 64);
    let (probe, next) = PathProbe::start(vec![("a", 0x40000)], 0x40020);
    assert_eq!(probe.paths, vec![("a", vec![0x20])]);
    assert_eq!(next, Some(0x40000));
}

#[test]
fn supervisor_validates_every_62_polls() {
    let mut s = Supervisor::new();
    assert_eq!(s.on_state(TourneyState::Scanning), LoopAction::Connect);
    assert_eq!(s.after_connect(false), LoopAction::WaitToScan);
    assert_eq!(s.on_state(TourneyState::Connected), LoopAction::WaitThenPoll);
    for _ in 0..61 {
        assert_eq!(s.after_poll(true), LoopAction::Continue);
    }
    assert_eq!(s.after_poll(true), LoopAction::Validate);
    assert_eq!(s.poll_count, 0);
    assert_eq!(s.after_validate(false), LoopAction::Disconnect);
    assert_eq!(s.after_poll(false), LoopAction::Disconnect);
}

#[test]
fn pointer_search_prefers_the_shortest_chain() {
    let anchors = vec![("base", 0x1000usize)];
    // A two-pointer chain 0x1004 -> 0x6000, 0x6010 -> 0x8000, and a direct
    // pointer 0x1020 -> 0x8000; the target is 0x8004.
    let mut map = vec![(0x6000usize, 0x1004usize), (0x8000, 0x6010), (0x8000, 0x1020)];
    map.sort();
    let paths = finder_pointer_paths(&map, &anchors, 0x8004, 3, 0x100);
    assert_eq!(paths, vec![("base", vec![0x20, 0x4])]);
}

#[test]
fn main_loop_detaches_after_a_failed_poll() {
    let mut s = Supervisor::new();
    assert_eq!(s.step(LoopEvent::State(TourneyState::Scanning)), LoopAction::Connect);
    assert_eq!(s.step(LoopEvent::Connected(false)), LoopAction::WaitToScan);
    assert_eq!(s.step(LoopEvent::Slept), LoopAction::Continue);
    assert_eq!(s.step(LoopEvent::State(TourneyState::Scanning)), LoopAction::Connect);
    assert_eq!(s.step(LoopEvent::Connected(true)), LoopAction::Continue);
    assert_eq!(s.step(LoopEvent::State(TourneyState::Connected)), LoopAction::WaitThenPoll);
    for _ in 0..61 {
        assert_eq!(s.step(LoopEvent::Polled(true)), LoopAction::Continue);
        assert_eq!(s.step(LoopEvent::State(TourneyState::Connected)), LoopAction::WaitThenPoll);
    }
    assert_eq!(s.step(LoopEvent::Polled(true)), LoopAction::Validate);
    assert_eq!(s.step(LoopEvent::Validated(true)), LoopAction::Continue);
    assert_eq!(s.step(LoopEvent::State(TourneyState::Connected)), LoopAction::WaitThenPoll);
    assert_eq!(s.step(LoopEvent::Polled(false)), LoopAction::Disconnect);
    assert_eq!(s.step(LoopEvent::Disconnected), LoopAction::Continue);
    assert_eq!(s.step(LoopEvent::State(TourneyState::Scanning)), LoopAction::Connect);
    assert_eq!(s.poll_count, 0);
}

#[test]
fn checks_count_polls_since_the_last_search() {
    let mut s = Supervisor::new();
    assert_eq!(s.step(LoopEvent::State(TourneyState::Connected)), LoopAction::WaitThenPoll);
    for _ in 0..30 {
        assert_eq!(s.step(LoopEvent::Polled(true)), LoopAction::Continue);
        assert_eq!(s.step(LoopEvent::State(TourneyState::Connected)), LoopAction::WaitThenPoll);
    }
    assert_eq!(s.step(LoopEvent::Polled(false)), LoopAction::Disconnect);
    assert_eq!(s.step(LoopEvent::Disconnected), LoopAction::Continue);
    assert_eq!(s.step(LoopEvent::State(TourneyState::Scanning)), LoopAction::Connect);
    assert_eq!(s.step(LoopEvent::Connected(true)), LoopAction::Continue);
    let mut checks = Vec::new();
    for n in 1..=124u32 {
        assert_eq!(s.step(LoopEvent::State(TourneyState::Connected)), LoopAction::WaitThenPoll);
        if s.step(LoopEvent::Polled(true)) == LoopAction::Validate {
            checks.push(n);
            assert_eq!(s.step(LoopEvent::Validated(true)), LoopAction::Continue);
        }
    }
    assert_eq!(checks, vec![62, 124]);
}
