use std::collections::HashMap;

use osu_tourney_data_reader::error::MemoryError;
use osu_tourney_data_reader::processes::{
    identify_tourney_processes, is_lazer_title, is_osu_process_name, record_window,
    resolve_client_pids, same_client_pids, title_kind, without_lazer, TitleKind,
};
use osu_tourney_data_reader::reader::{
    connect_after_find, connect_after_identify, connect_after_init, connect_begin, init_error,
    poll_gate, validate_begin, validate_finish, ConnectStep, InitStage,
};

fn titles(entries: &[(u32, &str)]) -> HashMap<u32, String> {
    entries.iter().map(|(p, t)| (*p, t.to_string())).collect()
}

#[test]
fn lazer_titles_and_process_names() {
    assert!(is_lazer_title("osu! [TOURNAMENT CLIENT]"));
    assert!(!is_lazer_title("Tournament Client 0"));
    assert!(is_osu_process_name("OSU!.EXE"));
    assert!(is_osu_process_name("osu!.exe"));
    assert!(!is_osu_process_name("osu!lazer.exe"));
}

#[test]
fn title_kinds() {
    assert_eq!(title_kind("Tournament Client 3"), TitleKind::Client(3));
    assert_eq!(title_kind("  Tournament Client  12 "), TitleKind::Client(12));
    assert_eq!(title_kind("Tournament Client x"), TitleKind::Other);
    assert_eq!(title_kind("GDI+ Window (osu!.exe)"), TitleKind::Manager);
    assert_eq!(title_kind("osu!"), TitleKind::Other);
}

#[test]
fn identify_sorts_clients_by_slot() {
    let t = titles(&[
        (10, "Tournament Client 2"),
        (11, "GDI+ Window (osu!)"),
        (12, "Tournament Client 0"),
        (13, "Tournament Client 1"),
        (14, "osu!"),
    ]);
    let (manager, clients) = identify_tourney_processes(&[10, 11, 12, 13, 14, 15], &t).unwrap();
    assert_eq!(manager, 11);
    assert_eq!(clients, vec![(0, 12), (1, 13), (2, 10)]);
}

#[test]
fn identify_duplicate_and_missing_manager() {
    let t = titles(&[(1, "Tournament Client 0"), (2, "Tournament Client 0"), (3, "GDI+ Window")]);
    match identify_tourney_processes(&[1, 2, 3], &t) {
        Err(MemoryError::ReadFailed(s)) => assert_eq!(s, "Duplicate Tournament Client 0"),
        _ => panic!("expected a duplicate"),
    }
    let t = titles(&[(1, "Tournament Client -4")]);
    assert!(matches!(identify_tourney_processes(&[1], &t), Err(MemoryError::ProcessNotFound)));
}

#[test]
fn resolve_pids() {
    let (c, fallback) = resolve_client_pids(Ok((1, vec![(0, 5)])), &[5, 1], false).unwrap();
    assert_eq!(c, vec![(0, 5)]);
    assert!(!fallback);
    let (c, fallback) = resolve_client_pids(Ok((1, vec![])), &[7, 8], true).unwrap();
    assert_eq!(c, vec![(0, 7)]);
    assert!(fallback);
    assert!(matches!(resolve_client_pids(Ok((1, vec![])), &[7], false), Err(MemoryError::ProcessNotFound)));
    assert!(matches!(resolve_client_pids(Err(MemoryError::InvalidString), &[7], false), Err(MemoryError::InvalidString)));
    assert!(matches!(resolve_client_pids(Err(MemoryError::InvalidString), &[], true), Err(MemoryError::ProcessNotFound)));
}

#[test]
fn window_records_prefer_tournament_client_titles() {
    let mut t = HashMap::new();
    record_window(&mut t, 1, "Tournament Client 0".to_string());
    record_window(&mut t, 1, "osu! something".to_string());
    assert_eq!(t[&1], "Tournament Client 0");
    record_window(&mut t, 2, "Notepad".to_string());
    assert!(!t.contains_key(&2));
    record_window(&mut t, 3, "osu!".to_string());
    record_window(&mut t, 3, "GDI+ Window Tournament".to_string());
    assert_eq!(t[&3], "GDI+ Window Tournament");
}

#[test]
fn lazer_instances_are_dropped() {
    let t = titles(&[(2, "osu! [Tournament Client]"), (3, "osu!")]);
    assert_eq!(without_lazer(&[1, 2, 3], &t), vec![1, 3]);
}

#[test]
fn same_pids() {
    assert!(same_client_pids(&[(0, 5), (1, 6)], &[5, 6]));
    assert!(!same_client_pids(&[(0, 5), (1, 7)], &[5, 6]));
    assert!(!same_client_pids(&[(0, 5)], &[5, 6]));
}

#[test]
fn connect_steps() {
    assert!(matches!(connect_begin(false), ConnectStep::Fail));
    assert!(matches!(connect_begin(true), ConnectStep::FindProcesses));
    assert!(matches!(connect_after_find(Ok(vec![])), ConnectStep::Fail));
    assert!(matches!(connect_after_find(Err(MemoryError::ProcessNotFound)), ConnectStep::Fail));
    assert!(matches!(connect_after_find(Ok(vec![4])), ConnectStep::Identify(_)));
    match connect_after_identify(Err(MemoryError::ProcessNotFound), &[9], true) {
        ConnectStep::InitClients(c, fallback) => {
            assert_eq!(c, vec![(0, 9)]);
            assert!(fallback);
        }
        _ => panic!("expected clients"),
    }
    assert!(matches!(connect_after_identify(Err(MemoryError::ProcessNotFound), &[9], false), ConnectStep::Fail));
    assert!(matches!(connect_after_init(0), ConnectStep::Fail));
    assert!(matches!(connect_after_init(2), ConnectStep::Commit(2)));
}

#[test]
fn validation() {
    assert_eq!(validate_begin(0), Some(true));
    assert_eq!(validate_begin(2), None);
    assert!(validate_finish(Ok((vec![(0, 5), (1, 6)], false)), &[5, 6]));
    assert!(!validate_finish(Ok((vec![(0, 5), (1, 6)], false)), &[5]));
    assert!(!validate_finish(Err(MemoryError::ProcessNotFound), &[5]));
}

#[test]
fn init_errors() {
    match init_error(InitStage::RulesetsScan, 2, &MemoryError::ReadFailed("Pattern not found".to_string())) {
        MemoryError::ReadFailed(s) => assert_eq!(s, "Client 2 rulesets pattern scan failed: Read failed: Pattern not found"),
        _ => panic!(),
    }
    match init_error(InitStage::Open, -1, &MemoryError::ProcessNotFound) {
        MemoryError::ReadFailed(s) => assert_eq!(s, "Failed to open client -1: Process not found"),
        _ => panic!(),
    }
    match init_error(InitStage::BaseScan, 0, &MemoryError::InvalidString) {
        MemoryError::ReadFailed(s) => assert_eq!(s, "Client 0 base pattern scan failed: Invalid string"),
        _ => panic!(),
    }
}

#[test]
fn poll_answers_before_reading() {
    assert_eq!(poll_gate(false, 2), Some(false));
    assert_eq!(poll_gate(true, 0), Some(true));
    assert_eq!(poll_gate(false, 0), Some(false));
    assert_eq!(poll_gate(true, 2), None);
}
