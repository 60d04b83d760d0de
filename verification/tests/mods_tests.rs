use osu_tourney_data_reader::mods::{order_mods, parse_mods_bitfield, GameplayMods};

fn acronyms(m: &GameplayMods) -> Vec<String> {
    m.mods.iter().map(|x| x.acronym.clone()).collect()
}

#[test]
fn order_mods_canonical_order() {
    assert_eq!(order_mods("HDHR"), "HRHD");
    assert_eq!(order_mods("DTHDEZ"), "EZDTHD");
    assert_eq!(order_mods(""), "NM");
    assert_eq!(order_mods("xyz"), "NM");
    assert_eq!(order_mods("FL,HD"), "HDFL");
}

#[test]
fn nomod_bitfield() {
    let m = parse_mods_bitfield(0);
    assert!(m.mods.is_empty());
    assert_eq!(m.mods_string, "NM");
}

#[test]
fn hidden_double_time() {
    let m = parse_mods_bitfield(8 | 64);
    assert_eq!(acronyms(&m), vec!["DT", "HD"]);
    assert_eq!(m.mods_string, "DTHD");
    assert!(m.mods.iter().all(|x| x.settings.is_none()));
}

#[test]
fn nightcore_hidden_by_double_time_and_perfect_by_sudden_death() {
    let m = parse_mods_bitfield(64 | 512);
    assert_eq!(acronyms(&m), vec!["DT"]);
    let m = parse_mods_bitfield(512);
    assert_eq!(acronyms(&m), vec!["NC"]);
    let m = parse_mods_bitfield(32 | 16384);
    assert_eq!(acronyms(&m), vec!["SD"]);
    let m = parse_mods_bitfield(16384);
    assert_eq!(acronyms(&m), vec!["PF"]);
}

#[test]
fn unknown_bits_only_give_nomod() {
    let m = parse_mods_bitfield(2048);
    assert!(m.mods.is_empty());
    assert_eq!(m.mods_string, "NM");
}

#[test]
fn mods_string_reorders_the_joined_acronyms() {
    // "HT" followed by "DT" reads "HTDT", in which "TD" also occurs.
    let m = parse_mods_bitfield(256 | 64);
    assert_eq!(acronyms(&m), vec!["HT", "DT"]);
    assert_eq!(m.mods_string, "HTDTTD");
}

#[test]
fn every_known_bit() {
    let m = parse_mods_bitfield(1 | 2 | 4 | 8 | 16 | 128 | 1024 | 4096 | 8192);
    assert_eq!(acronyms(&m), vec!["EZ", "NF", "HR", "HD", "FL", "RX", "AP", "SO", "TD"]);
}

#[test]
fn default_mods_are_empty() {
    let m = GameplayMods::default();
    assert!(m.mods.is_empty());
    assert_eq!(m.mods_string, "");
}
