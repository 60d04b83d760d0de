use osu_tourney_data_reader::pattern::{
    after_region, find_pattern, parse_pattern, region_bytes_step, region_step, RegionInfo, ScanStep,
    MEM_COMMIT, PAGE_EXECUTE_READWRITE, PAGE_READWRITE,
};

#[test]
fn parse_pattern_wildcards_and_bytes() {
    let (p, m) = parse_pattern("8B 0D ?? ? FF");
    assert_eq!(p, vec![0x8b, 0x0d, 0, 0, 0xff]);
    assert_eq!(m, vec![true, true, false, false, true]);
}

#[test]
fn parse_pattern_skips_bad_tokens() {
    let (p, m) = parse_pattern("  zz 1 ??? 100 +7f\t");
    assert_eq!(p, vec![0x01, 0x7f]);
    assert_eq!(m, vec![true, true]);
    let (p, m) = parse_pattern("");
    assert!(p.is_empty() && m.is_empty());
}

#[test]
fn find_pattern_first_match_with_wildcards() {
    let data = [1u8, 2, 9, 4, 2, 7, 4, 0];
    assert_eq!(find_pattern(&data, &[2, 0, 4], &[true, false, true]), Some(1));
}

#[test]
fn find_pattern_never_tries_the_last_position() {
    // Offsets below data.len() - pattern.len() only.
    assert_eq!(find_pattern(&[1, 2, 3], &[2, 3], &[true, true]), None);
    assert_eq!(find_pattern(&[1, 2, 3, 4], &[2, 3], &[true, true]), Some(1));
}

#[test]
fn find_pattern_rejects_bad_patterns() {
    assert_eq!(find_pattern(&[1, 2, 3], &[], &[]), None);
    assert_eq!(find_pattern(&[1, 2, 3], &[1], &[true, true]), None);
}

#[test]
fn scan_steps() {
    let info = RegionInfo { base: 0x1000, size: 0x2000, state: MEM_COMMIT, protect: PAGE_READWRITE };
    assert_eq!(region_step(info), ScanStep::ReadRegion { base: 0x1000, size: 0x2000 });
    let guarded = RegionInfo { protect: 0x104, ..info };
    assert_eq!(region_step(guarded), ScanStep::QueryRegion(0x3000));
    let reserved = RegionInfo { state: 0x2000, protect: PAGE_EXECUTE_READWRITE, ..info };
    assert_eq!(region_step(reserved), ScanStep::QueryRegion(0x3000));
    assert_eq!(after_region(usize::MAX - 0xfff, 0x1000), ScanStep::NotFound);
    let bytes = [0u8, 0xaa, 0xbb, 0xcc, 0];
    assert_eq!(
        region_bytes_step(0x1000, 5, Some(&bytes), &[0xbb, 0xcc], &[true, true]),
        ScanStep::Found(0x1002)
    );
    assert_eq!(region_bytes_step(0x1000, 5, None, &[0xbb], &[true]), ScanStep::QueryRegion(0x1005));
    assert_eq!(
        region_bytes_step(0x1000, 5, Some(&bytes), &[0xdd], &[true]),
        ScanStep::QueryRegion(0x1005)
    );
}

#[test]
fn pattern_text_round_trip() {
    let bytes: Vec<u8> = vec![0x8B, 0x00, 0x0D, 0xFF, 0x00, 0x5A];
    let mask = vec![true, false, true, true, false, true];
    let text = bytes
        .iter()
        .zip(mask.iter())
        .map(|(b, m)| if *m { format!("{:02X}", b) } else { "??".to_string() })
        .collect::<Vec<_>>()
        .join(" ");
    assert_eq!(text, "8B ?? 0D FF ?? 5A");
    assert_eq!(parse_pattern(&text), (bytes, mask));
}
