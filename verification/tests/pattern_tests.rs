use re_utilities::pattern::{find_first_match, parse_pattern, PatByte};
use std::io::Cursor;

#[test]
fn parse_mixed_case_and_wildcards() {
    let toks = parse_pattern("fe ? 7C").unwrap();
    assert_eq!(
        toks,
        vec![PatByte::Exact(0xFE), PatByte::Wildcard, PatByte::Exact(0x7C)]
    );
}

#[test]
fn parse_accepts_extra_whitespace() {
    let toks = parse_pattern("  E8   ?\t00 ").unwrap();
    assert_eq!(
        toks,
        vec![PatByte::Exact(0xE8), PatByte::Wildcard, PatByte::Exact(0x00)]
    );
}

#[test]
fn parse_rejects_three_digit_token() {
    assert!(parse_pattern("10 fff 20").is_none());
}

#[test]
fn parse_rejects_single_digit_token() {
    assert!(parse_pattern("10 f 20").is_none());
}

#[test]
fn parse_rejects_empty_pattern() {
    assert!(parse_pattern("").is_none());
    assert!(parse_pattern("   ").is_none());
}

#[test]
fn parse_rejects_non_hex() {
    assert!(parse_pattern("zz").is_none());
    assert!(parse_pattern("1g").is_none());
    assert!(parse_pattern("??").is_none());
}

#[test]
fn find_match_at_start() {
    let bytes = [0x10u8, 0x20, 0x30, 0x40, 0x50];
    let toks = parse_pattern("10 20 30").unwrap();
    assert_eq!(find_first_match(&bytes, &toks, 0), Some(0));
}

#[test]
fn find_match_in_middle() {
    let bytes = [0x10u8, 0x20, 0x30, 0x40, 0x50];
    let toks = parse_pattern("20 30 40").unwrap();
    assert_eq!(find_first_match(&bytes, &toks, 0), Some(1));
}

#[test]
fn find_match_with_wildcards() {
    let bytes = [0xffu8, 0xfe, 0x7c, 0x88, 0xfd, 0x90, 0x00];
    let toks = parse_pattern("fe ? ? ? 90").unwrap();
    assert_eq!(find_first_match(&bytes, &toks, 0), Some(1));
    let toks2 = parse_pattern("? ? ? ? fd").unwrap();
    assert_eq!(find_first_match(&bytes, &toks2, 0), Some(0));
}

#[test]
fn find_no_match_past_end() {
    let bytes = [0x10u8, 0x20, 0x30, 0x40, 0x50];
    let toks = parse_pattern("40 50 60").unwrap();
    assert_eq!(find_first_match(&bytes, &toks, 0), None);
}

#[test]
fn find_pattern_longer_than_bytes() {
    let bytes = [0x10u8, 0x20];
    let toks = parse_pattern("10 20 30").unwrap();
    assert_eq!(find_first_match(&bytes, &toks, 0), None);
}

#[test]
fn find_first_of_repeated_occurrences() {
    let bytes = [0x10u8, 0x20, 0x30, 0x10, 0x20, 0x30];
    let toks = parse_pattern("10 20 30").unwrap();
    assert_eq!(find_first_match(&bytes, &toks, 0), Some(0));
    assert_eq!(find_first_match(&bytes, &toks, 1), Some(3));
}

#[test]
fn find_agrees_with_patternscan() {
    let bytes = [0xffu8, 0xfe, 0x7c, 0x88, 0xfd, 0x90, 0x00, 0x7c, 0x88];
    let patterns = ["fe 7c", "7c 88", "? 88", "90 00 7c", "aa bb", "fd ? 00"];
    for p in patterns.iter() {
        let mine = parse_pattern(p).and_then(|toks| find_first_match(&bytes, &toks, 0));
        let theirs = patternscan::scan_first_match(Cursor::new(&bytes[..]), p).unwrap();
        assert_eq!(mine, theirs);
    }
}
