use etch341::inspect::{byte_match_ci, extract_strings, find_pattern, parse_hex_needle};

#[test]
fn parse_hex_needle_picks_hex_for_even_hexdigit_input() {
    assert_eq!(parse_hex_needle("55AA"), vec![0x55, 0xAA]);
    assert_eq!(parse_hex_needle("55 AA"), vec![0x55, 0xAA]);
    assert_eq!(parse_hex_needle("DEADBEEF"), vec![0xDE, 0xAD, 0xBE, 0xEF]);
}

#[test]
fn parse_hex_needle_falls_back_to_ascii_for_odd_or_non_hex() {
    assert_eq!(parse_hex_needle("ABC"), b"ABC".to_vec());
    assert_eq!(parse_hex_needle("NVIDIA"), b"NVIDIA".to_vec());
    assert_eq!(parse_hex_needle(""), Vec::<u8>::new());
}

#[test]
fn extract_strings_finds_runs() {
    let bytes = b"\x00\x00Hello\x00World!\x00\x00";
    let r = extract_strings(bytes, 4);
    assert_eq!(r.len(), 2);
    assert_eq!(r[0], (2, "Hello".to_string()));
    assert_eq!(r[1], (8, "World!".to_string()));
}

#[test]
fn extract_strings_respects_min_len() {
    let bytes = b"abc\x00longerstring\x00xy";
    let r = extract_strings(bytes, 4);
    assert_eq!(r, vec![(4, "longerstring".to_string())]);
}

#[test]
fn extract_strings_keeps_trailing_run_without_terminator() {
    let bytes = b"trailing";
    let r = extract_strings(bytes, 4);
    assert_eq!(r, vec![(0, "trailing".to_string())]);
}

#[test]
fn find_pattern_ascii_is_case_insensitive() {
    let h = b"the quick Brown fox";
    assert_eq!(find_pattern(h, b"BROWN"), vec![10]);
    assert_eq!(find_pattern(h, b"brown"), vec![10]);
}

#[test]
fn find_pattern_binary_is_case_sensitive() {
    let h = &[0x00, 0x55, 0xAA, 0xFF, 0x55, 0xAA, 0x55, 0xAA];
    assert_eq!(find_pattern(h, &[0x55, 0xAA]), vec![1, 4, 6]);
}

#[test]
fn find_pattern_empty_needle_returns_empty() {
    assert!(find_pattern(b"abc", b"").is_empty());
}

#[test]
fn find_pattern_needle_larger_than_haystack_is_empty() {
    assert!(find_pattern(b"ab", b"abc").is_empty());
}

#[test]
fn find_pattern_overlapping_matches() {
    let h = b"aaaa";
    assert_eq!(find_pattern(h, b"aa"), vec![0, 1, 2]);
}

#[test]
fn byte_match_ignores_case_of_letters_only() {
    assert!(byte_match_ci(b'a', b'A'));
    assert!(!byte_match_ci(b'a', b'b'));
    assert!(!byte_match_ci(0x40, 0x60));
}

#[test]
fn extracted_runs_are_printable_and_long_enough() {
    let bytes = b"\x01ab\x7fCDEFG\x00xyz12";
    for (off, s) in extract_strings(bytes, 3) {
        assert!(s.len() >= 3);
        assert!(s.bytes().all(|b| (0x20..=0x7E).contains(&b)));
        assert_eq!(&bytes[off..off + s.len()], s.as_bytes());
    }
}

#[test]
fn extracted_runs_are_maximal_and_ordered() {
    let bytes = b"\x00abcdef\x01xy\x02ghij";
    let runs = extract_strings(bytes, 4);
    assert_eq!(runs.len(), 2);
    assert_eq!(runs[0].0, 1);
    assert_eq!(runs[0].1, "abcdef");
    assert_eq!(runs[1].0, 11);
    assert_eq!(runs[1].1, "ghij");
}
