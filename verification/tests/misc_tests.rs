use etch341::ch341::{reverse_bits, trace_line};
use etch341::digest::sha256_hex;
use etch341::present::{
    human_bytes, in_diff_selection, in_selection, next_match, prev_match, selection_hex, selection_range, vendor_of, Bus,
    DiffSide, Pane,
};

#[test]
fn reverse_bits_mirrors_and_undoes_itself() {
    assert_eq!(reverse_bits(0x01), 0x80);
    assert_eq!(reverse_bits(0x9F), 0xF9);
    assert_eq!(reverse_bits(0x00), 0x00);
    for b in 0..=255u8 {
        assert_eq!(reverse_bits(reverse_bits(b)), b);
    }
}

#[test]
fn trace_line_pads_count() {
    assert_eq!(trace_line("  out[", 3, &[0xA8, 0x01]), "  out[ 3]: a801");
    assert_eq!(trace_line("  in [", 31, &[]), "  in [31]: ");
}

#[test]
fn sha256_hex_of_abc() {
    assert_eq!(sha256_hex(b"abc"), "ba7816bf8f01cfea414140de5dae2223b00361a396177a9cb410ff61f20015ad");
    assert_eq!(sha256_hex(b""), "e3b0c44298fc1c149afbf4c8996fb92427ae41e4649b934ca495991b7852b855");
}

#[test]
fn panes_and_selections() {
    assert_eq!(Pane::default_for(Bus::Spi), Pane::Detect);
    assert_eq!(Pane::default_for(Bus::I2c), Pane::I2cScan);
    assert_eq!(Bus::default(), Bus::Spi);
    assert!(in_selection(5, Some((3, 7))));
    assert!(!in_selection(8, Some((3, 7))));
    assert!(!in_selection(5, None));
    assert_eq!(selection_range(Some((9, 2))), Some((2, 9)));
    assert_eq!(selection_range(None), None);
    assert!(in_diff_selection(DiffSide::Chip, 4, Some((DiffSide::Chip, 6, 2))));
    assert!(!in_diff_selection(DiffSide::File, 4, Some((DiffSide::Chip, 6, 2))));
}

#[test]
fn vendor_and_sizes() {
    assert_eq!(vendor_of("EF4018"), "Winbond");
    assert_eq!(vendor_of("c22537"), "Macronix");
    assert_eq!(vendor_of("9D6018"), "ISSI");
    assert_eq!(vendor_of("A"), "Other");
    assert_eq!(vendor_of("123456"), "Other");
    assert_eq!(human_bytes(16 * 1024 * 1024), "16 MB");
    assert_eq!(human_bytes(1536), "1536 B");
    assert_eq!(human_bytes(4096), "4 KB");
}

#[test]
fn find_cursor_wraps_both_ways() {
    assert_eq!(next_match(None, 3), Some(0));
    assert_eq!(next_match(Some(2), 3), Some(0));
    assert_eq!(next_match(Some(0), 3), Some(1));
    assert_eq!(next_match(None, 0), None);
    assert_eq!(prev_match(None, 3), Some(2));
    assert_eq!(prev_match(Some(0), 3), Some(2));
    assert_eq!(prev_match(Some(2), 3), Some(1));
    assert_eq!(prev_match(None, 0), None);
}

#[test]
fn selection_copies_spaced_hex() {
    let b = [0xDE, 0xAD, 0xBE, 0xEF];
    assert_eq!(selection_hex(&b, 0, 3).unwrap(), "DE AD BE EF");
    assert_eq!(selection_hex(&b, 2, 10).unwrap(), "BE EF");
    assert_eq!(selection_hex(&b, 1, 1).unwrap(), "AD");
    assert!(selection_hex(&b, 4, 9).is_none());
}

#[test]
fn copied_selection_pastes_back_as_the_same_bytes() {
    let b = [0x00, 0x55, 0xAA, 0xFF, 0x0F];
    let text = selection_hex(&b, 0, 4).unwrap();
    assert_eq!(etch341::inspect::parse_hex_needle(&text), b.to_vec());
}
