use etch341::sfdp::{is_parsable, parse, Addressing};

#[test]
fn ff_buffer_yields_no_sfdp() {
    let dump = vec![0xFF; 64];
    let s = parse(&dump);
    assert!(!s.header.valid);
    assert!(s.parameter_headers.is_empty());
    assert!(s.bfpt.is_none());
}

fn synthetic() -> Vec<u8> {
    let mut d = vec![0u8; 256];
    d[0..4].copy_from_slice(b"SFDP");
    d[4] = 0x06;
    d[5] = 0x01;
    d[6] = 0x00;
    d[7] = 0xFF;
    d[8] = 0x00;
    d[9] = 0x06;
    d[10] = 0x01;
    d[11] = 16;
    d[12] = 0x40;
    d[13] = 0x00;
    d[14] = 0x00;
    d[15] = 0xFF;
    let dw1 = (0x20u32 << 8) | (0b01 << 17);
    d[0x40..0x44].copy_from_slice(&dw1.to_le_bytes());
    let dw2 = 8_388_607u32;
    d[0x44..0x48].copy_from_slice(&dw2.to_le_bytes());
    let dw8 = 12u32 | (0x20u32 << 8) | (16u32 << 16) | (0xD8u32 << 24);
    d[0x5C..0x60].copy_from_slice(&dw8.to_le_bytes());
    let dw11 = 8u32;
    d[0x68..0x6C].copy_from_slice(&dw11.to_le_bytes());
    d
}

#[test]
fn synthetic_bfpt_decodes() {
    let d = synthetic();
    let s = parse(&d);
    assert!(s.header.valid);
    assert_eq!(s.header.major_rev, 1);
    assert_eq!(s.header.minor_rev, 6);
    assert_eq!(s.parameter_headers.len(), 1);
    let bfpt = s.bfpt.expect("BFPT should decode");
    assert_eq!(bfpt.size_bytes, 1024 * 1024);
    assert_eq!(bfpt.page_size, 256);
    assert_eq!(bfpt.addressing, Addressing::Either);
    assert_eq!(bfpt.erase_4k_opcode, 0x20);
    assert_eq!(bfpt.erase_types[0].size_bytes, 4096);
    assert_eq!(bfpt.erase_types[0].opcode, 0x20);
    assert_eq!(bfpt.erase_types[1].size_bytes, 65536);
    assert_eq!(bfpt.erase_types[1].opcode, 0xD8);
    assert_eq!(bfpt.erase_types[2].size_bytes, 0);
    assert_eq!(bfpt.erase_types[3].size_bytes, 0);
}

#[test]
fn density_high_bit_form() {
    let dw2 = 0x8000_0020u32;
    let mut d = vec![0u8; 256];
    d[0..4].copy_from_slice(b"SFDP");
    d[6] = 0x00;
    d[7] = 0xFF;
    d[8] = 0x00;
    d[11] = 16;
    d[12] = 0x40;
    d[15] = 0xFF;
    d[0x40..0x44].fill(0);
    d[0x44..0x48].copy_from_slice(&dw2.to_le_bytes());
    assert!(is_parsable(&d));
    let s = parse(&d);
    let bfpt = s.bfpt.expect("BFPT should decode");
    assert_eq!(bfpt.size_bytes, 1u64 << 29);
}

#[test]
fn density_exponent_past_64_bits_is_not_parsable() {
    let mut d = synthetic();
    d[0x44..0x48].copy_from_slice(&0x8000_0040u32.to_le_bytes());
    assert!(!is_parsable(&d));
    assert!(is_parsable(&synthetic()));
}

#[test]
fn short_dump_lacks_header() {
    let s = parse(b"SFD");
    assert!(!s.header.valid);
}
