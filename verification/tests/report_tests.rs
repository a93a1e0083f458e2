use etch341::report::{format_sfdp_for_copy, format_status_for_copy, sfdp_report, status_report};
use etch341::sfdp::parse;
use etch341::spi::StatusRegisters;

fn synthetic_sfdp() -> Vec<u8> {
    let mut d = vec![0u8; 256];
    d[0..4].copy_from_slice(b"SFDP");
    d[4] = 0x06;
    d[5] = 0x01;
    d[6] = 0x00;
    d[7] = 0xFF;
    d[8] = 0x00;
    d[9] = 0x06;
    d[10] = 0x01;
    d[11] = 16;
    d[12] = 0x40;
    d[13] = 0x00;
    d[14] = 0x00;
    d[15] = 0xFF;
    let dw1 = (0x20u32 << 8) | (0b01 << 17);
    d[0x40..0x44].copy_from_slice(&dw1.to_le_bytes());
    let dw2 = 8_388_607u32;
    d[0x44..0x48].copy_from_slice(&dw2.to_le_bytes());
    let dw8 = 12u32 | (0x20u32 << 8) | (16u32 << 16) | (0xD8u32 << 24);
    d[0x5C..0x60].copy_from_slice(&dw8.to_le_bytes());
    let dw11 = 8u32;
    d[0x68..0x6C].copy_from_slice(&dw11.to_le_bytes());
    d
}

#[test]
fn status_copy_text_decodes_bits() {
    let r = StatusRegisters { sr1: 0x1C, sr2: 0x02, sr3: 0xFF };
    assert_eq!(
        format_status_for_copy(&r),
        "SR1 : 0x1C  (0b00011100)\n        WIP=0 WEL=0 BP=7 TB=0 SEC/BP3=0 SRP0=0\n\
         SR2 : 0x02  (0b00000010)\n        SRP1=0 QE=1 LB=0 CMP=0 SUS=0\n\
         SR3 : 0xFF    (chip didn't respond)\n"
    );
}

#[test]
fn status_report_warns_on_block_protect() {
    let r = StatusRegisters { sr1: 0x1C, sr2: 0xFF, sr3: 0x60 };
    let lines = status_report(&r);
    assert_eq!(
        lines,
        vec![
            "SR1 : 0x1C  (0b00011100)",
            "        WIP=0 WEL=0 BP=7 TB=0 SEC/BP3=0 SRP0=0",
            "SR2 : 0xFF    (chip didn't respond, likely doesn't implement SR2)",
            "SR3 : 0x60  (0b01100000)",
            "        ADP=0 WPS=0 DRV=3 HOLD/RST=0",
            "",
            "note   : SR1 has block-protect bits set: writes and erases to the protected",
            "         range will silently fail. Clear BP[2:0] (and SEC/BP3 if set) via",
            "         WRSR before programming.",
        ]
    );
}

#[test]
fn status_report_without_protection_has_no_note() {
    let r = StatusRegisters { sr1: 0x03, sr2: 0x00, sr3: 0x00 };
    let lines = status_report(&r);
    assert_eq!(lines.len(), 6);
    assert_eq!(lines[1], "        WIP=1 WEL=1 BP=0 TB=0 SEC/BP3=0 SRP0=0");
}

#[test]
fn sfdp_copy_text_lists_headers_and_bfpt() {
    let d = synthetic_sfdp();
    let s = parse(&d);
    assert_eq!(
        format_sfdp_for_copy(&s),
        "SFDP rev 1.6, 1 parameter header(s)\n  [0] id=0xFF00 (JEDEC BFPT) rev 1.6 len=16 dwords @ 0x000040\n\
         \nBFPT:\n  size      : 1048576 bytes (1024 KB, 8 Mbit)\n  page size : 256 bytes\n\
         \x20 address   : 3- or 4-byte (default 3)\n  4K erase  : opcode 0x20\n  erase types:\n\
         \x20   [0] opcode 0x20  4096 bytes\n    [1] opcode 0xD8  65536 bytes\n"
    );
}

#[test]
fn sfdp_report_without_magic_dumps_first_bytes() {
    let raw = vec![0xFFu8; 64];
    let lines = sfdp_report(&raw, &parse(&raw));
    assert_eq!(lines.len(), 4);
    assert_eq!(lines[0], "SFDP     : (chip didn't return the 'SFDP' magic; this chip");
    assert_eq!(lines[3], "  ffffffffffffffffffffffffffffffff");
}

#[test]
fn sfdp_report_decodes_bfpt() {
    let d = synthetic_sfdp();
    let lines = sfdp_report(&d, &parse(&d));
    assert_eq!(lines[0], "SFDP     : rev 1.6, 1 parameter header(s)");
    assert!(lines.contains(&"  size      : 1048576 bytes (1024 KB, 8 Mbit)".to_string()));
}
