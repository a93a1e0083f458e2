use etch341::chipdb::{Chip, ChipDb};
use etch341::detect::{connection_of, detect_lines, identify, ChipSource, Connection};
use etch341::spi::MockSpi;

fn db() -> ChipDb {
    ChipDb::from_chips(vec![Chip {
        name: "W25Q128JV".into(),
        jedec_id: "EF4018".into(),
        size_kb: 16384,
        page_size: 256,
        sector_size: 4096,
        erase_time_ms: 40000,
        notes: "3.3V".into(),
    }])
    .unwrap()
}

fn jedec_step(id: [u8; 3]) -> (Vec<u8>, Vec<u8>) {
    (vec![0x9F, 0, 0, 0], vec![0xFF, id[0], id[1], id[2]])
}

fn sfdp_step(body: Vec<u8>) -> (Vec<u8>, Vec<u8>) {
    let mut tx = vec![0x5A, 0, 0, 0, 0];
    tx.resize(5 + 256, 0);
    let mut rx = vec![0u8; 5];
    rx.extend(body);
    (tx, rx)
}

fn synthetic_sfdp() -> Vec<u8> {
    let mut d = vec![0u8; 256];
    d[0..4].copy_from_slice(b"SFDP");
    d[4] = 0x06;
    d[5] = 0x01;
    d[7] = 0xFF;
    d[9] = 0x06;
    d[10] = 0x01;
    d[11] = 16;
    d[12] = 0x40;
    d[15] = 0xFF;
    let dw1 = (0x20u32 << 8) | (0b01 << 17);
    d[0x40..0x44].copy_from_slice(&dw1.to_le_bytes());
    d[0x44..0x48].copy_from_slice(&8_388_607u32.to_le_bytes());
    let dw8 = 12u32 | (0x20u32 << 8) | (16u32 << 16) | (0xD8u32 << 24);
    d[0x5C..0x60].copy_from_slice(&dw8.to_le_bytes());
    d[0x68..0x6C].copy_from_slice(&8u32.to_le_bytes());
    d
}

#[test]
fn identify_known_chip_from_catalogue() {
    let mut mock = MockSpi::new(vec![jedec_step([0xEF, 0x40, 0x18])]);
    let info = identify(&mut mock, &db()).unwrap();
    assert_eq!(info.source, ChipSource::Database);
    assert_eq!(info.jedec, "EF4018");
    assert_eq!(
        detect_lines(&info),
        vec![
            "JEDEC ID : 0xEF4018",
            "Size     : 16384 KB (65536 pages of 256 B, 4096 sectors of 4096 B)",
            "Notes    : 3.3V",
        ]
    );
    assert!(matches!(connection_of(&info), Connection::Ready { ref chip_name, size_kb: 16384 } if chip_name == "W25Q128JV"));
    assert!(mock.is_drained());
}

#[test]
fn identify_falls_back_to_sfdp() {
    let mut mock = MockSpi::new(vec![jedec_step([0x12, 0x34, 0x56]), sfdp_step(synthetic_sfdp())]);
    let info = identify(&mut mock, &db()).unwrap();
    assert_eq!(info.source, ChipSource::Sfdp);
    let c = info.chip.clone().unwrap();
    assert_eq!(c.name, "123456 (SFDP)");
    assert_eq!(c.size_kb, 1024);
    assert_eq!(c.sector_size, 4096);
    let lines = detect_lines(&info);
    assert_eq!(lines[1], "Chip     : 123456 (SFDP) (no chips.toml entry; parameters from SFDP)");
    assert_eq!(lines[2], "Size     : 1024 KB (4096 pages of 256 B, 256 sectors of 4096 B)");
    assert_eq!(lines.last().unwrap(), "           Consider adding an entry to chips/chips.toml.");
    assert!(mock.is_drained());
}

#[test]
fn identify_unknown_without_sfdp() {
    let mut mock = MockSpi::new(vec![jedec_step([0x12, 0x34, 0x56]), sfdp_step(vec![0xFF; 256])]);
    let info = identify(&mut mock, &db()).unwrap();
    assert_eq!(info.source, ChipSource::Unknown);
    assert!(info.chip.is_none());
    assert_eq!(detect_lines(&info)[1], "Chip     : unknown (JEDEC 0x123456 not in chips.toml)");
    assert!(matches!(connection_of(&info), Connection::NoChip));
}

#[test]
fn identify_reports_miso_states() {
    let mut mock = MockSpi::new(vec![jedec_step([0, 0, 0])]);
    let info = identify(&mut mock, &db()).unwrap();
    assert_eq!(info.source, ChipSource::NoChip);
    assert_eq!(detect_lines(&info)[1], "Chip     : MISO stuck low: target board likely fighting us.");
    let mut mock = MockSpi::new(vec![jedec_step([0xFF, 0xFF, 0xFF])]);
    let info = identify(&mut mock, &db()).unwrap();
    assert_eq!(detect_lines(&info)[1], "Chip     : MISO floats high: no chip detected.");
}
