use etch341::chipdb::{Chip, ChipDb};
use etch341::digest::sha256_hex;
use etch341::error::Error;
use etch341::ops::{
    addressing_for, blank_check, erase_chip, erase_range, human_size, read, resolve_chip, run_detect, verify,
    verify_report, Diagnosis, NullSink,
};
use etch341::spi::{Addressing, MockSpi};

fn fake_chip(size_kb: u32) -> Chip {
    Chip {
        name: "FAKE".into(),
        jedec_id: "AABBCC".into(),
        size_kb,
        page_size: 256,
        sector_size: 4096,
        erase_time_ms: 50,
        notes: String::new(),
    }
}

fn read_step(addr: u32, n: usize, body: Vec<u8>) -> (Vec<u8>, Vec<u8>) {
    let mut tx = vec![0x03, (addr >> 16) as u8, (addr >> 8) as u8, addr as u8];
    tx.resize(4 + n, 0);
    let mut rx = vec![0u8; 4];
    rx.extend(body);
    (tx, rx)
}

fn wip_clear_step() -> (Vec<u8>, Vec<u8>) {
    (vec![0x05, 0x00], vec![0x00, 0x00])
}

#[test]
fn read_writes_bytes_to_file_and_hashes() {
    let body: Vec<u8> = (0..16u8).collect();
    let mut mock = MockSpi::new(vec![read_step(0, 16, body.clone())]);
    let chip = fake_chip(1);
    let got = read(&mut mock, &chip, 0, 16, &mut NullSink::new()).unwrap();
    assert_eq!(got, body);
    assert!(mock.is_drained());
    assert_eq!(sha256_hex(&got), "be45cb2605bf36bebde684841a28f0fd43c69850a3dce5fedba69928ee3a8991");
}

#[test]
fn read_rejects_out_of_range() {
    let chip = fake_chip(1);
    let mut mock = MockSpi::new(vec![]);
    let r = read(&mut mock, &chip, 0, 2048, &mut NullSink::new());
    assert!(matches!(r, Err(Error::AddressOutOfRange { .. })));
}

#[test]
fn read_splits_into_4k_transactions() {
    let chip = fake_chip(16);
    let mut mock = MockSpi::new(vec![
        read_step(0x100, 4096, vec![0x11; 4096]),
        read_step(0x1100, 4, vec![1, 2, 3, 4]),
    ]);
    let got = read(&mut mock, &chip, 0x100, 4100, &mut NullSink::new()).unwrap();
    assert_eq!(got.len(), 4100);
    assert_eq!(&got[4096..], &[1, 2, 3, 4]);
    assert!(mock.is_drained());
}

#[test]
fn erase_chip_polls_until_wip_clear() {
    let mut mock = MockSpi::new(vec![(vec![0x06], vec![0x00]), (vec![0xC7], vec![0x00]), wip_clear_step()]);
    erase_chip(&mut mock, &fake_chip(1), &mut NullSink::new()).unwrap();
    assert!(mock.is_drained());
}

#[test]
fn erase_range_uses_block_when_aligned() {
    let mut mock = MockSpi::new(vec![
        (vec![0x06], vec![0x00]),
        (vec![0xD8, 0x01, 0x00, 0x00], vec![0; 4]),
        wip_clear_step(),
    ]);
    erase_range(&mut mock, &fake_chip(128), 0x10000, 0x10000, &mut NullSink::new()).unwrap();
    assert!(mock.is_drained());
}

#[test]
fn erase_range_falls_back_to_sectors_when_short() {
    let mut mock = MockSpi::new(vec![
        (vec![0x06], vec![0]),
        (vec![0x20, 0x00, 0x00, 0x00], vec![0; 4]),
        wip_clear_step(),
        (vec![0x06], vec![0]),
        (vec![0x20, 0x00, 0x10, 0x00], vec![0; 4]),
        wip_clear_step(),
    ]);
    erase_range(&mut mock, &fake_chip(128), 0, 0x2000, &mut NullSink::new()).unwrap();
    assert!(mock.is_drained());
}

#[test]
fn erase_range_rejects_unaligned_start() {
    let mut mock = MockSpi::new(vec![]);
    let r = erase_range(&mut mock, &fake_chip(128), 0x100, 0x1000, &mut NullSink::new());
    assert!(matches!(r, Err(Error::UnalignedErase { .. })));
}

#[test]
fn erase_range_rounds_up_to_sectors() {
    let mut mock = MockSpi::new(vec![
        (vec![0x06], vec![0]),
        (vec![0x20, 0x00, 0x00, 0x00], vec![0; 4]),
        wip_clear_step(),
    ]);
    let n = erase_range(&mut mock, &fake_chip(128), 0, 10, &mut NullSink::new()).unwrap();
    assert_eq!(n, 4096);
    assert!(mock.is_drained());
}

#[test]
fn write_does_page_aligned_program() {
    let data: Vec<u8> = (0..512u32).map(|i| i as u8).collect();
    let mut steps: Vec<(Vec<u8>, Vec<u8>)> = Vec::new();
    let mut c1 = vec![0x02, 0x00, 0x00, 0x80];
    c1.extend_from_slice(&data[0..128]);
    steps.push((vec![0x06], vec![0]));
    steps.push((c1, vec![0; 132]));
    steps.push(wip_clear_step());
    let mut c2 = vec![0x02, 0x00, 0x01, 0x00];
    c2.extend_from_slice(&data[128..384]);
    steps.push((vec![0x06], vec![0]));
    steps.push((c2, vec![0; 260]));
    steps.push(wip_clear_step());
    let mut c3 = vec![0x02, 0x00, 0x02, 0x00];
    c3.extend_from_slice(&data[384..512]);
    steps.push((vec![0x06], vec![0]));
    steps.push((c3, vec![0; 132]));
    steps.push(wip_clear_step());

    let mut mock = MockSpi::new(steps);
    etch341::ops::write(&mut mock, &fake_chip(128), &data, 0x80, false, false, &mut NullSink::new()).unwrap();
    assert!(mock.is_drained());
}

#[test]
fn write_with_verify_fails_on_readback_difference() {
    let data = vec![0xAA, 0xBB];
    let mut p = vec![0x02, 0x00, 0x00, 0x00];
    p.extend_from_slice(&data);
    let mut mock = MockSpi::new(vec![
        (vec![0x06], vec![0]),
        (p, vec![0; 6]),
        wip_clear_step(),
        read_step(0, 2, vec![0xAA, 0x00]),
    ]);
    let r = etch341::ops::write(&mut mock, &fake_chip(1), &data, 0, false, true, &mut NullSink::new());
    assert!(matches!(r, Err(Error::VerifyFailed { addr: 1, expected: 0xBB, actual: 0x00 })));
}

#[test]
fn write_rejects_unaligned_erase() {
    let mut mock = MockSpi::new(vec![]);
    let r = etch341::ops::write(&mut mock, &fake_chip(128), &[1, 2], 0x10, true, false, &mut NullSink::new());
    assert!(matches!(r, Err(Error::UnalignedErase { addr: 0x10, sector_size: 4096 })));
}

#[test]
fn ops_verify_counts_mismatches() {
    let expected = vec![0xAA, 0xBB, 0xCC, 0xDD];
    let actual = vec![0xAA, 0x00, 0xCC, 0x00];
    let mut mock = MockSpi::new(vec![read_step(0, 4, actual)]);
    let count = verify(&mut mock, &fake_chip(1), &expected, 0, &mut NullSink::new()).unwrap();
    assert_eq!(count, 2);
    assert!(mock.is_drained());
}

#[test]
fn verify_report_names_first_mismatch() {
    let expected = vec![0xAA, 0xBB, 0xCC, 0xDD];
    let mut mock = MockSpi::new(vec![read_step(0x10, 4, vec![0xAA, 0x00, 0xCC, 0x00])]);
    let rep = verify_report(&mut mock, &fake_chip(1), &expected, 0x10, &mut NullSink::new()).unwrap();
    assert_eq!(rep.mismatches, 2);
    assert_eq!(rep.first, Some((0x11, 0xBB, 0x00)));
}

#[test]
fn blank_check_passes_on_all_ff() {
    let mut mock = MockSpi::new(vec![read_step(0, 1024, vec![0xFF; 1024])]);
    blank_check(&mut mock, &fake_chip(1), &mut NullSink::new()).unwrap();
    assert!(mock.is_drained());
}

#[test]
fn blank_check_reports_first_non_ff() {
    let mut body = vec![0xFF; 1024];
    body[10] = 0x42;
    let mut mock = MockSpi::new(vec![read_step(0, 1024, body)]);
    let r = blank_check(&mut mock, &fake_chip(1), &mut NullSink::new());
    assert!(matches!(r, Err(Error::NotBlank { addr: 10, value: 0x42 })));
}

#[test]
fn addressing_switches_to_four_bytes_above_16mb() {
    assert!(matches!(addressing_for(&fake_chip(16384)), Addressing::ThreeByte));
    assert!(matches!(addressing_for(&fake_chip(32768)), Addressing::FourByte));
}

#[test]
fn human_size_picks_largest_unit() {
    assert_eq!(human_size(512), "512 B");
    assert_eq!(human_size(4096), "4 KB");
    assert_eq!(human_size(16 * 1024 * 1024), "16 MB");
}

fn db() -> ChipDb {
    let mut c = fake_chip(16384);
    c.name = "W25Q128JV".into();
    c.jedec_id = "EF4018".into();
    ChipDb::from_chips(vec![c]).unwrap()
}

#[test]
fn detect_diagnoses_known_and_stuck_lines() {
    let db = db();
    let mut mock = MockSpi::new(vec![(vec![0x9F, 0, 0, 0], vec![0xFF, 0xEF, 0x40, 0x18])]);
    let d = run_detect(&mut mock, &db).unwrap();
    assert_eq!(d.jedec_string(), "EF4018");
    assert!(matches!(d.diagnosis, Diagnosis::Known(ref c) if c.name == "W25Q128JV"));
    let mut mock = MockSpi::new(vec![(vec![0x9F, 0, 0, 0], vec![0xFF, 0, 0, 0])]);
    assert!(matches!(run_detect(&mut mock, &db).unwrap().diagnosis, Diagnosis::MisoStuckLow));
    let mut mock = MockSpi::new(vec![(vec![0x9F, 0, 0, 0], vec![0xFF, 0xFF, 0xFF, 0xFF])]);
    assert!(matches!(run_detect(&mut mock, &db).unwrap().diagnosis, Diagnosis::MisoFloatsHigh));
    let mut mock = MockSpi::new(vec![(vec![0x9F, 0, 0, 0], vec![0xFF, 0x12, 0x34, 0x56])]);
    assert!(matches!(run_detect(&mut mock, &db).unwrap().diagnosis, Diagnosis::UnknownChip));
}

#[test]
fn resolve_chip_by_name_and_by_jedec() {
    let db = db();
    let mut mock = MockSpi::new(vec![]);
    assert_eq!(resolve_chip(&mut mock, &db, Some("w25q128jv")).unwrap().jedec_id, "EF4018");
    let r = resolve_chip(&mut mock, &db, Some("nope"));
    assert!(matches!(r, Err(Error::ChipNotRecognized(ref s)) if s == "nope"));
    let mut mock = MockSpi::new(vec![(vec![0x9F, 0, 0, 0], vec![0xFF, 0xEF, 0x40, 0x18])]);
    assert_eq!(resolve_chip(&mut mock, &db, None).unwrap().name, "W25Q128JV");
    assert!(mock.is_drained());
}

#[test]
fn write_with_erase_and_readback_succeeds_when_chip_holds_data() {
    let data = vec![0x11, 0x22, 0x33];
    let mut p = vec![0x02, 0x00, 0x10, 0x00];
    p.extend_from_slice(&data);
    let mut mock = MockSpi::new(vec![
        (vec![0x06], vec![0]),
        (vec![0x20, 0x00, 0x10, 0x00], vec![0; 4]),
        wip_clear_step(),
        (vec![0x06], vec![0]),
        (p, vec![0; 7]),
        wip_clear_step(),
        read_step(0x1000, 3, data.clone()),
    ]);
    etch341::ops::write(&mut mock, &fake_chip(128), &data, 0x1000, true, true, &mut NullSink::new()).unwrap();
    assert!(mock.is_drained());
}
