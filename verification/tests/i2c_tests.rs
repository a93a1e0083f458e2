use etch341::chipdb::{I2cChip, I2cChipDb};
use etch341::error::Error;
use etch341::i2c::{addr_bytes, compute_slave, read, scan, MockI2c, Step, MAX_READ_CHUNK};
use etch341::i2c_ops;
use etch341::ops::NullSink;

fn chip(name: &str, size: u32, page: u32, aw: u8, sab: u8) -> I2cChip {
    I2cChip { name: name.into(), size_bytes: size, page_size: page, addr_width: aw, slave_addr_bits: sab, write_cycle_ms: 5 }
}

fn step(tx: Vec<u8>, rx_len: usize, read_back: Vec<u8>) -> Step {
    Step { slave: 0x50, tx, rx_len, read_back, nack: false }
}

#[test]
fn slave_addr_for_24c02_uses_base_plus_pin_straps() {
    let c = chip("24C02", 256, 8, 1, 0);
    assert_eq!(compute_slave(&c, 0x00, 0), 0x50);
    assert_eq!(compute_slave(&c, 0xFF, 0b001), 0x51);
    assert_eq!(compute_slave(&c, 0xFF, 0b111), 0x57);
}

#[test]
fn slave_addr_for_24c16_stuffs_top_3_addr_bits() {
    let c = chip("24C16", 2048, 16, 1, 3);
    assert_eq!(compute_slave(&c, 0x000, 0), 0x50);
    assert_eq!(compute_slave(&c, 0x100, 0), 0x51);
    assert_eq!(compute_slave(&c, 0x7FF, 0), 0x57);
}

#[test]
fn slave_addr_for_24c04_keeps_upper_straps() {
    let c = chip("24C04", 512, 16, 1, 1);
    assert_eq!(compute_slave(&c, 0x100, 0b110), 0x57);
    assert_eq!(compute_slave(&c, 0x0FF, 0b110), 0x56);
}

#[test]
fn addr_bytes_24c02_emits_one_byte() {
    let c = chip("24C02", 256, 8, 1, 0);
    assert_eq!(addr_bytes(&c, 0x42), vec![0x42]);
}

#[test]
fn addr_bytes_24c256_emits_two_bytes_big_endian() {
    let c = chip("24C256", 32768, 64, 2, 0);
    assert_eq!(addr_bytes(&c, 0x1234), vec![0x12, 0x34]);
    assert_eq!(addr_bytes(&c, 0x00FF), vec![0x00, 0xFF]);
}

#[test]
fn read_short_fits_one_transaction() {
    let c = chip("24C02", 256, 8, 1, 0);
    let mut mock = MockI2c::new(vec![step(vec![0x10], 4, vec![0xDE, 0xAD, 0xBE, 0xEF])]);
    assert_eq!(read(&mut mock, &c, 0x10, 4, 0).unwrap(), vec![0xDE, 0xAD, 0xBE, 0xEF]);
    assert!(mock.is_drained());
}

#[test]
fn read_long_splits_into_max_read_chunks() {
    let c = chip("24C256", 32768, 64, 2, 0);
    let mut mock = MockI2c::new(vec![
        step(vec![0x00, 0x00], 20, vec![0xAA; 20]),
        step(vec![0x00, 0x14], 20, vec![0xBB; 20]),
        step(vec![0x00, 0x28], 10, vec![0xCC; 10]),
    ]);
    let out = read(&mut mock, &c, 0, 50, 0).unwrap();
    assert_eq!(out.len(), 50);
    assert_eq!(&out[..20], &[0xAA; 20]);
    assert_eq!(&out[20..40], &[0xBB; 20]);
    assert_eq!(&out[40..], &[0xCC; 10]);
    assert!(mock.is_drained());
}

#[test]
fn read_rejects_address_past_chip_end() {
    let c = chip("24C02", 256, 8, 1, 0);
    let mut mock = MockI2c::new(vec![]);
    let err = read(&mut mock, &c, 250, 10, 0).unwrap_err();
    assert!(matches!(err, Error::AddressOutOfRange { .. }));
}

#[test]
fn read_reports_nack() {
    let c = chip("24C02", 256, 8, 1, 0);
    let mut mock = MockI2c::new(vec![Step { slave: 0x50, tx: vec![0], rx_len: 1, read_back: vec![], nack: true }]);
    assert!(matches!(read(&mut mock, &c, 0, 1, 0), Err(Error::I2cNack { slave_7bit: 0x50 })));
}

#[test]
fn write_aligned_single_page() {
    let c = chip("24C02", 256, 8, 1, 0);
    let mut mock = MockI2c::new(vec![step(vec![0x00, 0x11, 0x22, 0x33, 0x44], 0, vec![])]);
    etch341::i2c::write(&mut mock, &c, 0x00, &[0x11, 0x22, 0x33, 0x44], 0).unwrap();
    assert!(mock.is_drained());
}

#[test]
fn write_splits_at_page_boundary() {
    let c = chip("24C02", 256, 8, 1, 0);
    let data: Vec<u8> = (0..10).collect();
    let mut mock = MockI2c::new(vec![
        step(vec![0x06, 0, 1], 0, vec![]),
        step(vec![0x08, 2, 3, 4, 5, 6, 7, 8, 9], 0, vec![]),
    ]);
    etch341::i2c::write(&mut mock, &c, 0x06, &data, 0).unwrap();
    assert!(mock.is_drained());
}

#[test]
fn write_splits_at_ch341_packet_limit() {
    let c = chip("24C256", 32768, 64, 2, 0);
    let data: Vec<u8> = (0..32).collect();
    let mut expected_steps = Vec::new();
    for i in 0..2 {
        let mut tx = vec![0x00, (i * 16) as u8];
        tx.extend((i * 16..i * 16 + 16).map(|x| x as u8));
        expected_steps.push(step(tx, 0, vec![]));
    }
    let mut mock = MockI2c::new(expected_steps);
    etch341::i2c::write(&mut mock, &c, 0, &data, 0).unwrap();
    assert!(mock.is_drained());
}

#[test]
fn write_rejects_address_past_chip_end() {
    let c = chip("24C02", 256, 8, 1, 0);
    let mut mock = MockI2c::new(vec![]);
    let err = etch341::i2c::write(&mut mock, &c, 250, &[0; 10], 0).unwrap_err();
    assert!(matches!(err, Error::AddressOutOfRange { .. }));
}

#[test]
fn scan_lists_acknowledging_addresses() {
    let mut mock = MockI2c::new(vec![]);
    assert_eq!(scan(&mut mock, 0x50, 0x52).unwrap(), vec![0x50, 0x51, 0x52]);
    assert!(scan(&mut mock, 0x52, 0x50).unwrap().is_empty());
    let all = i2c_ops::scan(&mut mock).unwrap();
    assert_eq!(all.len(), 0x77 - 0x08 + 1);
    assert_eq!(all[0], 0x08);
}

fn chip_24c02() -> I2cChip {
    chip("24C02", 256, 8, 1, 0)
}

fn read_steps(start_addr: u32, data: &[u8]) -> Vec<Step> {
    let chunk = MAX_READ_CHUNK as u32;
    let mut steps = Vec::new();
    let mut addr = start_addr;
    let end = start_addr + data.len() as u32;
    let mut off = 0usize;
    while addr < end {
        let n = std::cmp::min(chunk, end - addr) as usize;
        steps.push(step(vec![addr as u8], n, data[off..off + n].to_vec()));
        addr += n as u32;
        off += n;
    }
    steps
}

#[test]
fn verify_returns_zero_on_match() {
    let chip = chip_24c02();
    let expected = vec![0xAA; 10];
    let mut mock = MockI2c::new(vec![step(vec![0x00], 10, vec![0xAA; 10])]);
    let n = i2c_ops::verify(&mut mock, &chip, &expected, 0, 0, &mut NullSink::new()).unwrap();
    assert_eq!(n, 0);
}

#[test]
fn i2c_ops_verify_counts_mismatches() {
    let chip = chip_24c02();
    let expected = vec![0xAA, 0xBB, 0xCC, 0xDD];
    let mut mock = MockI2c::new(vec![step(vec![0x00], 4, vec![0xAA, 0x00, 0xCC, 0x00])]);
    let n = i2c_ops::verify(&mut mock, &chip, &expected, 0, 0, &mut NullSink::new()).unwrap();
    assert_eq!(n, 2);
}

#[test]
fn verify_report_samples_first_mismatches() {
    let chip = chip_24c02();
    let expected = vec![0xAA, 0xBB, 0xCC, 0xDD];
    let mut mock = MockI2c::new(vec![step(vec![0x04], 4, vec![0xAA, 0x00, 0xCC, 0x01])]);
    let rep = i2c_ops::verify_report(&mut mock, &chip, &expected, 4, 0, &mut NullSink::new()).unwrap();
    assert_eq!(rep.mismatches, 2);
    assert_eq!(rep.samples, vec![(5, 0xBB, 0x00), (7, 0xDD, 0x01)]);
}

#[test]
fn blank_check_passes_when_all_ff() {
    let chip = chip_24c02();
    let data = vec![0xFFu8; 256];
    let mut mock = MockI2c::new(read_steps(0, &data));
    i2c_ops::blank_check(&mut mock, &chip, 0, &mut NullSink::new()).unwrap();
}

#[test]
fn blank_check_fails_on_non_ff() {
    let chip = chip_24c02();
    let mut data = vec![0xFFu8; 256];
    data[42] = 0x00;
    let mut mock = MockI2c::new(read_steps(0, &data));
    let err = i2c_ops::blank_check(&mut mock, &chip, 0, &mut NullSink::new()).unwrap_err();
    match err {
        Error::NotBlank { addr, value } => {
            assert_eq!(addr, 42);
            assert_eq!(value, 0x00);
        }
        other => panic!("expected NotBlank, got {:?}", other),
    }
}

#[test]
fn read_bytes_covers_blocks() {
    let chip = chip_24c02();
    let data: Vec<u8> = (0..40).collect();
    let mut mock = MockI2c::new(read_steps(0x10, &data));
    let got = i2c_ops::read_bytes(&mut mock, &chip, 0x10, 40, 0, &mut NullSink::new()).unwrap();
    assert_eq!(got, data);
    assert!(mock.is_drained());
}

#[test]
fn erase_writes_ff_everywhere() {
    let chip = chip("24C01", 16, 8, 1, 0);
    let mut mock = MockI2c::new(vec![
        step(vec![0x00, 0xFF, 0xFF, 0xFF, 0xFF, 0xFF, 0xFF, 0xFF, 0xFF], 0, vec![]),
        step(vec![0x08, 0xFF, 0xFF, 0xFF, 0xFF, 0xFF, 0xFF, 0xFF, 0xFF], 0, vec![]),
    ]);
    i2c_ops::erase(&mut mock, &chip, 0, &mut NullSink::new()).unwrap();
    assert!(mock.is_drained());
}

#[test]
fn resolve_i2c_chip_by_name() {
    let db = I2cChipDb::from_chips(vec![chip_24c02()]).unwrap();
    assert_eq!(i2c_ops::resolve_chip(&db, "24c02").unwrap().size_bytes, 256);
    assert!(matches!(i2c_ops::resolve_chip(&db, "x"), Err(Error::ChipNotRecognized(_))));
}

#[test]
fn eeprom_read_after_write_returns_data() {
    let c = chip("24C02", 256, 8, 1, 0);
    let data: Vec<u8> = (0..10).collect();
    let mut mock = MockI2c::new(vec![
        step(vec![0x06, 0, 1], 0, vec![]),
        step(vec![0x08, 2, 3, 4, 5, 6, 7, 8, 9], 0, vec![]),
        step(vec![0x06], 10, data.clone()),
    ]);
    etch341::i2c::write(&mut mock, &c, 0x06, &data, 0).unwrap();
    assert_eq!(read(&mut mock, &c, 0x06, 10, 0).unwrap(), data);
    assert!(mock.is_drained());
}
