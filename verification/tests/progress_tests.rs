use etch341::chipdb::{Chip, I2cChip};
use etch341::error::Error;
use etch341::i2c::{MockI2c, Step, MAX_READ_CHUNK};
use etch341::i2c_ops;
use etch341::ops::{self, NullSink, ProgressSink};
use etch341::spi::{MockSpi, SpiTransport};

/// A sink that remembers every event as text.
struct Recorder {
    events: Vec<String>,
}

impl Recorder {
    fn new() -> Self {
        Recorder { events: Vec::new() }
    }
}

impl ProgressSink for Recorder {
    fn start(&mut self, total: u64) {
        self.events.push(format!("start {total}"));
    }

    fn update(&mut self, current: u64) {
        self.events.push(format!("update {current}"));
    }

    fn finish(&mut self) {
        self.events.push("finish".to_string());
    }
}

fn flash(size_kb: u32) -> Chip {
    Chip {
        name: "FAKE".into(),
        jedec_id: "AABBCC".into(),
        size_kb,
        page_size: 256,
        sector_size: 4096,
        erase_time_ms: 50,
        notes: String::new(),
    }
}

fn eeprom(size: u32) -> I2cChip {
    I2cChip { name: "24C02".into(), size_bytes: size, page_size: 8, addr_width: 1, slave_addr_bits: 0, write_cycle_ms: 5 }
}

fn read_step(addr: u32, n: usize, body: Vec<u8>) -> (Vec<u8>, Vec<u8>) {
    let mut tx = vec![0x03, (addr >> 16) as u8, (addr >> 8) as u8, addr as u8];
    tx.resize(4 + n, 0);
    let mut rx = vec![0u8; 4];
    rx.extend(body);
    (tx, rx)
}

fn eeprom_read_steps(data: &[u8]) -> Vec<Step> {
    let mut steps = Vec::new();
    let mut addr = 0usize;
    while addr < data.len() {
        let n = std::cmp::min(MAX_READ_CHUNK as usize, data.len() - addr);
        steps.push(Step { slave: 0x50, tx: vec![addr as u8], rx_len: n, read_back: data[addr..addr + n].to_vec(), nack: false });
        addr += n;
    }
    steps
}

#[test]
fn spi_read_reports_start_each_chunk_and_finish() {
    let mut mock = MockSpi::new(vec![read_step(0x100, 4096, vec![0x11; 4096]), read_step(0x1100, 4, vec![1, 2, 3, 4])]);
    let mut rec = Recorder::new();
    ops::read(&mut mock, &flash(16), 0x100, 4100, &mut rec).unwrap();
    assert_eq!(rec.events, vec!["start 4100", "update 4096", "update 4100", "finish"]);
}

#[test]
fn spi_read_failure_still_finishes() {
    let mut mock = MockSpi::new(vec![]);
    let mut rec = Recorder::new();
    let r = ops::read(&mut mock, &flash(16), 0, 16, &mut rec);
    assert!(matches!(r, Err(Error::ScriptMismatch { step: 0 })));
    assert_eq!(rec.events, vec!["start 16", "finish"]);
}

#[test]
fn spi_out_of_range_reports_nothing() {
    let mut mock = MockSpi::new(vec![]);
    let mut rec = Recorder::new();
    let r = ops::read(&mut mock, &flash(1), 0, 2048, &mut rec);
    assert!(matches!(r, Err(Error::AddressOutOfRange { .. })));
    assert!(rec.events.is_empty());
}

#[test]
fn spi_empty_requests_succeed_without_traffic() {
    let mut mock = MockSpi::new(vec![]);
    let chip = flash(16);
    assert_eq!(ops::read(&mut mock, &chip, 0x40, 0, &mut NullSink::new()).unwrap(), Vec::<u8>::new());
    assert_eq!(ops::verify(&mut mock, &chip, &[], 0x40, &mut NullSink::new()).unwrap(), 0);
    let rep = ops::verify_report(&mut mock, &chip, &[], 0x40, &mut NullSink::new()).unwrap();
    assert_eq!(rep.mismatches, 0);
    assert!(rep.first.is_none());
    assert_eq!(ops::erase_range(&mut mock, &chip, 0x1000, 0, &mut NullSink::new()).unwrap(), 0);
    ops::write(&mut mock, &chip, &[], 0x40, false, false, &mut NullSink::new()).unwrap();
    ops::write(&mut mock, &chip, &[], 0x1000, true, true, &mut NullSink::new()).unwrap();
    ops::blank_check(&mut mock, &flash(0), &mut NullSink::new()).unwrap();
    assert!(mock.is_drained());
}

#[test]
fn spi_blank_check_not_blank_finishes() {
    let mut body = vec![0xFFu8; 1024];
    body[10] = 0x5A;
    let mut mock = MockSpi::new(vec![read_step(0, 1024, body)]);
    let mut rec = Recorder::new();
    let r = ops::blank_check(&mut mock, &flash(1), &mut rec);
    assert!(matches!(r, Err(Error::NotBlank { addr: 10, value: 0x5A })));
    assert_eq!(rec.events, vec!["start 1024", "finish"]);
}

#[test]
fn spi_erase_range_reports_each_erase() {
    let mut mock = MockSpi::new(vec![
        (vec![0x06], vec![0x00]),
        (vec![0x20, 0x00, 0x00, 0x00], vec![0; 4]),
        (vec![0x05, 0x00], vec![0x00, 0x00]),
        (vec![0x06], vec![0x00]),
        (vec![0x20, 0x00, 0x10, 0x00], vec![0; 4]),
        (vec![0x05, 0x00], vec![0x00, 0x00]),
    ]);
    let mut rec = Recorder::new();
    let n = ops::erase_range(&mut mock, &flash(128), 0, 0x2000, &mut rec).unwrap();
    assert_eq!(n, 0x2000);
    assert_eq!(rec.events, vec!["start 8192", "update 4096", "update 8192", "finish"]);
}

#[test]
fn spi_erase_chip_failure_still_finishes() {
    let mut mock = MockSpi::new(vec![]);
    let mut rec = Recorder::new();
    assert!(ops::erase_chip(&mut mock, &flash(1), &mut rec).is_err());
    assert_eq!(rec.events, vec!["start 1024", "finish"]);
}

#[test]
fn mock_spi_mismatch_names_the_step_and_consumes_nothing() {
    let mut mock = MockSpi::new(vec![(vec![0x9F, 0, 0, 0], vec![0, 0xEF, 0x40, 0x18])]);
    let r = mock.spi_transfer(&[0x05, 0x00]);
    assert!(matches!(r, Err(Error::ScriptMismatch { step: 0 })));
    assert!(!mock.is_drained());
    assert_eq!(mock.spi_transfer(&[0x9F, 0, 0, 0]).unwrap(), vec![0, 0xEF, 0x40, 0x18]);
    assert!(mock.is_drained());
    assert!(matches!(mock.spi_transfer(&[0x9F, 0, 0, 0]), Err(Error::ScriptMismatch { step: 1 })));
}

#[test]
fn i2c_empty_requests_succeed_without_traffic() {
    let mut mock = MockI2c::new(vec![]);
    let chip = eeprom(256);
    assert_eq!(i2c_ops::read_bytes(&mut mock, &chip, 0x10, 0, 0, &mut NullSink::new()).unwrap(), Vec::<u8>::new());
    assert_eq!(etch341::i2c::read(&mut mock, &chip, 0x10, 0, 0).unwrap(), Vec::<u8>::new());
    etch341::i2c::write(&mut mock, &chip, 0x10, &[], 0).unwrap();
    i2c_ops::write(&mut mock, &chip, 0x10, &[], 0, &mut NullSink::new()).unwrap();
    assert_eq!(i2c_ops::verify(&mut mock, &chip, &[], 0x10, 0, &mut NullSink::new()).unwrap(), 0);
    let rep = i2c_ops::verify_report(&mut mock, &chip, &[], 0x10, 0, &mut NullSink::new()).unwrap();
    assert_eq!(rep.mismatches, 0);
    i2c_ops::blank_check(&mut mock, &eeprom(0), 0, &mut NullSink::new()).unwrap();
    i2c_ops::erase(&mut mock, &eeprom(0), 0, &mut NullSink::new()).unwrap();
    assert!(mock.is_drained());
}

#[test]
fn i2c_blank_check_not_blank_finishes() {
    let mut data = vec![0xFFu8; 256];
    data[42] = 0x00;
    let mut mock = MockI2c::new(eeprom_read_steps(&data));
    let mut rec = Recorder::new();
    let err = i2c_ops::blank_check(&mut mock, &eeprom(256), 0, &mut rec).unwrap_err();
    assert!(matches!(err, Error::NotBlank { addr: 42, value: 0 }));
    assert_eq!(rec.events, vec!["start 256", "finish"]);
}

#[test]
fn i2c_read_bytes_reports_each_block() {
    let data: Vec<u8> = (0..=255u8).collect();
    let mut mock = MockI2c::new(eeprom_read_steps(&data));
    let mut rec = Recorder::new();
    let got = i2c_ops::read_bytes(&mut mock, &eeprom(256), 0, 256, 0, &mut rec).unwrap();
    assert_eq!(got, data);
    assert_eq!(rec.events, vec!["start 256", "update 256", "finish"]);
}

#[test]
fn mock_i2c_nack_step_refuses() {
    let mut mock = MockI2c::new(vec![Step { slave: 0x50, tx: vec![0], rx_len: 1, read_back: vec![], nack: true }]);
    let r = etch341::i2c::read(&mut mock, &eeprom(256), 0, 1, 0);
    assert!(matches!(r, Err(Error::I2cNack { slave_7bit: 0x50 })));
    assert!(mock.is_drained());
}

#[test]
fn scripted_bus_answers_every_planned_step() {
    let mut mock = MockSpi::new(vec![(vec![0x06], vec![0x00]), (vec![0xC7], vec![0x00])]);
    etch341::spi::chip_erase(&mut mock).unwrap();
    assert!(mock.is_drained());
    let mut mock = MockSpi::new(vec![(vec![0x05, 0x00], vec![0x00, 0x00])]);
    etch341::spi::wait_until_ready(&mut mock, 10).unwrap();
    assert!(mock.is_drained());
}

#[test]
fn scripted_i2c_scan_acknowledges_every_address() {
    let mut mock = MockI2c::new(vec![]);
    let hits = i2c_ops::scan(&mut mock).unwrap();
    assert_eq!(hits.len(), 0x70);
    assert_eq!(hits[0], 0x08);
    assert_eq!(hits[0x6F], 0x77);
}

#[test]
fn read_len_defaults_to_rest_of_chip() {
    assert_eq!(etch341::cli::read_len(256, 16, None), 240);
    assert_eq!(etch341::cli::read_len(256, 300, None), 0);
    assert_eq!(etch341::cli::read_len(256, 16, Some(8)), 8);
}
