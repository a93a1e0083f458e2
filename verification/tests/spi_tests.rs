use etch341::error::Error;
use etch341::spi::{
    block_erase_64k, chip_erase, erase_security_register, jedec_read, page_program, program_security_register,
    read_all_status, read_data, read_security_register, read_sfdp, read_status, sector_erase_4k, wait_until_ready,
    write_enable, Addressing, MockSpi, StatusRegisters,
};

#[test]
fn jedec_read_sends_9f_and_returns_3_bytes() {
    let mut mock = MockSpi::new(vec![(vec![0x9F, 0x00, 0x00, 0x00], vec![0xFF, 0xEF, 0x40, 0x18])]);
    assert_eq!(jedec_read(&mut mock).unwrap(), [0xEF, 0x40, 0x18]);
    assert!(mock.is_drained());
}

#[test]
fn read_data_3byte_builds_command_and_strips_header() {
    let mut mock = MockSpi::new(vec![(
        vec![0x03, 0x01, 0x23, 0x45, 0x00, 0x00, 0x00],
        vec![0x00, 0x00, 0x00, 0x00, 0xDE, 0xAD, 0xBE],
    )]);
    assert_eq!(read_data(&mut mock, Addressing::ThreeByte, 0x012345, 3).unwrap(), vec![0xDE, 0xAD, 0xBE]);
    assert!(mock.is_drained());
}

#[test]
fn read_data_4byte_uses_opcode_13_and_4_addr_bytes() {
    let mut mock = MockSpi::new(vec![(
        vec![0x13, 0x01, 0x23, 0x45, 0x67, 0x00, 0x00, 0x00],
        vec![0x00, 0x00, 0x00, 0x00, 0x00, 0xCA, 0xFE, 0xBA],
    )]);
    assert_eq!(read_data(&mut mock, Addressing::FourByte, 0x01234567, 3).unwrap(), vec![0xCA, 0xFE, 0xBA]);
    assert!(mock.is_drained());
}

#[test]
fn read_security_register_sends_48_plus_addr_plus_dummy_and_strips_header() {
    let mut mock = MockSpi::new(vec![(
        vec![0x48, 0x00, 0x10, 0x00, 0x00, 0x00, 0x00, 0x00],
        vec![0xFF, 0xFF, 0xFF, 0xFF, 0xFF, 0xDE, 0xAD, 0xBE],
    )]);
    assert_eq!(read_security_register(&mut mock, 0x1000, 3).unwrap(), vec![0xDE, 0xAD, 0xBE]);
    assert!(mock.is_drained());
}

#[test]
fn erase_security_register_sends_wren_then_44_plus_addr() {
    let mut mock = MockSpi::new(vec![(vec![0x06], vec![0x00]), (vec![0x44, 0x00, 0x20, 0x00], vec![0x00; 4])]);
    erase_security_register(&mut mock, 0x2000).unwrap();
    assert!(mock.is_drained());
}

#[test]
fn program_security_register_sends_wren_then_42_plus_addr_plus_data() {
    let mut mock = MockSpi::new(vec![
        (vec![0x06], vec![0x00]),
        (vec![0x42, 0x00, 0x30, 0x10, 0xDE, 0xAD, 0xBE, 0xEF], vec![0x00; 8]),
    ]);
    program_security_register(&mut mock, 0x3010, &[0xDE, 0xAD, 0xBE, 0xEF]).unwrap();
    assert!(mock.is_drained());
}

#[test]
fn program_security_register_empty_is_noop() {
    let mut mock = MockSpi::new(vec![]);
    program_security_register(&mut mock, 0x1000, &[]).unwrap();
    assert!(mock.is_drained());
}

#[test]
fn sector_erase_3byte_sends_wren_then_20_plus_addr() {
    let mut mock = MockSpi::new(vec![
        (vec![0x06], vec![0x00]),
        (vec![0x20, 0x00, 0x10, 0x00], vec![0x00, 0x00, 0x00, 0x00]),
    ]);
    sector_erase_4k(&mut mock, Addressing::ThreeByte, 0x1000).unwrap();
    assert!(mock.is_drained());
}

#[test]
fn sector_erase_4byte_uses_opcode_21_and_4_addr_bytes() {
    let mut mock = MockSpi::new(vec![(vec![0x06], vec![0x00]), (vec![0x21, 0x01, 0x00, 0x10, 0x00], vec![0x00; 5])]);
    sector_erase_4k(&mut mock, Addressing::FourByte, 0x01001000).unwrap();
    assert!(mock.is_drained());
}

#[test]
fn block_erase_3byte_sends_wren_then_d8_plus_addr() {
    let mut mock = MockSpi::new(vec![
        (vec![0x06], vec![0x00]),
        (vec![0xD8, 0x01, 0x00, 0x00], vec![0x00, 0x00, 0x00, 0x00]),
    ]);
    block_erase_64k(&mut mock, Addressing::ThreeByte, 0x10000).unwrap();
    assert!(mock.is_drained());
}

#[test]
fn block_erase_4byte_uses_opcode_dc_and_4_addr_bytes() {
    let mut mock = MockSpi::new(vec![(vec![0x06], vec![0x00]), (vec![0xDC, 0x02, 0x00, 0x00, 0x00], vec![0x00; 5])]);
    block_erase_64k(&mut mock, Addressing::FourByte, 0x02000000).unwrap();
    assert!(mock.is_drained());
}

#[test]
fn chip_erase_sends_wren_then_c7() {
    let mut mock = MockSpi::new(vec![(vec![0x06], vec![0x00]), (vec![0xC7], vec![0x00])]);
    chip_erase(&mut mock).unwrap();
    assert!(mock.is_drained());
}

#[test]
fn page_program_3byte_within_page() {
    let mut mock = MockSpi::new(vec![
        (vec![0x06], vec![0x00]),
        (vec![0x02, 0x00, 0x00, 0x80, 0xAA, 0xBB, 0xCC], vec![0; 7]),
    ]);
    page_program(&mut mock, Addressing::ThreeByte, 0x80, &[0xAA, 0xBB, 0xCC], 256).unwrap();
    assert!(mock.is_drained());
}

#[test]
fn page_program_4byte_uses_opcode_12() {
    let mut mock = MockSpi::new(vec![
        (vec![0x06], vec![0x00]),
        (vec![0x12, 0x01, 0x00, 0x00, 0x00, 0xDE, 0xAD], vec![0; 7]),
    ]);
    page_program(&mut mock, Addressing::FourByte, 0x01000000, &[0xDE, 0xAD], 256).unwrap();
    assert!(mock.is_drained());
}

#[test]
fn page_program_rejects_boundary_crossing() {
    let mut mock = MockSpi::new(vec![]);
    let r = page_program(&mut mock, Addressing::ThreeByte, 0xFE, &[0, 0, 0, 0], 256);
    assert!(matches!(r, Err(Error::PageBoundaryCrossing { .. })));
}

#[test]
fn wait_until_ready_returns_when_wip_clears() {
    let mut mock = MockSpi::new(vec![
        (vec![0x05, 0x00], vec![0x00, 0x01]),
        (vec![0x05, 0x00], vec![0x00, 0x01]),
        (vec![0x05, 0x00], vec![0x00, 0x00]),
    ]);
    wait_until_ready(&mut mock, 1000).unwrap();
    assert!(mock.is_drained());
}

#[test]
fn wait_until_ready_gives_up_after_its_poll_budget() {
    let mut mock = MockSpi::new(vec![
        (vec![0x05, 0x00], vec![0x00, 0x01]),
        (vec![0x05, 0x00], vec![0x00, 0x01]),
    ]);
    let r = wait_until_ready(&mut mock, 1);
    assert!(matches!(r, Err(Error::Timeout)));
}

#[test]
fn read_status_returns_second_byte() {
    let mut mock = MockSpi::new(vec![(vec![0x05, 0x00], vec![0xFF, 0x1C])]);
    assert_eq!(read_status(&mut mock).unwrap(), 0x1C);
}

#[test]
fn read_all_status_reads_three_registers_in_order() {
    let mut mock = MockSpi::new(vec![
        (vec![0x05, 0x00], vec![0x00, 0x03]),
        (vec![0x35, 0x00], vec![0x00, 0x02]),
        (vec![0x15, 0x00], vec![0x00, 0x60]),
    ]);
    let r = read_all_status(&mut mock).unwrap();
    assert_eq!((r.sr1, r.sr2, r.sr3), (0x03, 0x02, 0x60));
    assert!(r.wip() && r.wel() && r.qe());
    assert_eq!(r.drv(), 3);
}

#[test]
fn write_enable_sends_06() {
    let mut mock = MockSpi::new(vec![(vec![0x06], vec![0x00])]);
    write_enable(&mut mock).unwrap();
    assert!(mock.is_drained());
}

#[test]
fn read_sfdp_sends_5a_with_dummy_byte() {
    let mut mock = MockSpi::new(vec![(vec![0x5A, 0x00, 0x00, 0x00, 0x00, 0x00, 0x00], vec![0, 0, 0, 0, 0, 0x53, 0x46])]);
    assert_eq!(read_sfdp(&mut mock, 0, 2).unwrap(), vec![0x53, 0x46]);
}

#[test]
fn unexpected_transfer_is_a_script_mismatch() {
    let mut mock = MockSpi::new(vec![(vec![0x06], vec![0x00])]);
    assert!(matches!(jedec_read(&mut mock), Err(Error::ScriptMismatch { step: 0 })));
    assert!(!mock.is_drained());
}

#[test]
fn status_bit_accessors_decode_each_field() {
    let r = StatusRegisters { sr1: 0b1111_1100, sr2: 0b1011_1001, sr3: 0b1010_0110 };
    assert!(!r.wip() && !r.wel());
    assert_eq!(r.bp(), 7);
    assert!(r.tb() && r.sec_or_bp3() && r.srp0());
    assert!(r.srp1() && !r.qe() && r.cmp() == false && r.sus());
    assert_eq!(r.lb(), 7);
    assert!(r.adp() && r.wps() && r.hold_rst());
    assert_eq!(r.drv(), 1);
    assert!(r.sr2_present() && r.sr3_present());
    assert!(!StatusRegisters { sr1: 0, sr2: 0xFF, sr3: 0xFF }.sr2_present());
}
