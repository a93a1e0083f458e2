use etch341::chipdb::{Chip, ChipDb, I2cChip, I2cChipDb};
use etch341::cli::{
    chip_listing, fmt_bytes, parse_addr, parse_range, plural, resolve_chip_offline, resolve_i2c_chip_offline,
    search_hit_line, truncate, validate_i2c_range, validate_spi_range, GlobalOpts,
};

fn spi_chip() -> Chip {
    Chip {
        name: "W25Q128JV".into(),
        jedec_id: "EF4018".into(),
        size_kb: 16384,
        page_size: 256,
        sector_size: 4096,
        erase_time_ms: 40000,
        notes: "main".into(),
    }
}

fn i2c_chip() -> I2cChip {
    I2cChip { name: "24C02".into(), size_bytes: 256, page_size: 8, addr_width: 1, slave_addr_bits: 0, write_cycle_ms: 5 }
}

fn opts(chip: Option<&str>, speed: Option<u32>) -> GlobalOpts {
    GlobalOpts { chip: chip.map(|s| s.to_string()), speed, verbose: false, dry_run: true }
}

#[test]
fn parse_addr_accepts_decimal_and_hex() {
    assert_eq!(parse_addr("4096"), Ok(4096));
    assert_eq!(parse_addr(" 0x1000 "), Ok(0x1000));
    assert_eq!(parse_addr("0XfF"), Ok(255));
    assert_eq!(parse_addr("+7"), Ok(7));
    assert_eq!(parse_addr("4294967295"), Ok(u32::MAX));
}

#[test]
fn parse_addr_reports_parse_int_errors() {
    assert_eq!(parse_addr(""), Err("cannot parse integer from empty string".to_string()));
    assert_eq!(parse_addr("0x"), Err("cannot parse integer from empty string".to_string()));
    assert_eq!(parse_addr("12g"), Err("invalid digit found in string".to_string()));
    assert_eq!(parse_addr("-1"), Err("invalid digit found in string".to_string()));
    assert_eq!(parse_addr("4294967296"), Err("number too large to fit in target type".to_string()));
    assert_eq!(parse_addr("0x100000000"), Err("number too large to fit in target type".to_string()));
}

#[test]
fn parse_range_splits_at_first_colon() {
    assert_eq!(parse_range("0x10:32"), Ok((16, 32)));
    assert_eq!(parse_range("16"), Err("--range must be START:LEN, got \"16\"".to_string()));
    assert_eq!(parse_range("x:1"), Err("invalid digit found in string".to_string()));
    assert_eq!(parse_range("1:2:3"), Err("invalid digit found in string".to_string()));
}

#[test]
fn range_validation_messages() {
    let mut c = spi_chip();
    c.size_kb = 1;
    c.name = "FAKE".into();
    assert!(validate_spi_range(&c, 0, 1024).is_ok());
    assert_eq!(
        validate_spi_range(&c, 0x400, 1),
        Err("address range out of bounds: 0x00000400..0x00000401 on a 1 KB chip (FAKE)".to_string())
    );
    assert_eq!(
        validate_spi_range(&c, u32::MAX, 5),
        Err("address range out of bounds: 0xFFFFFFFF..0xFFFFFFFF on a 1 KB chip (FAKE)".to_string())
    );
    let e = i2c_chip();
    assert!(validate_i2c_range(&e, 250, 6).is_ok());
    assert_eq!(
        validate_i2c_range(&e, 250, 10),
        Err("address range out of bounds: 0x000000FA..0x00000104 on a 256 B chip (24C02)".to_string())
    );
}

#[test]
fn offline_resolution_needs_a_known_name() {
    let db = ChipDb::from_chips(vec![spi_chip()]).unwrap();
    let i2c = I2cChipDb::from_chips(vec![i2c_chip()]).unwrap();
    assert_eq!(resolve_chip_offline(&opts(Some("w25q128jv"), None), &db).unwrap().jedec_id, "EF4018");
    assert_eq!(
        resolve_chip_offline(&opts(None, None), &db).unwrap_err(),
        "--dry-run requires --chip <NAME> (no hardware to autodetect)"
    );
    assert_eq!(
        resolve_chip_offline(&opts(Some("foo"), None), &db).unwrap_err(),
        "--chip foo: not in chip DB (try `etch341 chips --find foo`)"
    );
    assert_eq!(resolve_i2c_chip_offline(&opts(Some("24C02"), None), &i2c).unwrap().size_bytes, 256);
    assert_eq!(resolve_i2c_chip_offline(&opts(None, None), &i2c).unwrap_err(), "I²C ops require --chip <NAME>");
    assert_eq!(resolve_i2c_chip_offline(&opts(Some("x"), None), &i2c).unwrap_err(), "--chip x: not in i2c_chips.toml");
}

#[test]
fn speeds_default_and_i2c_limit() {
    assert_eq!(opts(None, None).spi_speed(), 750);
    assert_eq!(opts(None, Some(1500)).spi_speed(), 1500);
    assert_eq!(opts(None, None).i2c_speed(), Ok(100));
    assert_eq!(opts(None, Some(400)).i2c_speed(), Ok(400));
    assert_eq!(
        opts(None, Some(750)).i2c_speed(),
        Err("I²C clock 750 kHz exceeds the 400 kHz max for the 24Cxx family. Use -s 100 (default), -s 20, or -s 400."
            .to_string())
    );
}

#[test]
fn fmt_bytes_units() {
    assert_eq!(fmt_bytes(0), "0 B");
    assert_eq!(fmt_bytes(1023), "1023 B");
    assert_eq!(fmt_bytes(1536), "1 KB");
    assert_eq!(fmt_bytes(16 << 20), "16 MB");
    assert_eq!(fmt_bytes(3 << 30), "3 GB");
}

#[test]
fn truncate_and_plural() {
    assert_eq!(truncate("abc", 4), "abc");
    assert_eq!(truncate("abcdef", 4), "abc…");
    assert_eq!(truncate("abcdef", 0), "…");
    assert_eq!(plural(1), "");
    assert_eq!(plural(0), "s");
    assert_eq!(plural(2), "s");
}

#[test]
fn chip_listing_renders_both_sections() {
    let db = ChipDb::from_chips(vec![spi_chip()]).unwrap();
    let i2c = I2cChipDb::from_chips(vec![i2c_chip()]).unwrap();
    let lines = chip_listing(&db, &i2c, None, None);
    assert_eq!(
        lines,
        vec![
            "SPI flash (1 chip):",
            "  NAME           JEDEC    SIZE       VOLT   PAGE    SECTOR   NOTES",
            "  W25Q128JV      EF4018   16 MB      3.3V   256 B   4 KB     main",
            "",
            "I²C EEPROMs (1 chip):",
            "  NAME       SIZE       VOLT      PAGE   ADDR  ",
            "  24C02      256 B      1.8–5.5V  8 B    1 B   ",
        ]
    );
}

#[test]
fn chip_listing_filters_by_bus_and_needle() {
    let db = ChipDb::from_chips(vec![spi_chip()]).unwrap();
    let i2c = I2cChipDb::from_chips(vec![i2c_chip()]).unwrap();
    assert_eq!(chip_listing(&db, &i2c, Some("spi"), Some("zzz")), vec!["SPI flash (0 chips):"]);
    let by_id = chip_listing(&db, &i2c, Some("spi"), Some("ef40"));
    assert_eq!(by_id.len(), 3);
    assert_eq!(chip_listing(&db, &i2c, Some("i2c"), Some("24C")).len(), 3);
}

#[test]
fn search_hit_line_uppercases_the_match() {
    let bytes = b"hello NVIDIA world";
    assert_eq!(
        search_hit_line(bytes, 6, 6, 2),
        "  0x00000006  6f 20 4E 56 49 44 49 41 20 77  |o NVIDIA w|"
    );
    assert_eq!(search_hit_line(b"\x00AB", 1, 2, 4), "  0x00000001  00 41 42  |.AB|");
}

#[test]
fn printed_addresses_parse_back() {
    for n in [0u32, 7, 0x1000, 0x00FF_FFFF, u32::MAX] {
        assert_eq!(parse_addr(&format!("0x{:08X}", n)), Ok(n));
        assert_eq!(parse_addr(&format!("0x{:X}", n)), Ok(n));
        assert_eq!(parse_addr(&n.to_string()), Ok(n));
    }
}
