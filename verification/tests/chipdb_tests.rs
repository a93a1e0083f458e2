use etch341::chipdb::{validate_chips, validate_i2c_chips, Chip, ChipDb, I2cChip, I2cChipDb};

fn chip(name: &str, jedec: &str, notes: &str) -> Chip {
    Chip {
        name: name.into(),
        jedec_id: jedec.into(),
        size_kb: 16384,
        page_size: 256,
        sector_size: 4096,
        erase_time_ms: 40000,
        notes: notes.into(),
    }
}

fn sample_db() -> ChipDb {
    ChipDb::from_chips(vec![
        chip("W25Q128JV", "EF4018", ""),
        chip("W25Q128JW", "EF6018", "1.8V"),
        chip("MX25U6435F", "C22537", "1.8V"),
        chip("AT25DN512C", "1F6501", "2.3V"),
        chip("GD25Q64", "C84017", "3.3V"),
    ])
    .unwrap()
}

#[test]
fn rejects_zero_page_or_sector() {
    let mut chips = vec![Chip {
        name: "BAD".into(),
        jedec_id: "AABBCC".into(),
        size_kb: 1024,
        page_size: 0,
        sector_size: 4096,
        erase_time_ms: 0,
        notes: String::new(),
    }];
    assert!(validate_chips(&chips).is_err(), "zero page_size must reject");
    chips[0].page_size = 256;
    chips[0].sector_size = 0;
    assert!(validate_chips(&chips).is_err(), "zero sector_size must reject");
}

#[test]
fn rejects_bad_i2c_addr_width() {
    let chips = vec![I2cChip {
        name: "BAD".into(),
        size_bytes: 256,
        page_size: 8,
        addr_width: 3,
        slave_addr_bits: 0,
        write_cycle_ms: 5,
    }];
    assert!(validate_i2c_chips(&chips).is_err());
}

#[test]
fn validation_messages_name_entry_and_field() {
    let mut c = chip("ZERO", "AABBCC", "");
    c.size_kb = 0;
    assert_eq!(validate_chips(&[c]).unwrap_err(), "ZERO: size_kb must be non-zero");
    let bad = I2cChip {
        name: "E".into(),
        size_bytes: 256,
        page_size: 8,
        addr_width: 3,
        slave_addr_bits: 0,
        write_cycle_ms: 5,
    };
    assert_eq!(validate_i2c_chips(&[bad]).unwrap_err(), "E: addr_width must be 1 or 2, got 3");
    assert!(validate_chips(&[chip("OK", "EF4018", "")]).is_ok());
}

#[test]
fn lookup_by_jedec_is_case_insensitive() {
    let db = sample_db();
    let first = db.iter().next().unwrap();
    assert!(db.find_by_jedec(&first.jedec_id.to_ascii_lowercase()).is_some());
    assert!(db.find_by_jedec(&first.jedec_id.to_ascii_uppercase()).is_some());
    assert!(db.find_by_jedec("123456").is_none());
}

#[test]
fn lookup_by_name_ignores_case_and_takes_first() {
    let db = sample_db();
    assert_eq!(db.find_by_name("w25q128jw").unwrap().jedec_id, "EF6018");
    assert!(db.find_by_name("nope").is_none());
    assert_eq!(db.len(), 5);
    assert!(!db.is_empty());
}

#[test]
fn voltage_matches_notes_where_present() {
    let db = sample_db();
    for c in db.iter() {
        let v = c.voltage();
        assert!(matches!(v, "3.3V" | "1.8V" | "2.3V"), "{}: unexpected voltage {v}", c.name);
        for known in ["1.8V", "2.3V", "3.3V"] {
            if c.notes.contains(known) {
                assert_eq!(v, known, "{}: note says {known}, derived {v}", c.name);
            }
        }
    }
}

#[test]
fn voltage_is_derived_from_jedec_prefix() {
    assert_eq!(chip("a", "ef6018", "").voltage(), "1.8V");
    assert_eq!(chip("b", "1F4218", "").voltage(), "1.8V");
    assert_eq!(chip("c", "C86017", "").voltage(), "1.8V");
    assert_eq!(chip("d", "1F6501", "").voltage(), "2.3V");
    assert_eq!(chip("e", "EF4018", "").voltage(), "3.3V");
}

#[test]
fn from_chips_refuses_invalid_catalogue() {
    let mut c = chip("Z", "AABBCC", "");
    c.sector_size = 0;
    assert!(ChipDb::from_chips(vec![c]).is_err());
    let i2c = I2cChipDb::from_chips(vec![I2cChip {
        name: "24C02".into(),
        size_bytes: 256,
        page_size: 8,
        addr_width: 1,
        slave_addr_bits: 0,
        write_cycle_ms: 5,
    }])
    .unwrap();
    assert_eq!(i2c.find_by_name("24c02").unwrap().size_bytes, 256);
    assert_eq!(i2c.iter().next().unwrap().voltage(), "1.8–5.5V");
}
