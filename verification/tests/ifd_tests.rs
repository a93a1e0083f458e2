use etch341::ifd::{density_to_bytes, parse, u32le, DESC_LEN, FLVALSIG};

fn descriptor(regs: &[u32], masters: &[u32], flcomp: u32) -> Vec<u8> {
    let mut d = vec![0u8; DESC_LEN];
    d[0x10..0x14].copy_from_slice(&FLVALSIG.to_le_bytes());
    let flmap0 = 0x03 | (0x04 << 16) | (((regs.len() - 1) as u32) << 24);
    d[0x14..0x18].copy_from_slice(&flmap0.to_le_bytes());
    let flmap1 = 0x06 | (((masters.len() - 1) as u32) << 8);
    d[0x18..0x1c].copy_from_slice(&flmap1.to_le_bytes());
    d[0x30..0x34].copy_from_slice(&flcomp.to_le_bytes());
    for (i, r) in regs.iter().enumerate() {
        d[0x40 + i * 4..0x44 + i * 4].copy_from_slice(&r.to_le_bytes());
    }
    for (i, m) in masters.iter().enumerate() {
        d[0x60 + i * 4..0x64 + i * 4].copy_from_slice(&m.to_le_bytes());
    }
    d
}

#[test]
fn parses_regions_masters_and_density() {
    let d = descriptor(
        &[0x0000_0000, 0x07ff_0400, 0x03ff_0001, 0x0000_7fff],
        &[0x0a0b_0000, 0x0c0d_0000, 0x0808_0118],
        0x6490_0044,
    );
    let ifd = parse(&d).unwrap();
    assert_eq!(ifd.regions.len(), 3);
    assert_eq!(ifd.regions[0].name, "Flash Descriptor");
    assert_eq!(ifd.regions[1].name, "BIOS");
    assert_eq!((ifd.regions[1].base, ifd.regions[1].limit), (0x40_0000, 0x7f_ffff));
    assert_eq!(ifd.regions[1].size(), 0x40_0000);
    assert_eq!(ifd.regions[2].name, "Intel ME");
    assert_eq!(ifd.density_bytes, Some(8 << 20));
    assert!(ifd.bios_can_write(1));
    assert!(!ifd.bios_can_write(0));
    assert!(!ifd.bios_can_write(2));
}

#[test]
fn rejects_non_descriptor_image() {
    assert!(parse(&vec![0xFF; DESC_LEN]).is_none());
    assert!(parse(b"too short").is_none());
}

#[test]
fn density_codes_double_from_512_kib() {
    assert_eq!(density_to_bytes(0), Some(512 * 1024));
    assert_eq!(density_to_bytes(7), Some(64 << 20));
    assert_eq!(density_to_bytes(8), None);
}

#[test]
fn u32le_reads_little_endian_inside_bounds_only() {
    let b = [0x78, 0x56, 0x34, 0x12, 0xFF];
    assert_eq!(u32le(&b, 0), Some(0x1234_5678));
    assert_eq!(u32le(&b, 2), None);
}
