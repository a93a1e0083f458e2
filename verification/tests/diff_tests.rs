use etch341::diff::{diff_offsets, diff_regions, render_regions, DiffRow};

#[test]
fn offsets_pairwise() {
    assert_eq!(diff_offsets(&[1, 2, 3], &[1, 9, 3]), vec![1]);
    assert!(diff_offsets(&[1, 2, 3], &[1, 2, 3]).is_empty());
}

#[test]
fn offsets_count_trailing_length_mismatch() {
    assert_eq!(diff_offsets(&[1, 2, 3, 4], &[1, 2]), vec![2, 3]);
    assert_eq!(diff_offsets(&[1, 2], &[1, 2, 3, 4]), vec![2, 3]);
}

#[test]
fn regions_merge_nearby_and_align_to_row() {
    let (rows, region_rows) = diff_regions(&[0x10, 0x12], 0x100);
    assert_eq!(region_rows.len(), 1);
    assert!(matches!(rows[0], DiffRow::Header { diff_count: 2, .. }));
}

#[test]
fn regions_split_when_far_apart() {
    let (_, region_rows) = diff_regions(&[0x00, 0x800], 0x1000);
    assert_eq!(region_rows.len(), 2);
}

#[test]
fn render_plain_has_no_escapes() {
    let a = vec![0u8; 32];
    let mut b = a.clone();
    b[3] = 0xFF;
    let offsets = diff_offsets(&a, &b);
    let (rows, _) = diff_regions(&offsets, 32);
    let text = render_regions(&a, &b, &rows, 0, false, ("file", "chip"));
    assert!(!text.contains('\x1b'));
    assert!(text.contains("byte(s) differ"));
    assert!(text.contains("file") && text.contains("chip"));
}

#[test]
fn render_color_marks_only_the_differing_byte() {
    let a = vec![0u8; 16];
    let mut b = a.clone();
    b[1] = 0xAB;
    let offsets = diff_offsets(&a, &b);
    let (rows, _) = diff_regions(&offsets, 16);
    let text = render_regions(&a, &b, &rows, 0, true, ("a", "b"));
    assert!(text.contains("\x1b[32mAB\x1b[0m"));
    assert!(!text.contains("\x1b[32m00\x1b[0m"));
}

#[test]
fn render_base_offsets_addresses() {
    let a = vec![0u8; 16];
    let mut b = a.clone();
    b[0] = 1;
    let offsets = diff_offsets(&a, &b);
    let (rows, _) = diff_regions(&offsets, 16);
    let text = render_regions(&a, &b, &rows, 0x1000, false, ("a", "b"));
    assert!(text.contains("0x00001000"));
}

#[test]
fn regions_are_row_aligned_with_context() {
    // One diff at 0x40 in a 0x100 buffer: context of two rows either side.
    let (rows, region_rows) = diff_regions(&[0x40], 0x100);
    assert_eq!(region_rows, vec![0]);
    assert!(matches!(rows[0], DiffRow::Header { first_diff: 0x40, diff_count: 1 }));
    let offsets: Vec<usize> = rows[1..]
        .iter()
        .map(|r| match r {
            DiffRow::Bytes { offset } => *offset,
            DiffRow::Header { .. } => usize::MAX,
        })
        .collect();
    assert_eq!(offsets, vec![0x20, 0x30, 0x40, 0x50, 0x60]);
}

#[test]
fn region_counts_add_up_to_all_offsets() {
    let offsets = vec![0x00, 0x01, 0x02, 0x800, 0x801];
    let (rows, region_rows) = diff_regions(&offsets, 0x1000);
    let mut total = 0;
    for &i in &region_rows {
        if let DiffRow::Header { diff_count, .. } = rows[i] {
            total += diff_count;
        }
    }
    assert_eq!(total, offsets.len());
}

#[test]
fn no_offsets_no_regions() {
    let (rows, region_rows) = diff_regions(&[], 0x100);
    assert!(rows.is_empty());
    assert!(region_rows.is_empty());
}

#[test]
fn every_difference_is_inside_a_shown_row() {
    let a = vec![0u8; 0x400];
    let mut b = a.clone();
    for &i in &[0x3usize, 0x50, 0x51, 0x200, 0x3FF] {
        b[i] = 0xFF;
    }
    let offsets = diff_offsets(&a, &b);
    let (rows, _) = diff_regions(&offsets, 0x400);
    for &o in &offsets {
        assert!(rows.iter().any(|r| matches!(r, DiffRow::Bytes { offset } if *offset <= o && o < offset + 16)));
    }
}

#[test]
fn region_rows_ascend_without_overlap() {
    let (rows, region_rows) = diff_regions(&[0x05, 0x90, 0x95, 0x400], 0x1000);
    assert_eq!(region_rows.len(), 3);
    let offsets: Vec<usize> = rows
        .iter()
        .filter_map(|r| match r {
            DiffRow::Bytes { offset } => Some(*offset),
            _ => None,
        })
        .collect();
    assert!(!offsets.is_empty());
    for w in offsets.windows(2) {
        assert!(w[0] < w[1]);
    }
}
