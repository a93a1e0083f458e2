use etch341::diff::DiffRow;
use etch341::present::DiffSide;
use etch341::views::{begin_diff_selection, extend_diff_selection, DiffView, LogLine, VerifyDiff};
use std::sync::Arc;

#[test]
fn compare_identical_files_opens_nothing() {
    assert!(DiffView::compare(vec![1, 2, 3], vec![1, 2, 3], "a".into(), "b".into()).is_none());
}

#[test]
fn compare_builds_regions_and_steps_through_them() {
    let a = vec![0u8; 0x1000];
    let mut b = a.clone();
    b[0x10] = 1;
    b[0x800] = 2;
    let mut v = DiffView::compare(a, b, "old.bin".into(), "new.bin".into()).unwrap();
    assert_eq!(v.title, "Compare files");
    assert_eq!(v.total_diffs, 2);
    assert_eq!(v.region_rows.len(), 2);
    assert!(matches!(v.rows[0], DiffRow::Header { first_diff: 0x10, diff_count: 1 }));
    let second = v.region_rows[1];
    assert_eq!(v.step_region(true), Some(second));
    assert_eq!(v.step_region(true), Some(0));
    assert_eq!(v.step_region(false), Some(second));
    assert_eq!(v.current, 1);
}

#[test]
fn verify_view_uses_file_and_chip_labels() {
    let d = VerifyDiff { file_bytes: Arc::new(vec![0xAA; 32]), chip_bytes: Arc::new(vec![0x00; 32]), offsets: (0..32).collect() };
    let v = DiffView::of_verify(&d);
    assert_eq!(v.title, "Verify diff");
    assert_eq!((v.left_label.as_str(), v.right_label.as_str()), ("file", "chip"));
    assert_eq!(v.total_diffs, 32);
    assert_eq!(v.selection_text((DiffSide::File, 3, 1)).unwrap(), "AA AA AA");
    assert_eq!(v.selection_text((DiffSide::Chip, 30, 40)).unwrap(), "00 00");
    assert!(v.selection_text((DiffSide::Chip, 40, 50)).is_none());
}

#[test]
fn diff_selection_anchors_and_extends() {
    let s = begin_diff_selection(None, DiffSide::File, 5, true);
    assert_eq!(s, Some((DiffSide::File, 5, 5)));
    let s = begin_diff_selection(s, DiffSide::File, 9, true);
    assert_eq!(s, Some((DiffSide::File, 5, 9)));
    assert_eq!(begin_diff_selection(s, DiffSide::Chip, 2, true), Some((DiffSide::Chip, 2, 2)));
    assert_eq!(extend_diff_selection(s, DiffSide::File, 12), Some((DiffSide::File, 5, 12)));
    assert_eq!(extend_diff_selection(s, DiffSide::Chip, 12), s);
    assert_eq!(extend_diff_selection(None, DiffSide::Chip, 12), None);
}

#[test]
fn log_line_holds_time_and_text() {
    let l = LogLine { timestamp_secs: 3600, text: "→ detect".into() };
    assert_eq!(l.clone().timestamp_secs, 3600);
}
