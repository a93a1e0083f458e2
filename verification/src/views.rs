//! View state behind the hex and diff panes, independent of any
//! toolkit: the side-by-side diff of two buffers with its region
//! navigation and selection copy, and the activity-log entries.
use crate::diff::{diff_offsets, diff_positions, diff_regions, header_rows_of, max_len, regions_of, rows_of, DiffRow};
use crate::present::{selection_hex, spaced_hex, DiffSide};
use std::sync::Arc;
use vstd::prelude::*;
use vstd::string::*;

verus! {

/// One activity-log entry: when it was logged (Unix seconds, UTC) and
/// what it says.
#[derive(Clone, Debug)]
pub struct LogLine {
    pub timestamp_secs: u64,
    pub text: String,
}

/// The chip read-back of the last failed verify, kept with the file it
/// was checked against and the differing offsets.
pub struct VerifyDiff {
    pub file_bytes: Arc<Vec<u8>>,
    pub chip_bytes: Arc<Vec<u8>>,
    pub offsets: Vec<usize>,
}

/// An open side-by-side diff: the two buffers, the display rows, the
/// header row of each region, the focused region, the number of
/// differing bytes, and the heading and side labels.
pub struct DiffView {
    /// Left side (red / removed).
    pub file: Arc<Vec<u8>>,
    /// Right side (green / added).
    pub chip: Arc<Vec<u8>>,
    pub rows: Arc<Vec<DiffRow>>,
    pub region_rows: Vec<usize>,
    /// Index into `region_rows` of the focused region.
    pub current: usize,
    pub total_diffs: usize,
    pub title: String,
    pub left_label: String,
    pub right_label: String,
}

impl DiffView {
    /// The diff of two files, `None` when they are identical. The rows
    /// cover the longer file; the view opens on the first region under
    /// the heading "Compare files".
    pub fn compare(a: Vec<u8>, b: Vec<u8>, left_label: String, right_label: String) -> (r: Option<DiffView>)
        requires
            a@.len() + 64 <= usize::MAX,
            b@.len() + 64 <= usize::MAX,
        ensures
            ({
                let n = max_len(a@, b@);
                let offs = diff_positions(a@, b@, n);
                &&& offs.len() == 0 ==> r is None
                &&& offs.len() > 0 ==> (r matches Some(v) && {
                    &&& v.file@ == a@
                    &&& v.chip@ == b@
                    &&& v.rows@ == rows_of(regions_of(offs, n))
                    &&& v.region_rows@ == header_rows_of(regions_of(offs, n))
                    &&& v.current == 0
                    &&& v.total_diffs == offs.len()
                    &&& v.title@ == "Compare files"@
                    &&& v.left_label@ == left_label@
                    &&& v.right_label@ == right_label@
                })
            }),
    {
        let offsets = diff_offsets(a.as_slice(), b.as_slice());
        if offsets.len() == 0 {
            return None;
        }
        let total: usize = if a.len() < b.len() { b.len() } else { a.len() };
        proof {
            crate::diff::lemma_diff_positions_ascending(a@, b@, total as int);
        }
        let (rows, region_rows) = diff_regions(offsets.as_slice(), total);
        let total_diffs = offsets.len();
        Some(DiffView {
            file: Arc::new(a),
            chip: Arc::new(b),
            rows: Arc::new(rows),
            region_rows,
            current: 0,
            total_diffs,
            title: String::from_str("Compare files"),
            left_label,
            right_label,
        })
    }

    /// The view of a failed verify: its offsets grouped over the shorter
    /// of the two buffers, labelled "file" and "chip" under the heading
    /// "Verify diff", focused on the first region.
    pub fn of_verify(d: &VerifyDiff) -> (r: DiffView)
        requires
            forall|i: int| 0 <= i < d.offsets@.len() ==> #[trigger] d.offsets@[i] + 33 <= usize::MAX,
            d.file_bytes@.len() + 16 <= usize::MAX,
            d.chip_bytes@.len() + 16 <= usize::MAX,
        ensures
            ({
                let n = if d.file_bytes@.len() < d.chip_bytes@.len() { d.file_bytes@.len() } else { d.chip_bytes@.len() };
                &&& r.file@ == d.file_bytes@
                &&& r.chip@ == d.chip_bytes@
                &&& r.rows@ == rows_of(regions_of(d.offsets@, n as int))
                &&& r.region_rows@ == header_rows_of(regions_of(d.offsets@, n as int))
                &&& r.current == 0
                &&& r.total_diffs == d.offsets@.len()
                &&& r.title@ == "Verify diff"@
                &&& r.left_label@ == "file"@
                &&& r.right_label@ == "chip"@
            }),
    {
        let len: usize = if d.file_bytes.len() < d.chip_bytes.len() { d.file_bytes.len() } else { d.chip_bytes.len() };
        let (rows, region_rows) = diff_regions(d.offsets.as_slice(), len);
        DiffView {
            file: d.file_bytes.clone(),
            chip: d.chip_bytes.clone(),
            rows: Arc::new(rows),
            region_rows,
            current: 0,
            total_diffs: d.offsets.len(),
            title: String::from_str("Verify diff"),
            left_label: String::from_str("file"),
            right_label: String::from_str("chip"),
        }
    }

    /// Focus the next (or previous) region, wrapping around, and return
    /// its header row; with no regions nothing changes.
    pub fn step_region(&mut self, forward: bool) -> (r: Option<usize>)
        requires
            old(self).region_rows@.len() > 0 ==> old(self).current < old(self).region_rows@.len(),
        ensures
            final(self).file == old(self).file,
            final(self).chip == old(self).chip,
            final(self).rows == old(self).rows,
            final(self).region_rows == old(self).region_rows,
            final(self).total_diffs == old(self).total_diffs,
            final(self).title == old(self).title,
            old(self).region_rows@.len() == 0 ==> r is None && final(self).current == old(self).current,
            ({
                let n = old(self).region_rows@.len();
                let c = old(self).current;
                n > 0 ==> {
                    &&& final(self).current == (if forward {
                        if c + 1 == n { 0 } else { c + 1 }
                    } else {
                        if c == 0 { n - 1 } else { c - 1 }
                    })
                    &&& r == Some(old(self).region_rows@[final(self).current as int])
                }
            }),
    {
        let n = self.region_rows.len();
        if n == 0 {
            return None;
        }
        let c = self.current;
        self.current = if forward {
            if c + 1 == n { 0 } else { c + 1 }
        } else {
            if c == 0 { n - 1 } else { c - 1 }
        };
        Some(self.region_rows[self.current])
    }

    /// The clipboard text of a selection `(side, a, b)` (ends in either
    /// order) on this view's buffers: the selected bytes, clipped to the
    /// buffer, as spaced upper-case hex; nothing when the selection starts
    /// past the end.
    pub fn selection_text(&self, sel: (DiffSide, usize, usize)) -> (r: Option<String>)
        requires
            sel.1 < usize::MAX,
            sel.2 < usize::MAX,
        ensures
            ({
                let (side, a, b) = sel;
                let lo = if a <= b { a } else { b };
                let hi = if a <= b { b } else { a };
                let buf = if side == DiffSide::File { self.file@ } else { self.chip@ };
                let end = if hi + 1 < buf.len() { hi + 1 } else { buf.len() as int };
                &&& lo >= end ==> r is None
                &&& lo < end ==> (r matches Some(t) && t@ == spaced_hex(buf.subrange(lo as int, end)))
            }),
    {
        let (side, a, b) = sel;
        let lo = if a <= b { a } else { b };
        let hi = if a <= b { b } else { a };
        match side {
            DiffSide::File => selection_hex(self.file.as_slice(), lo, hi),
            DiffSide::Chip => selection_hex(self.chip.as_slice(), lo, hi),
        }
    }
}

/// A selection anchored at `byte` on `side`; with `shift`, an existing
/// selection on the same side keeps its anchor and moves its end there.
pub fn begin_diff_selection(current: Option<(DiffSide, usize, usize)>, side: DiffSide, byte: usize, shift: bool) -> (r: Option<(DiffSide, usize, usize)>)
    ensures
        r == (match current {
            Some((s, anchor, _)) => if shift && s == side { Some((side, anchor, byte)) } else { Some((side, byte, byte)) },
            None => Some((side, byte, byte)),
        }),
{
    match current {
        Some((s, anchor, _)) => {
            if shift && s == side {
                Some((side, anchor, byte))
            } else {
                Some((side, byte, byte))
            }
        },
        None => Some((side, byte, byte)),
    }
}

/// Dragging to `byte` on `side` moves the end of a selection on that
/// side; anything else leaves the selection as it is.
pub fn extend_diff_selection(current: Option<(DiffSide, usize, usize)>, side: DiffSide, byte: usize) -> (r: Option<(DiffSide, usize, usize)>)
    ensures
        r == (match current {
            Some((s, anchor, _)) => if s == side { Some((side, anchor, byte)) } else { current },
            None => None,
        }),
{
    match current {
        Some((s, anchor, _)) => {
            if s == side {
                Some((side, anchor, byte))
            } else {
                current
            }
        },
        None => None,
    }
}

} // verus!
