//! Byte-diff core for the verify-diff views: which bytes differ, how
//! they group into row-aligned regions with context, and a side-by-side
//! terminal rendering of those regions.
use crate::text::{dec, hex, push_dec, push_hex, push_str};
use vstd::prelude::*;

verus! {

/// Bytes shown per diff row.
pub const DIFF_ROW_BYTES: usize = 16;
/// Context rows kept on each side of a differing run.
pub const DIFF_CONTEXT_ROWS: usize = 2;
/// Context in bytes (`DIFF_CONTEXT_ROWS * DIFF_ROW_BYTES`).
pub const DIFF_CONTEXT_BYTES: usize = 32;

/// One row of a side-by-side diff: a region header or a 16-byte data row.
#[derive(Clone, Copy, Debug)]
pub enum DiffRow {
    Header { first_diff: usize, diff_count: usize },
    Bytes { offset: usize },
}

/// Position `i` holds different bytes in `a` and `b`, a byte present on
/// one side only counting as different.
pub open spec fn differs_at(a: Seq<u8>, b: Seq<u8>, i: int) -> bool {
    if i < a.len() && i < b.len() {
        a[i] != b[i]
    } else {
        i < a.len() || i < b.len()
    }
}

/// The differing positions below `k`, ascending.
pub open spec fn diff_positions(a: Seq<u8>, b: Seq<u8>, k: int) -> Seq<usize>
    decreases k,
{
    if k <= 0 {
        Seq::empty()
    } else if differs_at(a, b, k - 1) {
        diff_positions(a, b, k - 1).push((k - 1) as usize)
    } else {
        diff_positions(a, b, k - 1)
    }
}

/// The longer of the two lengths.
pub open spec fn max_len(a: Seq<u8>, b: Seq<u8>) -> int {
    if a.len() < b.len() {
        b.len() as int
    } else {
        a.len() as int
    }
}

/// Every index where `a` and `b` differ, ascending, over the length of
/// the longer side (so a length mismatch shows up as differences).
pub fn diff_offsets(a: &[u8], b: &[u8]) -> (r: Vec<usize>)
    ensures
        r@ == diff_positions(a@, b@, max_len(a@, b@)),
{
    let n: usize = if a.len() < b.len() { b.len() } else { a.len() };
    let mut out: Vec<usize> = Vec::new();
    let mut i: usize = 0;
    while i < n
        invariant
            i <= n,
            n == max_len(a@, b@),
            out@ == diff_positions(a@, b@, i as int),
        decreases n - i,
    {
        let d = if i < a.len() && i < b.len() {
            a[i] != b[i]
        } else {
            i < a.len() || i < b.len()
        };
        if d {
            out.push(i);
        }
        i = i + 1;
    }
    out
}

/// A region being built: aligned start, clamped end, first differing
/// index and how many differences it holds.
pub type Region = (int, int, int, int);

/// The region a run of differences `first ..= last` (holding `count`)
/// shows: from `first - 32` rounded down to a row start (not below 0),
/// to `last + 33` clamped to `total`.
pub open spec fn run_region(first: int, last: int, count: int, total: int) -> Region {
    let s = if first < 32 { 0 } else { first - 32 };
    let e = if last + 33 < total { last + 33 } else { total };
    ((s / 16) * 16, e, first, count)
}

/// Add a run's region to `rs`, folding it into the last region when the
/// two touch.
pub open spec fn add_region(rs: Seq<Region>, g: Region) -> Seq<Region> {
    if rs.len() > 0 && g.0 <= rs.last().1 {
        let l = rs.last();
        rs.drop_last().push((l.0, if l.1 < g.1 { g.1 } else { l.1 }, l.2, l.3 + g.3))
    } else {
        rs.push(g)
    }
}

/// State after scanning the first `k` offsets: the closed regions and
/// the open run `(first, last, count)`, if any. A difference joins the
/// open run when it lies at most 64 bytes past the run's last one.
pub open spec fn scan_runs(offs: Seq<usize>, k: int, total: int) -> (Seq<Region>, Option<(int, int, int)>)
    decreases k,
{
    if k <= 0 {
        (Seq::empty(), None)
    } else {
        let (rs, open) = scan_runs(offs, k - 1, total);
        let x = offs[k - 1] as int;
        match open {
            Some((f, l, c)) => if x <= l || x - l <= 64 {
                (rs, Some((f, x, c + 1)))
            } else {
                (add_region(rs, run_region(f, l, c, total)), Some((x, x, 1)))
            },
            None => (rs, Some((x, x, 1))),
        }
    }
}

/// The display regions of `offs` over a buffer of `total` bytes.
pub open spec fn regions_of(offs: Seq<usize>, total: int) -> Seq<Region> {
    let (rs, open) = scan_runs(offs, offs.len() as int, total);
    match open {
        Some((f, l, c)) => add_region(rs, run_region(f, l, c, total)),
        None => rs,
    }
}

/// Data rows from `start` (step 16) while below `end`.
pub open spec fn byte_rows(start: int, end: int) -> Seq<DiffRow>
    decreases (if start < end { end - start } else { 0 }),
{
    if start >= end {
        Seq::empty()
    } else {
        seq![DiffRow::Bytes { offset: start as usize }] + byte_rows(start + 16, end)
    }
}

/// The rows for a list of regions: per region a header then its data rows.
pub open spec fn rows_of(rs: Seq<Region>) -> Seq<DiffRow>
    decreases rs.len(),
{
    if rs.len() == 0 {
        Seq::empty()
    } else {
        let g = rs.last();
        rows_of(rs.drop_last()) + seq![DiffRow::Header { first_diff: g.2 as usize, diff_count: g.3 as usize }] + byte_rows(g.0, g.1)
    }
}

/// The header-row index of each region in [`rows_of`].
pub open spec fn header_rows_of(rs: Seq<Region>) -> Seq<usize>
    decreases rs.len(),
{
    if rs.len() == 0 {
        Seq::empty()
    } else {
        header_rows_of(rs.drop_last()).push(rows_of(rs.drop_last()).len() as usize)
    }
}

/// Total of the regions' difference counts.
pub open spec fn count_sum(rs: Seq<Region>) -> int
    decreases rs.len(),
{
    if rs.len() == 0 {
        0
    } else {
        count_sum(rs.drop_last()) + rs.last().3
    }
}

/// Folding a run into the list adds its count to the total.
proof fn lemma_add_region_count(rs: Seq<Region>, g: Region)
    ensures
        count_sum(add_region(rs, g)) == count_sum(rs) + g.3,
{
    if rs.len() > 0 && g.0 <= rs.last().1 {
        let l = rs.last();
        let n = rs.drop_last().push((l.0, if l.1 < g.1 { g.1 } else { l.1 }, l.2, l.3 + g.3));
        assert(n.drop_last() =~= rs.drop_last());
    } else {
        assert(rs.push(g).drop_last() =~= rs);
    }
}

/// After `k` offsets the closed regions and the open run together count
/// `k` differences.
proof fn lemma_scan_count(offs: Seq<usize>, k: int, total: int)
    requires
        0 <= k <= offs.len(),
    ensures
        count_sum(scan_runs(offs, k, total).0) + (match scan_runs(offs, k, total).1 {
            Some((f, l, c)) => c,
            None => 0,
        }) == k,
    decreases k,
{
    if k > 0 {
        lemma_scan_count(offs, k - 1, total);
        let (rs, open) = scan_runs(offs, k - 1, total);
        if let Some((f, l, c)) = open {
            lemma_add_region_count(rs, run_region(f, l, c, total));
        }
    }
}

/// Every difference is counted exactly once: the region counts (the
/// `diff_count` of each header row) add up to the number of differing
/// offsets.
pub proof fn lemma_region_counts(offs: Seq<usize>, total: int)
    ensures
        count_sum(regions_of(offs, total)) == offs.len(),
{
    lemma_scan_count(offs, offs.len() as int, total);
    let (rs, open) = scan_runs(offs, offs.len() as int, total);
    if let Some((f, l, c)) = open {
        lemma_add_region_count(rs, run_region(f, l, c, total));
    }
}

/// `x` falls inside one of the regions' byte ranges.
pub open spec fn shows(rs: Seq<Region>, x: int) -> bool {
    exists|i: int| 0 <= i < rs.len() && (#[trigger] rs[i]).0 <= x < rs[i].1
}

/// Every region starts on a row boundary and ends within `total`.
pub open spec fn rows_fit(rs: Seq<Region>, total: int) -> bool {
    forall|i: int| 0 <= i < rs.len() ==> (#[trigger] rs[i]).0 % 16 == 0 && rs[i].0 >= 0 && rs[i].1 <= total
}

/// The offsets ascend.
pub open spec fn ascending(offs: Seq<usize>) -> bool {
    forall|i: int, j: int| 0 <= i < j < offs.len() ==> offs[i] <= offs[j]
}

/// A run's region starts on a row boundary at or before its first
/// difference and ends past its last one.
proof fn lemma_run_region(f: int, l: int, c: int, total: int)
    requires
        0 <= f <= l < total,
    ensures
        run_region(f, l, c, total).0 % 16 == 0,
        0 <= run_region(f, l, c, total).0 <= f,
        l < run_region(f, l, c, total).1 <= total,
{
    let s = if f < 32 { 0 } else { f - 32 };
    assert((s / 16) * 16 % 16 == 0 && 0 <= (s / 16) * 16 <= s) by (nonlinear_arith)
        requires
            s >= 0,
    ;
}

/// Folding a run into the list keeps what was shown, shows the run, and
/// keeps the regions row-aligned and within the buffer.
proof fn lemma_add_region_cover(rs: Seq<Region>, f: int, l: int, c: int, total: int)
    requires
        0 <= f <= l < total,
        rows_fit(rs, total),
        rs.len() > 0 ==> rs.last().0 <= f,
    ensures
        ({
            let n = add_region(rs, run_region(f, l, c, total));
            &&& rows_fit(n, total)
            &&& n.len() > 0 && n.last().0 <= f
            &&& forall|y: int| shows(rs, y) ==> shows(n, y)
            &&& forall|y: int| f <= y <= l ==> shows(n, y)
        }),
{
    let g = run_region(f, l, c, total);
    lemma_run_region(f, l, c, total);
    let n = add_region(rs, g);
    if rs.len() > 0 && g.0 <= rs.last().1 {
        let last = rs.last();
        let k = rs.len() - 1;
        assert(n[k] == (last.0, if last.1 < g.1 { g.1 } else { last.1 }, last.2, last.3 + g.3));
        assert forall|i: int| 0 <= i < k implies n[i] == rs[i] by {}
        assert forall|y: int| shows(rs, y) implies shows(n, y) by {
            let i = choose|i: int| 0 <= i < rs.len() && (#[trigger] rs[i]).0 <= y < rs[i].1;
            assert(n[i].0 <= y < n[i].1);
        }
        assert forall|y: int| f <= y <= l implies shows(n, y) by {
            assert(n[k].0 <= y < n[k].1);
        }
        assert(rows_fit(n, total)) by {
            assert forall|i: int| 0 <= i < n.len() implies (#[trigger] n[i]).0 % 16 == 0 && n[i].0 >= 0 && n[i].1 <= total by {
                if i < k {
                    assert(n[i] == rs[i]);
                }
            }
        }
    } else {
        let k = rs.len() as int;
        assert(n[k] == g);
        assert forall|i: int| 0 <= i < k implies n[i] == rs[i] by {}
        assert forall|y: int| shows(rs, y) implies shows(n, y) by {
            let i = choose|i: int| 0 <= i < rs.len() && (#[trigger] rs[i]).0 <= y < rs[i].1;
            assert(n[i].0 <= y < n[i].1);
        }
        assert forall|y: int| f <= y <= l implies shows(n, y) by {
            assert(n[k].0 <= y < n[k].1);
        }
        assert(rows_fit(n, total)) by {
            assert forall|i: int| 0 <= i < n.len() implies (#[trigger] n[i]).0 % 16 == 0 && n[i].0 >= 0 && n[i].1 <= total by {
                if i < k {
                    assert(n[i] == rs[i]);
                }
            }
        }
    }
}

/// After `k` ascending offsets below `total`, each is shown by a closed
/// region or lies in the open run, which starts no earlier than the last
/// closed region and ends at the latest offset.
proof fn lemma_scan_cover(offs: Seq<usize>, k: int, total: int)
    requires
        0 <= k <= offs.len(),
        ascending(offs),
        forall|i: int| 0 <= i < offs.len() ==> offs[i] < total,
    ensures
        ({
            let (rs, open) = scan_runs(offs, k, total);
            &&& rows_fit(rs, total)
            &&& k == 0 <==> open is None
            &&& (open matches Some((f, l, c)) ==> {
                &&& 0 <= f <= l
                &&& l == offs[k - 1]
                &&& rs.len() > 0 ==> rs.last().0 <= f
            })
            &&& forall|j: int| 0 <= j < k ==> shows(rs, offs[j] as int) || (open matches Some((f, l, c)) && f <= offs[j] <= l)
        }),
    decreases k,
{
    if k > 0 {
        lemma_scan_cover(offs, k - 1, total);
        let (rs, open) = scan_runs(offs, k - 1, total);
        let x = offs[k - 1] as int;
        match open {
            Some((f, l, c)) => {
                assert(offs[k - 2] <= offs[k - 1]);
                if x <= l || x - l <= 64 {
                } else {
                    lemma_add_region_cover(rs, f, l, c, total);
                }
            },
            None => {},
        }
    }
}

/// Every differing offset is shown: with ascending offsets inside a
/// buffer of `total` bytes, each offset lies in one of the regions, and
/// every region starts on a row boundary and ends within the buffer.
pub proof fn lemma_regions_cover(offs: Seq<usize>, total: int)
    requires
        ascending(offs),
        forall|i: int| 0 <= i < offs.len() ==> offs[i] < total,
    ensures
        rows_fit(regions_of(offs, total), total),
        forall|j: int| 0 <= j < offs.len() ==> shows(regions_of(offs, total), #[trigger] offs[j] as int),
{
    lemma_scan_cover(offs, offs.len() as int, total);
    let (rs, open) = scan_runs(offs, offs.len() as int, total);
    if let Some((f, l, c)) = open {
        assert(l < total);
        lemma_add_region_cover(rs, f, l, c, total);
    }
}

/// The regions come in address order without touching, each
/// non-empty: their data rows follow one another in ascending address
/// order.
pub open spec fn ordered_regions(rs: Seq<Region>) -> bool {
    &&& forall|i: int| 0 <= i < rs.len() ==> (#[trigger] rs[i]).0 < rs[i].1
    &&& forall|i: int, j: int| 0 <= i < j < rs.len() ==> (#[trigger] rs[i]).1 < (#[trigger] rs[j]).0
}

/// Adding a non-empty region keeps the list ordered.
proof fn lemma_add_region_ordered(rs: Seq<Region>, g: Region)
    requires
        ordered_regions(rs),
        g.0 < g.1,
    ensures
        ordered_regions(add_region(rs, g)),
{
    let n = add_region(rs, g);
    if rs.len() > 0 && g.0 <= rs.last().1 {
        let k = rs.len() - 1;
        assert forall|i: int| 0 <= i < k implies n[i] == rs[i] by {}
        assert(n[k].0 == rs[k].0 && n[k].1 >= rs[k].1);
        assert forall|i: int, j: int| 0 <= i < j < n.len() implies (#[trigger] n[i]).1 < (#[trigger] n[j]).0 by {
            assert(rs[i].1 < rs[j].0);
        }
    } else {
        let k = rs.len() as int;
        assert forall|i: int| 0 <= i < k implies n[i] == rs[i] by {}
        assert(n[k] == g);
        assert forall|i: int, j: int| 0 <= i < j < n.len() implies (#[trigger] n[i]).1 < (#[trigger] n[j]).0 by {
            if j == k && i < k - 1 {
                assert(rs[i].1 < rs[k - 1].0);
                assert(rs[k - 1].0 < rs[k - 1].1);
            }
        }
    }
}

/// The closed regions after `k` ascending offsets are ordered.
proof fn lemma_scan_ordered(offs: Seq<usize>, k: int, total: int)
    requires
        0 <= k <= offs.len(),
        ascending(offs),
        forall|i: int| 0 <= i < offs.len() ==> offs[i] < total,
    ensures
        ordered_regions(scan_runs(offs, k, total).0),
    decreases k,
{
    if k > 0 {
        lemma_scan_ordered(offs, k - 1, total);
        lemma_scan_cover(offs, k - 1, total);
        let (rs, open) = scan_runs(offs, k - 1, total);
        let x = offs[k - 1] as int;
        if let Some((f, l, c)) = open {
            if !(x <= l || x - l <= 64) {
                assert(l < total);
                lemma_run_region(f, l, c, total);
                lemma_add_region_ordered(rs, run_region(f, l, c, total));
            }
        }
    }
}

/// The address of a data row; -1 for a header row.
pub open spec fn data_offset(row: DiffRow) -> int {
    match row {
        DiffRow::Bytes { offset } => offset as int,
        DiffRow::Header { .. } => -1,
    }
}

/// Byte `x` lies in one of the data rows of `rows`.
pub open spec fn in_data_row(rows: Seq<DiffRow>, x: int) -> bool {
    exists|i: int| 0 <= i < rows.len() && (#[trigger] rows[i]) is Bytes && data_offset(rows[i]) <= x < data_offset(rows[i]) + 16
}

/// The data rows from `s` to `e` are 16 bytes apart from `s`, each
/// starts below `e`, and together they cover every byte of `[s, e)`.
proof fn lemma_byte_rows(s: int, e: int)
    requires
        0 <= s,
        e <= usize::MAX,
    ensures
        forall|k: int| 0 <= k < byte_rows(s, e).len() ==> (#[trigger] byte_rows(s, e)[k]) is Bytes && data_offset(byte_rows(s, e)[k])
            == s + 16 * k && s + 16 * k < e,
        forall|x: int| s <= x < e ==> #[trigger] in_data_row(byte_rows(s, e), x),
    decreases (if s < e { e - s } else { 0 }),
{
    if s < e {
        lemma_byte_rows(s + 16, e);
        let r = byte_rows(s, e);
        let t = byte_rows(s + 16, e);
        assert(r == seq![DiffRow::Bytes { offset: s as usize }] + t);
        assert forall|k: int| 0 <= k < r.len() implies (#[trigger] r[k]) is Bytes && data_offset(r[k]) == s + 16 * k && s + 16 * k < e by {
            if k > 0 {
                assert(r[k] == t[k - 1]);
            }
        }
        assert forall|x: int| s <= x < e implies #[trigger] in_data_row(r, x) by {
            if x < s + 16 {
                assert(r[0] is Bytes && data_offset(r[0]) <= x < data_offset(r[0]) + 16);
            } else {
                assert(in_data_row(t, x));
                let k = choose|k: int| 0 <= k < t.len() && (#[trigger] t[k]) is Bytes && data_offset(t[k]) <= x < data_offset(t[k]) + 16;
                assert(r[k + 1] == t[k]);
                assert(r[k + 1] is Bytes && data_offset(r[k + 1]) <= x < data_offset(r[k + 1]) + 16);
            }
        }
    }
}

/// The rows of ordered, row-aligned regions inside a buffer of `total`
/// bytes: every data row starts on a row boundary inside the buffer and
/// within its region, the data rows ascend, each region's header sits at
/// its recorded index, and every byte a region shows lies in a data row.
pub open spec fn rows_shape(rs: Seq<Region>, total: int) -> bool {
    let rows = rows_of(rs);
    let hs = header_rows_of(rs);
    &&& forall|i: int| 0 <= i < rows.len() && (#[trigger] rows[i]) is Bytes ==> data_offset(rows[i]) % 16 == 0 && 0
        <= data_offset(rows[i]) < total
    &&& rs.len() > 0 ==> forall|i: int| 0 <= i < rows.len() && (#[trigger] rows[i]) is Bytes ==> data_offset(rows[i]) < rs.last().1
    &&& forall|i: int, j: int|
        0 <= i < j < rows.len() && (#[trigger] rows[i]) is Bytes && (#[trigger] rows[j]) is Bytes ==> data_offset(rows[i]) < data_offset(
            rows[j],
        )
    &&& hs.len() == rs.len()
    &&& forall|k: int|
        0 <= k < rs.len() ==> 0 <= #[trigger] hs[k] < rows.len() && rows[hs[k] as int] == (DiffRow::Header {
            first_diff: rs[k].2 as usize,
            diff_count: rs[k].3 as usize,
        })
    &&& forall|x: int| #[trigger] shows(rs, x) ==> in_data_row(rows, x)
}

/// The rows of ordered, row-aligned regions have the shape above.
proof fn lemma_rows_shape(rs: Seq<Region>, total: int)
    requires
        rows_fit(rs, total),
        ordered_regions(rs),
        total <= usize::MAX,
        rows_of(rs).len() <= usize::MAX,
    ensures
        rows_shape(rs, total),
    decreases rs.len(),
{
    if rs.len() > 0 {
        let p = rs.drop_last();
        let g = rs.last();
        assert(rows_fit(p, total)) by {
            assert forall|i: int| 0 <= i < p.len() implies (#[trigger] p[i]).0 % 16 == 0 && p[i].0 >= 0 && p[i].1 <= total by {
                assert(p[i] == rs[i]);
            }
        }
        assert(ordered_regions(p)) by {
            assert forall|i: int| 0 <= i < p.len() implies (#[trigger] p[i]).0 < p[i].1 by {
                assert(p[i] == rs[i]);
            }
            assert forall|i: int, j: int| 0 <= i < j < p.len() implies (#[trigger] p[i]).1 < (#[trigger] p[j]).0 by {
                assert(p[i] == rs[i]);
                assert(p[j] == rs[j]);
            }
        }
        let pr = rows_of(p);
        let head = seq![DiffRow::Header { first_diff: g.2 as usize, diff_count: g.3 as usize }];
        let br = byte_rows(g.0, g.1);
        let rows = rows_of(rs);
        assert(rows == pr + head + br);
        assert(rows_of(p).len() <= usize::MAX);
        lemma_rows_shape(p, total);
        let k0 = rs.len() - 1;
        assert(rs[k0] == g);
        assert(g.0 % 16 == 0 && g.0 >= 0 && g.1 <= total && g.0 < g.1);
        lemma_byte_rows(g.0, g.1);
        let n = pr.len() as int;
        // Rows of the earlier regions end before this region starts.
        if p.len() > 0 {
            assert(p.last() == rs[k0 - 1]);
            assert(rs[k0 - 1].1 < rs[k0].0);
        }
        assert forall|i: int| 0 <= i < rows.len() && (#[trigger] rows[i]) is Bytes implies data_offset(rows[i]) % 16 == 0 && 0
            <= data_offset(rows[i]) < total && data_offset(rows[i]) < g.1 && (i > n ==> g.0 <= data_offset(rows[i])) && (i < n
            ==> (p.len() > 0 && data_offset(rows[i]) < g.0)) by {
            if i < n {
                assert(rows[i] == pr[i]);
            } else if i > n {
                assert(rows[i] == br[i - n - 1]);
                let k = i - n - 1;
                assert(data_offset(br[k]) == g.0 + 16 * k);
                assert((g.0 + 16 * k) % 16 == 0) by (nonlinear_arith)
                    requires
                        g.0 % 16 == 0,
                        k >= 0,
                ;
            } else {
                assert(rows[i] == head[0]);
            }
        }
        assert forall|i: int, j: int|
            0 <= i < j < rows.len() && (#[trigger] rows[i]) is Bytes && (#[trigger] rows[j]) is Bytes implies data_offset(rows[i])
            < data_offset(rows[j]) by {
            if j < n {
                assert(rows[i] == pr[i]);
                assert(rows[j] == pr[j]);
            } else if i > n {
                assert(rows[i] == br[i - n - 1]);
                assert(rows[j] == br[j - n - 1]);
            } else if i < n && j > n {
            } else {
                assert(rows[n] == head[0]);
            }
        }
        let hs = header_rows_of(rs);
        assert(hs == header_rows_of(p).push(n as usize));
        assert forall|k: int| 0 <= k < rs.len() implies 0 <= #[trigger] hs[k] < rows.len() && rows[hs[k] as int] == (DiffRow::Header {
            first_diff: rs[k].2 as usize,
            diff_count: rs[k].3 as usize,
        }) by {
            if k < p.len() {
                assert(hs[k] == header_rows_of(p)[k]);
                assert(rs[k] == p[k]);
                assert(rows[hs[k] as int] == pr[hs[k] as int]);
            } else {
                assert(rows[n] == head[0]);
            }
        }
        assert forall|x: int| #[trigger] shows(rs, x) implies in_data_row(rows, x) by {
            let m = choose|m: int| 0 <= m < rs.len() && (#[trigger] rs[m]).0 <= x < rs[m].1;
            if m < p.len() {
                assert(p[m] == rs[m]);
                assert(shows(p, x));
                assert(in_data_row(pr, x));
                let i = choose|i: int| 0 <= i < pr.len() && (#[trigger] pr[i]) is Bytes && data_offset(pr[i]) <= x < data_offset(pr[i]) + 16;
                assert(rows[i] == pr[i]);
            } else {
                assert(in_data_row(br, x));
                let k = choose|k: int| 0 <= k < br.len() && (#[trigger] br[k]) is Bytes && data_offset(br[k]) <= x < data_offset(br[k]) + 16;
                assert(rows[n + 1 + k] == br[k]);
            }
        }
    }
}

/// The rows of a diff: every data row starts on a 16-byte boundary
/// inside the buffer, the data rows ascend, each region's header row is
/// at the index recorded for it, and every differing offset lies in a
/// data row.
pub proof fn lemma_diff_rows(offs: Seq<usize>, total: int)
    requires
        ascending(offs),
        forall|i: int| 0 <= i < offs.len() ==> offs[i] < total,
        total <= usize::MAX,
        rows_of(regions_of(offs, total)).len() <= usize::MAX,
    ensures
        rows_shape(regions_of(offs, total), total),
        forall|j: int| 0 <= j < offs.len() ==> in_data_row(rows_of(regions_of(offs, total)), #[trigger] offs[j] as int),
{
    lemma_regions_cover(offs, total);
    lemma_regions_ordered(offs, total);
    lemma_rows_shape(regions_of(offs, total), total);
    assert forall|j: int| 0 <= j < offs.len() implies in_data_row(rows_of(regions_of(offs, total)), #[trigger] offs[j] as int) by {
        assert(shows(regions_of(offs, total), offs[j] as int));
    }
}

/// The display regions of ascending offsets inside the buffer come in
/// address order, never touch (touching regions are folded into one),
/// and each shows at least one byte: the diff's data rows ascend.
pub proof fn lemma_regions_ordered(offs: Seq<usize>, total: int)
    requires
        ascending(offs),
        forall|i: int| 0 <= i < offs.len() ==> offs[i] < total,
    ensures
        ordered_regions(regions_of(offs, total)),
{
    lemma_scan_ordered(offs, offs.len() as int, total);
    lemma_scan_cover(offs, offs.len() as int, total);
    let (rs, open) = scan_runs(offs, offs.len() as int, total);
    if let Some((f, l, c)) = open {
        assert(l < total);
        lemma_run_region(f, l, c, total);
        lemma_add_region_ordered(rs, run_region(f, l, c, total));
    }
}

/// The differing positions below `k` ascend and stay below `k`.
pub proof fn lemma_diff_positions_ascending(a: Seq<u8>, b: Seq<u8>, k: int)
    requires
        0 <= k <= usize::MAX,
    ensures
        ascending(diff_positions(a, b, k)),
        forall|i: int| 0 <= i < diff_positions(a, b, k).len() ==> #[trigger] diff_positions(a, b, k)[i] < k,
    decreases k,
{
    if k > 0 {
        lemma_diff_positions_ascending(a, b, k - 1);
    }
}

/// The differing positions below `k` are exactly the indices below `k`
/// where the buffers differ.
pub proof fn lemma_diff_positions_exact(a: Seq<u8>, b: Seq<u8>, k: int)
    requires
        0 <= k <= usize::MAX,
    ensures
        forall|i: int| 0 <= i < k ==> (differs_at(a, b, i) <==> diff_positions(a, b, k).contains(i as usize)),
    decreases k,
{
    if k > 0 {
        lemma_diff_positions_exact(a, b, k - 1);
        lemma_diff_positions_ascending(a, b, k - 1);
        let p = diff_positions(a, b, k - 1);
        assert forall|i: int| 0 <= i < k implies (differs_at(a, b, i) <==> diff_positions(a, b, k).contains(i as usize)) by {
            if differs_at(a, b, k - 1) {
                assert(diff_positions(a, b, k) == p.push((k - 1) as usize));
                if i < k - 1 {
                    if p.push((k - 1) as usize).contains(i as usize) {
                        let q = p.push((k - 1) as usize);
                        let j = choose|j: int| 0 <= j < q.len() && #[trigger] q[j] == i as usize;
                        if j < p.len() {
                            assert(q[j] == p[j]);
                        }
                    }
                    if p.contains(i as usize) {
                        let j = choose|j: int| 0 <= j < p.len() && #[trigger] p[j] == i as usize;
                        assert(p.push((k - 1) as usize)[j] == i as usize);
                    }
                } else {
                    assert(p.push((k - 1) as usize)[p.len() as int] == (k - 1) as usize);
                }
            } else {
                if i == k - 1 {
                    if p.contains(i as usize) {
                        let j = choose|j: int| 0 <= j < p.len() && #[trigger] p[j] == i as usize;
                        assert(p[j] < k - 1);
                    }
                }
            }
        }
    }
}

/// A diff of two buffers hides no difference: every index where they
/// differ lies in one of the row-aligned regions built from
/// [`diff_offsets`] over the longer length.
pub proof fn lemma_diff_fully_shown(a: Seq<u8>, b: Seq<u8>)
    requires
        max_len(a, b) <= usize::MAX,
    ensures
        ({
            let offs = diff_positions(a, b, max_len(a, b));
            let rs = regions_of(offs, max_len(a, b));
            &&& rows_fit(rs, max_len(a, b))
            &&& count_sum(rs) == offs.len()
            &&& forall|j: int| 0 <= j < offs.len() ==> shows(rs, #[trigger] offs[j] as int)
        }),
{
    let n = max_len(a, b);
    lemma_diff_positions_ascending(a, b, n);
    lemma_regions_cover(diff_positions(a, b, n), n);
    lemma_region_counts(diff_positions(a, b, n), n);
}

/// Exec form of one region.
struct RegionV {
    start: usize,
    end: usize,
    first: usize,
    count: usize,
}

/// Ghost view of a list of exec regions.
spec fn view_regions(v: Seq<RegionV>) -> Seq<Region> {
    v.map_values(|g: RegionV| (g.start as int, g.end as int, g.first as int, g.count as int))
}

/// Total difference count of a list of exec regions.
spec fn sum_counts(v: Seq<RegionV>) -> int
    decreases v.len(),
{
    if v.len() == 0 {
        0
    } else {
        sum_counts(v.drop_last()) + v.last().count
    }
}

/// The counts add up to at least any one of them.
proof fn lemma_sum_counts(v: Seq<RegionV>)
    ensures
        sum_counts(v) >= 0,
        v.len() > 0 ==> v.last().count <= sum_counts(v),
    decreases v.len(),
{
    if v.len() > 0 {
        lemma_sum_counts(v.drop_last());
    }
}

/// Fold a finished run into the region list.
fn push_run(regions: &mut Vec<RegionV>, first: usize, last: usize, count: usize, total: usize)
    requires
        last + 33 <= usize::MAX,
        sum_counts(old(regions)@) + count <= usize::MAX,
        forall|i: int| 0 <= i < old(regions)@.len() ==> (#[trigger] old(regions)@[i]).end <= total,
    ensures
        view_regions(final(regions)@) == add_region(view_regions(old(regions)@), run_region(first as int, last as int, count as int, total as int)),
        sum_counts(final(regions)@) == sum_counts(old(regions)@) + count,
        forall|i: int| 0 <= i < final(regions)@.len() ==> (#[trigger] final(regions)@[i]).end <= total,
{
    proof {
        lemma_sum_counts(regions@);
    }
    let s = if first < 32 { 0 } else { first - 32 };
    let start = s / 16 * 16;
    let end = if last + 33 < total { last + 33 } else { total };
    let n = regions.len();
    if n > 0 && start <= regions[n - 1].end {
        let ghost ov = regions@;
        let l = regions.pop().unwrap();
        let new_end = if l.end < end { end } else { l.end };
        regions.push(RegionV { start: l.start, end: new_end, first: l.first, count: l.count + count });
        proof {
            let vo = view_regions(ov);
            assert(regions@.drop_last() =~= ov.drop_last());
            assert(view_regions(regions@) =~= vo.drop_last().push(
                (vo.last().0, if vo.last().1 < end { end as int } else { vo.last().1 }, vo.last().2, vo.last().3 + count),
            ));
            assert forall|i: int| 0 <= i < regions@.len() implies (#[trigger] regions@[i]).end <= total by {
                if i < regions@.len() - 1 {
                    assert(regions@[i] == ov[i]);
                }
            }
        }
    } else {
        let ghost ov = regions@;
        regions.push(RegionV { start, end, first, count });
        proof {
            assert(regions@.drop_last() =~= ov);
            assert(view_regions(regions@) =~= view_regions(ov).push((start as int, end as int, first as int, count as int)));
            assert forall|i: int| 0 <= i < regions@.len() implies (#[trigger] regions@[i]).end <= total by {
                if i < regions@.len() - 1 {
                    assert(regions@[i] == ov[i]);
                }
            }
        }
    }
}

/// Group sorted differing indices into row-aligned regions, each a run
/// of differences at most 64 bytes apart padded by two rows of context
/// on each side and clamped to `total_len`, merged where they touch; then
/// flatten to header + data rows. Also returns each region's header-row
/// index.
pub fn diff_regions(offsets: &[usize], total_len: usize) -> (r: (Vec<DiffRow>, Vec<usize>))
    requires
        forall|i: int| 0 <= i < offsets@.len() ==> #[trigger] offsets@[i] + 33 <= usize::MAX,
        total_len + 16 <= usize::MAX,
    ensures
        r.0@ == rows_of(regions_of(offsets@, total_len as int)),
        r.1@ == header_rows_of(regions_of(offsets@, total_len as int)),
{
    let mut regions: Vec<RegionV> = Vec::new();
    let mut has_run = false;
    let mut first: usize = 0;
    let mut last: usize = 0;
    let mut count: usize = 0;
    let mut i: usize = 0;
    let ol = offsets.len();
    while i < offsets.len()
        invariant
            i <= offsets@.len(),
            ol == offsets@.len(),
            forall|j: int| 0 <= j < offsets@.len() ==> #[trigger] offsets@[j] + 33 <= usize::MAX,
            scan_runs(offsets@, i as int, total_len as int) == (view_regions(regions@), if has_run {
                Some((first as int, last as int, count as int))
            } else {
                None::<(int, int, int)>
            }),
            has_run ==> last + 33 <= usize::MAX,
            sum_counts(regions@) + (if has_run { count as int } else { 0 }) == i,
            forall|j: int| 0 <= j < regions@.len() ==> (#[trigger] regions@[j]).end <= total_len,
        decreases offsets@.len() - i,
    {
        let x = offsets[i];
        proof {
            lemma_sum_counts(regions@);
        }
        if has_run && (x <= last || x - last <= 64) {
            last = x;
            count = count + 1;
        } else {
            if has_run {
                push_run(&mut regions, first, last, count, total_len);
            }
            has_run = true;
            first = x;
            last = x;
            count = 1;
        }
        i = i + 1;
    }
    proof {
        lemma_sum_counts(regions@);
    }
    if has_run {
        push_run(&mut regions, first, last, count, total_len);
    }
    let mut rows: Vec<DiffRow> = Vec::new();
    let mut region_rows: Vec<usize> = Vec::new();
    let ghost vr = view_regions(regions@);
    proof {
        assert(vr.subrange(0, 0) =~= Seq::<Region>::empty());
    }
    let mut k: usize = 0;
    while k < regions.len()
        invariant
            k <= regions@.len(),
            vr == view_regions(regions@),
            total_len + 16 <= usize::MAX,
            forall|j: int| 0 <= j < regions@.len() ==> (#[trigger] regions@[j]).end <= total_len,
            rows@ == rows_of(vr.subrange(0, k as int)),
            region_rows@ == header_rows_of(vr.subrange(0, k as int)),
        decreases regions@.len() - k,
    {
        let g = &regions[k];
        proof {
            assert(vr.subrange(0, k + 1).drop_last() =~= vr.subrange(0, k as int));
            assert(vr.subrange(0, k + 1).last() == vr[k as int]);
            assert(regions@[k as int].end <= total_len);
        }
        region_rows.push(rows.len());
        rows.push(DiffRow::Header { first_diff: g.first, diff_count: g.count });
        let ghost head = rows@;
        let mut off = g.start;
        proof {
            assert(rows@ + byte_rows(off as int, g.end as int) =~= head + byte_rows(g.start as int, g.end as int));
        }
        while off < g.end
            invariant
                g.end <= total_len,
                total_len + 16 <= usize::MAX,
                rows@ + byte_rows(off as int, g.end as int) == head + byte_rows(g.start as int, g.end as int),
            decreases (if off < g.end { g.end - off } else { 0 }),
        {
            rows.push(DiffRow::Bytes { offset: off });
            proof {
                assert(rows@ + byte_rows(off + 16, g.end as int) =~= rows@.drop_last() + byte_rows(off as int, g.end as int));
            }
            off = off + 16;
        }
        proof {
            assert(rows@ + byte_rows(off as int, g.end as int) =~= rows@);
        }
        k = k + 1;
    }
    proof {
        assert(vr.subrange(0, regions@.len() as int) =~= vr);
    }
    (rows, region_rows)
}

/// `body` wrapped in the ANSI colour `code` when `color`, else as is.
pub open spec fn painted(code: Seq<char>, color: bool, body: Seq<char>) -> Seq<char> {
    if color {
        "\x1b["@ + code + "m"@ + body + "\x1b[0m"@
    } else {
        body
    }
}

/// Append `body`, wrapped in the ANSI colour `code` when `color`.
fn paint(out: &mut Vec<char>, code: &str, color: bool, body: &[char])
    ensures
        final(out)@ == old(out)@ + painted(code@, color, body@),
{
    if color {
        push_str(out, "\x1b[");
        push_str(out, code);
        push_str(out, "m");
        crate::text::push_chars(out, body);
        push_str(out, "\x1b[0m");
        proof {
            assert(out@ =~= old(out)@ + painted(code@, color, body@));
        }
    } else {
        crate::text::push_chars(out, body);
    }
}

/// Byte `i` exists on one side only, or differs.
pub open spec fn cell_differs(buf: Seq<u8>, other: Seq<u8>, i: int) -> bool {
    i >= other.len() || buf[i] != other[i]
}

/// One side's cell for index `i`: two hex digits, painted when the
/// other side differs there; blank when this side has no byte `i`.
pub open spec fn cell(buf: Seq<u8>, other: Seq<u8>, i: int, color: bool, code: Seq<char>) -> Seq<char> {
    if i < buf.len() {
        if cell_differs(buf, other, i) {
            painted(code, color, hex(buf[i] as nat, 2, true))
        } else {
            hex(buf[i] as nat, 2, true)
        }
    } else {
        "  "@
    }
}

/// The first `k` cells of the row at `offset`, space-separated.
pub open spec fn group(buf: Seq<u8>, other: Seq<u8>, offset: int, color: bool, code: Seq<char>, k: int) -> Seq<char>
    decreases k,
{
    if k <= 0 {
        Seq::empty()
    } else {
        group(buf, other, offset, color, code, k - 1) + (if k > 1 { " "@ } else { Seq::empty() }) + cell(
            buf,
            other,
            offset + k - 1,
            color,
            code,
        )
    }
}

/// Append one side's 16-byte hex group starting at `offset`.
fn hex_group(out: &mut Vec<char>, buf: &[u8], other: &[u8], offset: usize, color: bool, code: &str)
    requires
        offset + 16 <= usize::MAX,
    ensures
        final(out)@ == old(out)@ + group(buf@, other@, offset as int, color, code@, 16),
{
    let ghost start = out@;
    let mut i: usize = 0;
    while i < DIFF_ROW_BYTES
        invariant
            i <= 16,
            offset + 16 <= usize::MAX,
            out@ == start + group(buf@, other@, offset as int, color, code@, i as int),
        decreases 16 - i,
    {
        let ghost before = out@;
        proof {
            reveal_strlit(" ");
        }
        if i > 0 {
            out.push(' ');
        }
        let idx = offset + i;
        if idx < buf.len() {
            let byte = buf[idx];
            let mut c: Vec<char> = Vec::new();
            push_hex(&mut c, byte as u64, 2, true);
            if idx >= other.len() || buf[idx] != other[idx] {
                paint(out, code, color, c.as_slice());
            } else {
                crate::text::push_chars(out, c.as_slice());
            }
        } else {
            push_str(out, "  ");
        }
        proof {
            assert(out@ =~= start + group(buf@, other@, offset as int, color, code@, i + 1));
        }
        i = i + 1;
    }
}

/// The text of one row.
pub open spec fn row_text(a: Seq<u8>, b: Seq<u8>, row: DiffRow, base: int, color: bool) -> Seq<char> {
    match row {
        DiffRow::Header { first_diff, diff_count } => "@@ 0x"@ + hex((base + first_diff) as nat, 8, true) + "  "@ + dec(
            diff_count as nat,
        ) + " byte(s) differ @@\n"@,
        DiffRow::Bytes { offset } => "0x"@ + hex((base + offset) as nat, 8, true) + "  "@ + group(a, b, offset as int, color, "31"@, 16)
            + "  \u{2502}  "@ + group(b, a, offset as int, color, "32"@, 16) + "\n"@,
    }
}

/// Every row of a rendered diff names a chip/file address offset by
/// `base`: a region header starts with the address of the region's first
/// differing byte, `base + first_diff`, and a data row with the address
/// of its first byte, `base + offset`; each address is eight hex digits
/// followed by two spaces.
pub proof fn lemma_row_addresses(a: Seq<u8>, b: Seq<u8>, row: DiffRow, base: int, color: bool)
    ensures
        row matches DiffRow::Header { first_diff, .. } ==> ({
            let p = "@@ 0x"@ + hex((base + first_diff) as nat, 8, true) + "  "@;
            row_text(a, b, row, base, color).len() >= p.len() && row_text(a, b, row, base, color).subrange(0, p.len() as int) == p
        }),
        row matches DiffRow::Bytes { offset } ==> ({
            let p = "0x"@ + hex((base + offset) as nat, 8, true) + "  "@;
            row_text(a, b, row, base, color).len() >= p.len() && row_text(a, b, row, base, color).subrange(0, p.len() as int) == p
        }),
{
    match row {
        DiffRow::Header { first_diff, diff_count } => {
            let p = "@@ 0x"@ + hex((base + first_diff) as nat, 8, true) + "  "@;
            let rest = dec(diff_count as nat) + " byte(s) differ @@\n"@;
            assert(row_text(a, b, row, base, color) =~= p + rest);
            assert((p + rest).subrange(0, p.len() as int) =~= p);
        },
        DiffRow::Bytes { offset } => {
            let p = "0x"@ + hex((base + offset) as nat, 8, true) + "  "@;
            let rest = group(a, b, offset as int, color, "31"@, 16) + "  \u{2502}  "@ + group(b, a, offset as int, color, "32"@, 16)
                + "\n"@;
            assert(row_text(a, b, row, base, color) =~= p + rest);
            assert((p + rest).subrange(0, p.len() as int) =~= p);
        },
    }
}

/// The rendering of the first `k` rows.
pub open spec fn rows_text(a: Seq<u8>, b: Seq<u8>, rows: Seq<DiffRow>, base: int, color: bool, k: int) -> Seq<char>
    decreases k,
{
    if k <= 0 {
        Seq::empty()
    } else {
        rows_text(a, b, rows, base, color, k - 1) + row_text(a, b, rows[k - 1], base, color)
    }
}

/// The legend line naming the two sides.
pub open spec fn legend_text(l0: Seq<char>, l1: Seq<char>, color: bool) -> Seq<char> {
    painted("31"@, color, "- "@ + l0) + "    "@ + painted("32"@, color, "+ "@ + l1) + "\n"@
}

/// A row's address fits in a machine word once `base` is added.
pub open spec fn row_fits(row: DiffRow, base: int) -> bool {
    match row {
        DiffRow::Header { first_diff, diff_count } => base + first_diff <= usize::MAX,
        DiffRow::Bytes { offset } => base + offset + 16 <= usize::MAX,
    }
}

/// Append the text of one row.
fn push_row(out: &mut Vec<char>, a: &[u8], b: &[u8], row: DiffRow, base: u32, color: bool)
    requires
        row_fits(row, base as int),
    ensures
        final(out)@ == old(out)@ + row_text(a@, b@, row, base as int, color),
{
    proof {
        reveal_strlit("\n");
    }
    match row {
        DiffRow::Header { first_diff, diff_count } => {
            push_str(out, "@@ 0x");
            push_hex(out, (base as usize + first_diff) as u64, 8, true);
            push_str(out, "  ");
            push_dec(out, diff_count as u64);
            push_str(out, " byte(s) differ @@\n");
        },
        DiffRow::Bytes { offset } => {
            push_str(out, "0x");
            push_hex(out, (base as usize + offset) as u64, 8, true);
            push_str(out, "  ");
            hex_group(out, a, b, offset, color, "31");
            push_str(out, "  \u{2502}  ");
            hex_group(out, b, a, offset, color, "32");
            out.push('\n');
        },
    }
    assert(out@ =~= old(out)@ + row_text(a@, b@, row, base as int, color));
}

/// Render the side-by-side diff: a legend line, then per row either a
/// region header (`@@ 0x<addr>  <n> byte(s) differ @@`) or a data line
/// with `a` on the left (red) and `b` on the right (green), differing
/// bytes painted when `color`. Addresses are offset by `base`.
pub fn render_regions(a: &[u8], b: &[u8], rows: &[DiffRow], base: u32, color: bool, labels: (&str, &str)) -> (r: String)
    requires
        forall|i: int| 0 <= i < rows@.len() ==> row_fits(#[trigger] rows@[i], base as int),
    ensures
        r@ == legend_text(labels.0@, labels.1@, color) + rows_text(a@, b@, rows@, base as int, color, rows@.len() as int),
{
    let mut out: Vec<char> = Vec::new();
    let mut l: Vec<char> = Vec::new();
    push_str(&mut l, "- ");
    push_str(&mut l, labels.0);
    paint(&mut out, "31", color, l.as_slice());
    push_str(&mut out, "    ");
    let mut l2: Vec<char> = Vec::new();
    push_str(&mut l2, "+ ");
    push_str(&mut l2, labels.1);
    paint(&mut out, "32", color, l2.as_slice());
    out.push('\n');
    let ghost head = out@;
    proof {
        reveal_strlit("\n");
        assert(head =~= legend_text(labels.0@, labels.1@, color));
    }
    let mut k: usize = 0;
    while k < rows.len()
        invariant
            k <= rows@.len(),
            forall|i: int| 0 <= i < rows@.len() ==> row_fits(#[trigger] rows@[i], base as int),
            out@ == head + rows_text(a@, b@, rows@, base as int, color, k as int),
        decreases rows@.len() - k,
    {
        let ghost before = out@;
        proof {
            assert(row_fits(rows@[k as int], base as int));
        }
        push_row(&mut out, a, b, rows[k], base, color);
        k = k + 1;
    }
    crate::text::string_from_chars(out.as_slice())
}

} // verus!
