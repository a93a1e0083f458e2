//! Inspect / search primitives shared by the CLI and the GUI: string
//! extraction, pattern parsing, and byte-level search. All pure.
use crate::text::{char_from_ascii, string_from_chars};
use vstd::prelude::*;
use vstd::string::*;

verus! {

/// Unicode `White_Space` (what `char::is_whitespace` tests).
pub open spec fn is_ws(c: char) -> bool {
    c == '\t' || c == '\n' || c == '\x0B' || c == '\x0C' || c == '\r' || c == ' ' || c == '\u{85}'
        || c == '\u{A0}' || c == '\u{1680}' || ('\u{2000}' <= c && c <= '\u{200A}') || c == '\u{2028}'
        || c == '\u{2029}' || c == '\u{202F}' || c == '\u{205F}' || c == '\u{3000}'
}

/// `char::is_whitespace`.
pub fn char_is_ws(c: char) -> (r: bool)
    ensures
        r == is_ws(c),
{
    c == '\t' || c == '\n' || c == '\x0B' || c == '\x0C' || c == '\r' || c == ' ' || c == '\u{85}'
        || c == '\u{A0}' || c == '\u{1680}' || ('\u{2000}' <= c && c <= '\u{200A}') || c == '\u{2028}'
        || c == '\u{2029}' || c == '\u{202F}' || c == '\u{205F}' || c == '\u{3000}'
}

/// `s` with every whitespace character removed.
pub open spec fn strip_ws(s: Seq<char>) -> Seq<char>
    decreases s.len(),
{
    if s.len() == 0 {
        s
    } else if is_ws(s.last()) {
        strip_ws(s.drop_last())
    } else {
        strip_ws(s.drop_last()).push(s.last())
    }
}

/// An ASCII hex digit.
pub open spec fn is_hex_digit(c: char) -> bool {
    ('0' <= c && c <= '9') || ('a' <= c && c <= 'f') || ('A' <= c && c <= 'F')
}

/// Value of an ASCII hex digit.
pub open spec fn hex_val(c: char) -> nat {
    if '0' <= c && c <= '9' {
        (c as u32 - '0' as u32) as nat
    } else if 'a' <= c && c <= 'f' {
        (c as u32 - 'a' as u32 + 10) as nat
    } else {
        (c as u32 - 'A' as u32 + 10) as nat
    }
}

/// The pattern is read as hex: after removing whitespace it is
/// non-empty, of even length, and all hex digits.
pub open spec fn reads_as_hex(s: Seq<char>) -> bool {
    let c = strip_ws(s);
    &&& c.len() > 0
    &&& c.len() % 2 == 0
    &&& forall|i: int| 0 <= i < c.len() ==> is_hex_digit(#[trigger] c[i])
}

/// The bytes the hex digits of `c` spell, two digits per byte.
pub open spec fn hex_bytes(c: Seq<char>) -> Seq<u8> {
    Seq::new(c.len() / 2, |i: int| (hex_val(c[2 * i]) * 16 + hex_val(c[2 * i + 1])) as u8)
}

/// Interpret a search needle as hex bytes when, without whitespace, it
/// is a non-empty even-length run of hex digits (`"55 AA"` →
/// `[0x55, 0xAA]`); otherwise as the string's own UTF-8 bytes
/// (`"NVIDIA"`, odd-length `"ABC"`).
pub fn parse_hex_needle(s: &str) -> (r: Vec<u8>)
    ensures
        reads_as_hex(s@) ==> r@ == hex_bytes(strip_ws(s@)),
        !reads_as_hex(s@) ==> r@ == s.spec_bytes(),
{
    let n = s.unicode_len();
    let mut condensed: Vec<char> = Vec::new();
    let mut i: usize = 0;
    while i < n
        invariant
            n == s@.len(),
            i <= n,
            condensed@ == strip_ws(s@.subrange(0, i as int)),
        decreases n - i,
    {
        let c = s.get_char(i);
        proof {
            assert(s@.subrange(0, i + 1).drop_last() =~= s@.subrange(0, i as int));
        }
        if !char_is_ws(c) {
            condensed.push(c);
        }
        i = i + 1;
    }
    assert(s@.subrange(0, n as int) =~= s@);
    let m = condensed.len();
    let mut all_hex = m > 0 && m % 2 == 0;
    let mut k: usize = 0;
    while k < m && all_hex
        invariant
            m == condensed@.len(),
            k <= m,
            all_hex ==> forall|j: int| 0 <= j < k ==> is_hex_digit(#[trigger] condensed@[j]),
            !all_hex ==> !reads_as_hex(s@),
            condensed@ == strip_ws(s@),
            all_hex ==> m > 0 && m % 2 == 0,
        decreases m - k,
    {
        let c = condensed[k];
        if !(('0' <= c && c <= '9') || ('a' <= c && c <= 'f') || ('A' <= c && c <= 'F')) {
            all_hex = false;
        }
        k = k + 1;
    }
    if all_hex {
        let mut out: Vec<u8> = Vec::new();
        let mut p: usize = 0;
        while p < m / 2
            invariant
                m == condensed@.len(),
                m % 2 == 0,
                p <= m / 2,
                forall|j: int| 0 <= j < m ==> is_hex_digit(#[trigger] condensed@[j]),
                out@ == hex_bytes(condensed@).subrange(0, p as int),
            decreases m / 2 - p,
        {
            let hi = hex_value(condensed[2 * p]);
            let lo = hex_value(condensed[2 * p + 1]);
            out.push(hi * 16 + lo);
            p = p + 1;
            assert(out@ =~= hex_bytes(condensed@).subrange(0, p as int));
        }
        assert(hex_bytes(condensed@).subrange(0, (m / 2) as int) =~= hex_bytes(condensed@));
        out
    } else {
        let b = s.as_bytes();
        crate::bytes::to_vec(b)
    }
}

/// Value of one hex digit.
fn hex_value(c: char) -> (r: u8)
    requires
        is_hex_digit(c),
    ensures
        r as nat == hex_val(c),
        r < 16,
{
    let v = c as u32;
    if '0' <= c && c <= '9' {
        (v - 48) as u8
    } else if 'a' <= c && c <= 'f' {
        (v - 97 + 10) as u8
    } else {
        (v - 65 + 10) as u8
    }
}

/// An ASCII letter byte.
pub open spec fn is_alpha(b: u8) -> bool {
    (0x41 <= b && b <= 0x5A) || (0x61 <= b && b <= 0x7A)
}

/// ASCII lower-casing of a byte.
pub open spec fn fold(b: u8) -> u8 {
    if 0x41 <= b && b <= 0x5A { (b + 32) as u8 } else { b }
}

/// Bytes match: case-insensitively when both are ASCII letters, exactly otherwise.
pub open spec fn bytes_match(a: u8, b: u8) -> bool {
    if is_alpha(a) && is_alpha(b) { fold(a) == fold(b) } else { a == b }
}

/// Case-insensitive byte match for ASCII letters; exact for everything else.
pub fn byte_match_ci(a: u8, b: u8) -> (r: bool)
    ensures
        r == bytes_match(a, b),
{
    let a_alpha = (0x41 <= a && a <= 0x5A) || (0x61 <= a && a <= 0x7A);
    let b_alpha = (0x41 <= b && b <= 0x5A) || (0x61 <= b && b <= 0x7A);
    if a_alpha && b_alpha {
        let fa = if a <= 0x5A { a + 32 } else { a };
        let fb = if b <= 0x5A { b + 32 } else { b };
        fa == fb
    } else {
        a == b
    }
}

/// Printable ASCII (0x20..=0x7E).
pub open spec fn printable(b: u8) -> bool {
    0x20 <= b && b <= 0x7E
}

/// The left-to-right scan state of [`extract_strings`] after `b`:
/// completed runs, the start of the open run (-1 when none), and the
/// open run's characters.
pub open spec fn scan(b: Seq<u8>, min_len: nat) -> (Seq<(int, Seq<char>)>, int, Seq<char>)
    decreases b.len(),
{
    if b.len() == 0 {
        (Seq::empty(), -1, Seq::empty())
    } else {
        let prev = scan(b.drop_last(), min_len);
        let i = b.len() - 1;
        let c = b.last();
        if printable(c) {
            (prev.0, if prev.1 < 0 { i } else { prev.1 }, prev.2.push((c as u32) as char))
        } else if prev.2.len() > 0 {
            (if prev.2.len() >= min_len { prev.0.push((prev.1, prev.2)) } else { prev.0 }, -1, Seq::empty())
        } else {
            prev
        }
    }
}

/// The runs [`extract_strings`] reports: the completed runs of the scan
/// plus the open run at the end when it is long enough.
pub open spec fn runs(b: Seq<u8>, min_len: nat) -> Seq<(int, Seq<char>)> {
    let s = scan(b, min_len);
    if s.2.len() >= min_len { s.0.push((s.1, s.2)) } else { s.0 }
}

/// A reported run is a printable run of at least `min_len` characters
/// that the bytes at its offset spell.
pub open spec fn is_run_of(b: Seq<u8>, min_len: nat, off: int, run: Seq<char>) -> bool {
    &&& 0 <= off
    &&& off + run.len() <= b.len()
    &&& run.len() >= min_len
    &&& forall|k: int| 0 <= k < run.len() ==> printable(#[trigger] b[off + k]) && run[k] == (b[off + k] as u32) as char
}

/// The `n` bytes at `off` cannot be extended: the byte before them (if
/// any) and the byte after them (if any) are not printable.
pub open spec fn maximal_in(b: Seq<u8>, off: int, n: int) -> bool {
    &&& (off == 0 || !printable(b[off - 1]))
    &&& (off + n == b.len() || !printable(b[off + n]))
}

/// The scan's open run sits right before the end of what was scanned and
/// starts after a non-printable byte; the completed runs are maximal,
/// end before the scanned bytes do, and come in order with gaps
/// between them and before the open run.
proof fn lemma_scan_shape(b: Seq<u8>, min_len: nat)
    ensures
        ({
            let s = scan(b, min_len);
            &&& (s.2.len() == 0 <==> s.1 < 0)
            &&& (s.2.len() == 0 <==> (b.len() == 0 || !printable(b.last())))
            &&& s.2.len() > 0 ==> s.1 == b.len() - s.2.len()
            &&& s.2.len() > 0 ==> (s.1 == 0 || !printable(b[s.1 - 1]))
            &&& forall|k: int| 0 <= k < s.2.len() ==> printable(#[trigger] b[s.1 + k]) && s.2[k] == (b[s.1 + k] as u32) as char
            &&& forall|j: int| 0 <= j < s.0.len() ==> is_run_of(b, min_len, (#[trigger] s.0[j]).0, s.0[j].1)
            &&& forall|j: int| 0 <= j < s.0.len() ==> (#[trigger] s.0[j]).0 + s.0[j].1.len() < b.len()
                && maximal_in(b, s.0[j].0, s.0[j].1.len() as int)
            &&& forall|j: int, k: int| 0 <= j < k < s.0.len() ==> (#[trigger] s.0[j]).0 + s.0[j].1.len() < (#[trigger] s.0[k]).0
            &&& s.2.len() > 0 ==> forall|j: int| 0 <= j < s.0.len() ==> (#[trigger] s.0[j]).0 + s.0[j].1.len() < s.1
        }),
    decreases b.len(),
{
    if b.len() > 0 {
        let p = b.drop_last();
        lemma_scan_shape(p, min_len);
        let s = scan(b, min_len);
        let ps = scan(p, min_len);
        assert forall|j: int| 0 <= j < ps.0.len() implies maximal_in(b, (#[trigger] ps.0[j]).0, ps.0[j].1.len() as int) by {
            let o = ps.0[j].0;
            let n = ps.0[j].1.len() as int;
            assert(maximal_in(p, o, n));
            if o > 0 {
                assert(b[o - 1] == p[o - 1]);
            }
            assert(b[o + n] == p[o + n]);
        }
        if ps.2.len() > 0 && ps.1 > 0 {
            assert(b[ps.1 - 1] == p[ps.1 - 1]);
        }
        if p.len() > 0 {
            assert(p.last() == b[p.len() - 1]);
        }
        assert forall|j: int| 0 <= j < ps.0.len() implies is_run_of(b, min_len, (#[trigger] ps.0[j]).0, ps.0[j].1) by {
            assert forall|k: int| 0 <= k < ps.0[j].1.len() implies printable(#[trigger] b[ps.0[j].0 + k]) && ps.0[j].1[k] == (b[ps.0[j].0 + k] as u32) as char by {
                assert(b[ps.0[j].0 + k] == p[ps.0[j].0 + k]);
            }
        }
        if printable(b.last()) {
            assert forall|k: int| 0 <= k < s.2.len() implies printable(#[trigger] b[s.1 + k]) && s.2[k] == (b[s.1 + k] as u32) as char by {
                if k < ps.2.len() {
                    assert(b[s.1 + k] == p[ps.1 + k]);
                }
            }
        } else if ps.2.len() > 0 {
            assert forall|k: int| 0 <= k < ps.2.len() implies printable(#[trigger] b[ps.1 + k]) && ps.2[k] == (b[ps.1 + k] as u32) as char by {
                assert(b[ps.1 + k] == p[ps.1 + k]);
            }
        }
    }
}

/// Every reported run is a printable run of at least `min_len`
/// characters read from the bytes at its offset.
pub proof fn lemma_runs_are_printable(b: Seq<u8>, min_len: nat)
    requires
        min_len > 0,
    ensures
        forall|j: int| 0 <= j < runs(b, min_len).len() ==> is_run_of(b, min_len, (#[trigger] runs(b, min_len)[j]).0, runs(b, min_len)[j].1),
{
    lemma_scan_shape(b, min_len);
}

/// `b[off .. off + n]` is a whole run of printable bytes: non-empty,
/// every byte printable, and no printable byte just before or after it.
pub open spec fn printable_run(b: Seq<u8>, off: int, n: int) -> bool {
    &&& 0 <= off
    &&& 0 < n
    &&& off + n <= b.len()
    &&& forall|k: int| off <= k < off + n ==> printable(#[trigger] b[k])
    &&& maximal_in(b, off, n)
}

/// The completed runs of the scan hold every whole printable run that
/// ends before the last byte scanned and is at least `min_len` long.
proof fn lemma_scan_complete(b: Seq<u8>, min_len: nat, off: int, n: int)
    requires
        printable_run(b, off, n),
        n >= min_len,
        off + n < b.len(),
    ensures
        exists|j: int| 0 <= j < scan(b, min_len).0.len() && (#[trigger] scan(b, min_len).0[j]).0 == off && scan(b, min_len).0[j].1.len() == n,
    decreases b.len(),
{
    let p = b.drop_last();
    let s = scan(b, min_len);
    let ps = scan(p, min_len);
    lemma_scan_shape(p, min_len);
    if off + n < p.len() {
        assert(printable_run(p, off, n)) by {
            assert forall|k: int| off <= k < off + n implies printable(#[trigger] p[k]) by {
                assert(p[k] == b[k]);
            }
            if off > 0 {
                assert(p[off - 1] == b[off - 1]);
            }
            assert(p[off + n] == b[off + n]);
        }
        lemma_scan_complete(p, min_len, off, n);
        let j = choose|j: int| 0 <= j < ps.0.len() && (#[trigger] ps.0[j]).0 == off && ps.0[j].1.len() == n;
        if printable(b.last()) || ps.2.len() == 0 {
            assert(s.0 == ps.0);
        } else {
            assert(s.0[j] == ps.0[j]);
        }
    } else {
        // The run ends at the last byte of `p`, and `b`'s last byte closes it.
        assert(off + n == p.len());
        assert(!printable(b.last()));
        assert(p.last() == b[off + n - 1]);
        assert(printable(p.last()));
        assert(ps.2.len() > 0);
        assert(ps.1 == off) by {
            if ps.1 < off {
                assert(printable(p[ps.1 + (off - 1 - ps.1)]));
                assert(p[off - 1] == b[off - 1]);
            } else if ps.1 > off {
                assert(p[ps.1 - 1] == b[ps.1 - 1]);
                assert(printable(b[ps.1 - 1]));
            }
        }
        assert(ps.2.len() == n);
        assert(s.0 == ps.0.push((ps.1, ps.2)));
        assert(s.0[ps.0.len() as int] == (ps.1, ps.2));
    }
}

/// Every whole run of printable bytes at least `min_len` long is
/// reported, with its offset and its length, whether a non-printable
/// byte ends it or the end of the buffer does.
pub proof fn lemma_runs_complete(b: Seq<u8>, min_len: nat, off: int, n: int)
    requires
        printable_run(b, off, n),
        n >= min_len,
    ensures
        exists|j: int| 0 <= j < runs(b, min_len).len() && (#[trigger] runs(b, min_len)[j]).0 == off && runs(b, min_len)[j].1.len() == n,
{
    let s = scan(b, min_len);
    let r = runs(b, min_len);
    lemma_scan_shape(b, min_len);
    if off + n < b.len() {
        lemma_scan_complete(b, min_len, off, n);
        let j = choose|j: int| 0 <= j < s.0.len() && (#[trigger] s.0[j]).0 == off && s.0[j].1.len() == n;
        if s.2.len() >= min_len {
            assert(r[j] == s.0[j]);
        }
    } else {
        assert(off + n == b.len());
        assert(printable(b.last()));
        assert(s.2.len() > 0);
        assert(s.1 == off) by {
            if s.1 < off {
                assert(printable(b[s.1 + (off - 1 - s.1)]));
            } else if s.1 > off {
                assert(printable(b[s.1 - 1]));
            }
        }
        assert(s.2.len() == n);
        assert(r == s.0.push((s.1, s.2)));
        assert(r[s.0.len() as int] == (s.1, s.2));
    }
}

/// Every reported run is as long as it can be (no printable byte just
/// before or just after it), and the runs come in byte order with at
/// least one non-printable byte between consecutive runs.
pub proof fn lemma_runs_are_maximal(b: Seq<u8>, min_len: nat)
    requires
        min_len > 0,
    ensures
        forall|j: int| 0 <= j < runs(b, min_len).len() ==> maximal_in(b, (#[trigger] runs(b, min_len)[j]).0, runs(b, min_len)[j].1.len() as int),
        forall|j: int, k: int|
            0 <= j < k < runs(b, min_len).len() ==> (#[trigger] runs(b, min_len)[j]).0 + runs(b, min_len)[j].1.len() < (#[trigger] runs(
                b,
                min_len,
            )[k]).0,
{
    lemma_scan_shape(b, min_len);
    let s = scan(b, min_len);
    let r = runs(b, min_len);
    if s.2.len() >= min_len {
        assert(r == s.0.push((s.1, s.2)));
        assert forall|j: int| 0 <= j < r.len() implies maximal_in(b, (#[trigger] r[j]).0, r[j].1.len() as int) by {
            if j < s.0.len() {
                assert(r[j] == s.0[j]);
            }
        }
        assert forall|j: int, k: int| 0 <= j < k < r.len() implies (#[trigger] r[j]).0 + r[j].1.len() < (#[trigger] r[k]).0 by {
            assert(r[j] == s.0[j]);
            if k < s.0.len() {
                assert(r[k] == s.0[k]);
            }
        }
    }
}

/// Runs of printable ASCII (0x20..=0x7E) at least `min_len` characters
/// long, each with its byte offset, in order.
pub fn extract_strings(bytes: &[u8], min_len: usize) -> (r: Vec<(usize, String)>)
    requires
        min_len > 0 || (bytes@.len() > 0 && printable(bytes@.last())),
    ensures
        r@.len() == runs(bytes@, min_len as nat).len(),
        forall|j: int| 0 <= j < r@.len() ==> {
            &&& (#[trigger] r@[j]).0 == runs(bytes@, min_len as nat)[j].0
            &&& r@[j].1@ == runs(bytes@, min_len as nat)[j].1
        },
{
    let mut out: Vec<(usize, String)> = Vec::new();
    let mut start: usize = 0;
    let mut open = false;
    let mut buf: Vec<char> = Vec::new();
    let mut i: usize = 0;
    while i < bytes.len()
        invariant
            i <= bytes@.len(),
            ({
                let s = scan(bytes@.subrange(0, i as int), min_len as nat);
                &&& out@.len() == s.0.len()
                &&& forall|j: int| 0 <= j < out@.len() ==> (#[trigger] out@[j]).0 == s.0[j].0 && out@[j].1@ == s.0[j].1
                &&& buf@ == s.2
                &&& (open <==> s.1 >= 0)
                &&& open ==> start == s.1
                &&& (open <==> buf@.len() > 0)
            }),
        decreases bytes@.len() - i,
    {
        proof {
            lemma_scan_shape(bytes@.subrange(0, i as int), min_len as nat);
            assert(bytes@.subrange(0, i + 1).drop_last() =~= bytes@.subrange(0, i as int));
        }
        let b = bytes[i];
        if 0x20 <= b && b <= 0x7E {
            if !open {
                start = i;
                open = true;
            }
            buf.push(char_from_ascii(b));
        } else if buf.len() > 0 {
            if buf.len() >= min_len {
                let s = string_from_chars(buf.as_slice());
                out.push((start, s));
            }
            buf = Vec::new();
            open = false;
        }
        i = i + 1;
    }
    assert(bytes@.subrange(0, bytes@.len() as int) =~= bytes@);
    proof {
        lemma_scan_shape(bytes@, min_len as nat);
    }
    if buf.len() >= min_len {
        let s = string_from_chars(buf.as_slice());
        out.push((start, s));
    }
    out
}

/// `needle` matches `h` at `p` (letter bytes compared without case).
pub open spec fn matches_at(h: Seq<u8>, needle: Seq<u8>, p: int) -> bool {
    &&& 0 <= p
    &&& p + needle.len() <= h.len()
    &&& forall|i: int| 0 <= i < needle.len() ==> bytes_match(#[trigger] h[p + i], needle[i])
}

/// Offsets below `k` where `needle` matches, ascending.
pub open spec fn matches_below(h: Seq<u8>, needle: Seq<u8>, k: int) -> Seq<usize>
    decreases k,
{
    if k <= 0 {
        Seq::empty()
    } else if matches_at(h, needle, k - 1) {
        matches_below(h, needle, k - 1).push((k - 1) as usize)
    } else {
        matches_below(h, needle, k - 1)
    }
}

/// Every offset in `haystack` where `needle` occurs (overlapping matches
/// included), ascending; ASCII letters compare without case. An empty
/// needle, or one longer than the haystack, finds nothing.
pub fn find_pattern(haystack: &[u8], needle: &[u8]) -> (r: Vec<usize>)
    ensures
        needle@.len() == 0 ==> r@.len() == 0,
        needle@.len() > 0 ==> r@ == matches_below(haystack@, needle@, haystack@.len() as int + 1),
{
    if needle.len() == 0 || needle.len() > haystack.len() {
        proof {
            if needle@.len() > 0 {
                lemma_no_match_when_long(haystack@, needle@, haystack@.len() as int + 1);
            }
        }
        return Vec::new();
    }
    let mut out: Vec<usize> = Vec::new();
    let hl = haystack.len();
    let last = hl - needle.len();
    let mut start: usize = 0;
    while start <= last
        invariant
            hl == haystack@.len(),
            last == haystack@.len() - needle@.len(),
            haystack@.len() >= needle@.len(),
            needle@.len() > 0,
            start <= last + 1,
            out@ == matches_below(haystack@, needle@, start as int),
        decreases last + 1 - start,
    {
        let mut i: usize = 0;
        let mut ok = true;
        while ok && i < needle.len()
            invariant
                hl == haystack@.len(),
                start <= last,
                last == haystack@.len() - needle@.len(),
                haystack@.len() >= needle@.len(),
                i <= needle@.len(),
                ok == (forall|j: int| 0 <= j < i ==> bytes_match(#[trigger] haystack@[start + j], needle@[j])),
            decreases needle@.len() - i,
        {
            if !byte_match_ci(haystack[start + i], needle[i]) {
                ok = false;
            }
            i = i + 1;
        }
        proof {
            if !ok {
                assert(!matches_at(haystack@, needle@, start as int));
            } else {
                assert(i == needle@.len());
                assert(matches_at(haystack@, needle@, start as int));
            }
        }
        if ok {
            out.push(start);
        }
        start = start + 1;
    }
    proof {
        lemma_no_match_tail(haystack@, needle@, (last + 1) as int, haystack@.len() as int + 1);
    }
    out
}

/// Past `h.len() - needle.len()` nothing matches.
proof fn lemma_no_match_tail(h: Seq<u8>, needle: Seq<u8>, from: int, k: int)
    requires
        from == h.len() - needle.len() + 1,
        from <= k,
        needle.len() > 0,
    ensures
        matches_below(h, needle, k) == matches_below(h, needle, from),
    decreases k - from,
{
    if k > from {
        lemma_no_match_tail(h, needle, from, k - 1);
    }
}

/// A needle longer than the haystack matches nowhere.
proof fn lemma_no_match_when_long(h: Seq<u8>, needle: Seq<u8>, k: int)
    requires
        needle.len() > h.len(),
    ensures
        matches_below(h, needle, k) == Seq::<usize>::empty(),
    decreases k,
{
    if k > 0 {
        lemma_no_match_when_long(h, needle, k - 1);
    }
}

} // verus!
