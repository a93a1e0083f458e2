//! Presentation rules of the graphical front-end that do not depend on
//! a windowing toolkit: which pane a bus opens on, selection hit-tests,
//! vendor names and byte counts in the chip browser, and label clean-up.
use crate::inspect::{hex_bytes, hex_val, is_hex_digit, is_ws, reads_as_hex, strip_ws};
use crate::text::{dec, hex, upper};
use vstd::prelude::*;
use vstd::string::*;

verus! {

/// The panes of the main window.
#[derive(Clone, Copy, Debug, PartialEq, Eq, Structural)]
pub enum Pane {
    Detect,
    Read,
    Erase,
    Write,
    Verify,
    Blank,
    Status,
    Otp,
    Hex,
    Bios,
    Settings,
    I2cScan,
    I2cRead,
    I2cWrite,
    I2cVerify,
    I2cErase,
    I2cBlank,
}

/// Which bus the window drives.
#[derive(Clone, Copy, Debug, PartialEq, Eq, Structural)]
pub enum Bus {
    Spi,
    I2c,
}

impl Default for Bus {
    /// SPI.
    fn default() -> (r: Bus)
        ensures
            r == Bus::Spi,
    {
        Bus::Spi
    }
}

impl Pane {
    /// The pane a bus lands on when the toggle switches to it: Detect for
    /// SPI, Scan for I²C.
    pub fn default_for(bus: Bus) -> (r: Pane)
        ensures
            bus == Bus::Spi ==> r == Pane::Detect,
            bus == Bus::I2c ==> r == Pane::I2cScan,
    {
        match bus {
            Bus::Spi => Pane::Detect,
            Bus::I2c => Pane::I2cScan,
        }
    }
}

/// Which side of a side-by-side diff.
#[derive(Clone, Copy, Debug, PartialEq, Eq, Structural)]
pub enum DiffSide {
    File,
    Chip,
}

/// `pos` lies inside the normalized inclusive selection `(lo, hi)`.
pub fn in_selection(pos: usize, selection: Option<(usize, usize)>) -> (r: bool)
    ensures
        r == (match selection {
            Some((lo, hi)) => lo <= pos <= hi,
            None => false,
        }),
{
    match selection {
        Some((lo, hi)) => pos >= lo && pos <= hi,
        None => false,
    }
}

/// `offset` on `side` lies inside a diff selection made on that side,
/// whichever way its two ends were dragged.
pub fn in_diff_selection(side: DiffSide, offset: usize, sel: Option<(DiffSide, usize, usize)>) -> (r: bool)
    ensures
        r == (match sel {
            Some((s, a, b)) => s == side && (if a <= b { a <= offset <= b } else { b <= offset <= a }),
            None => false,
        }),
{
    match sel {
        Some((s, a, b)) => {
            if s == side {
                let lo = if a <= b { a } else { b };
                let hi = if a <= b { b } else { a };
                offset >= lo && offset <= hi
            } else {
                false
            }
        },
        None => false,
    }
}

/// The inclusive selection `(a, b)` with its ends in order.
pub fn selection_range(selection: Option<(usize, usize)>) -> (r: Option<(usize, usize)>)
    ensures
        r == (match selection {
            Some((a, b)) => Some(if a <= b { (a, b) } else { (b, a) }),
            None => None,
        }),
{
    match selection {
        Some((a, b)) => Some(if a <= b { (a, b) } else { (b, a) }),
        None => None,
    }
}

/// The find cursor after stepping forward through `total` matches:
/// the first match on a fresh search, wrapping from the last to the
/// first; none when there are no matches.
pub fn next_match(current: Option<usize>, total: usize) -> (r: Option<usize>)
    requires
        current matches Some(i) ==> i < total,
    ensures
        total == 0 ==> r is None,
        total > 0 ==> r == Some(match current {
            Some(i) => ((i + 1) % (total as int)) as usize,
            None => 0usize,
        }),
{
    if total == 0 {
        return None;
    }
    match current {
        Some(i) => Some((i + 1) % total),
        None => Some(0),
    }
}

/// The find cursor after stepping back: the last match on a fresh
/// search, wrapping from the first to the last; none when there are no
/// matches.
pub fn prev_match(current: Option<usize>, total: usize) -> (r: Option<usize>)
    requires
        current matches Some(i) ==> i < total,
    ensures
        total == 0 ==> r is None,
        total > 0 ==> r == Some(match current {
            Some(i) => if i == 0 { (total - 1) as usize } else { (i - 1) as usize },
            None => (total - 1) as usize,
        }),
{
    if total == 0 {
        return None;
    }
    match current {
        Some(i) => Some(if i == 0 { total - 1 } else { i - 1 }),
        None => Some(total - 1),
    }
}

/// `b` as upper-case hex pairs separated by single spaces.
pub open spec fn spaced_hex(b: Seq<u8>) -> Seq<char>
    decreases b.len(),
{
    if b.len() == 0 {
        Seq::empty()
    } else if b.len() == 1 {
        hex(b[0] as nat, 2, true)
    } else {
        spaced_hex(b.drop_last()) + seq![' '] + hex(b.last() as nat, 2, true)
    }
}

/// Two upper-case hex digits per byte, concatenated.
pub open spec fn hex_pairs(b: Seq<u8>) -> Seq<char>
    decreases b.len(),
{
    if b.len() == 0 {
        Seq::empty()
    } else {
        hex_pairs(b.drop_last()) + hex(b.last() as nat, 2, true)
    }
}

/// Removing whitespace from two pieces removes it from each.
proof fn lemma_strip_concat(x: Seq<char>, y: Seq<char>)
    ensures
        strip_ws(x + y) == strip_ws(x) + strip_ws(y),
    decreases y.len(),
{
    if y.len() == 0 {
        assert(x + y =~= x);
        assert(strip_ws(x) + strip_ws(y) =~= strip_ws(x));
    } else {
        lemma_strip_concat(x, y.drop_last());
        assert((x + y).drop_last() =~= x + y.drop_last());
        assert((x + y).last() == y.last());
        if !is_ws(y.last()) {
            assert(strip_ws(x) + strip_ws(y.drop_last()).push(y.last()) =~= (strip_ws(x) + strip_ws(y.drop_last())).push(y.last()));
        }
    }
}

/// A hex digit of `d < 16` reads back as `d`.
proof fn lemma_hex_digit(d: nat)
    requires
        d < 16,
    ensures
        is_hex_digit(crate::text::hex_char(d, true)),
        !is_ws(crate::text::hex_char(d, true)),
        hex_val(crate::text::hex_char(d, true)) == d,
{
}

/// A byte's two hex digits.
proof fn lemma_hex2(v: u8)
    ensures
        hex(v as nat, 2, true) == seq![crate::text::hex_char(v as nat / 16, true), crate::text::hex_char(v as nat % 16, true)],
{
    assert(hex((v as nat / 16) as nat, 1, true) == seq![crate::text::hex_char(v as nat / 16, true)]);
}

/// The pairs hold each byte's high then low digit, two per byte.
proof fn lemma_hex_pairs(b: Seq<u8>)
    ensures
        hex_pairs(b).len() == 2 * b.len(),
        forall|i: int| 0 <= i < b.len() ==> #[trigger] hex_pairs(b)[2 * i] == crate::text::hex_char(b[i] as nat / 16, true),
        forall|i: int| 0 <= i < b.len() ==> #[trigger] hex_pairs(b)[2 * i + 1] == crate::text::hex_char(b[i] as nat % 16, true),
    decreases b.len(),
{
    if b.len() > 0 {
        let d = b.drop_last();
        lemma_hex_pairs(d);
        lemma_hex2(b.last());
        let h = hex(b.last() as nat, 2, true);
        assert(hex_pairs(b) == hex_pairs(d) + h);
        assert forall|i: int| 0 <= i < b.len() implies #[trigger] hex_pairs(b)[2 * i] == crate::text::hex_char(b[i] as nat / 16, true) by {
            if i < b.len() - 1 {
                assert(d[i] == b[i]);
                assert(hex_pairs(d)[2 * i] == crate::text::hex_char(d[i] as nat / 16, true));
            } else {
                assert(hex_pairs(b)[2 * i] == h[0]);
            }
        }
        assert forall|i: int| 0 <= i < b.len() implies #[trigger] hex_pairs(b)[2 * i + 1] == crate::text::hex_char(b[i] as nat % 16, true) by {
            if i < b.len() - 1 {
                assert(d[i] == b[i]);
                assert(hex_pairs(d)[2 * i + 1] == crate::text::hex_char(d[i] as nat % 16, true));
            } else {
                assert(hex_pairs(b)[2 * i + 1] == h[1]);
            }
        }
    }
}

/// Spaced hex without its spaces is the plain pairs.
proof fn lemma_strip_spaced(b: Seq<u8>)
    ensures
        strip_ws(spaced_hex(b)) == hex_pairs(b),
    decreases b.len(),
{
    if b.len() == 1 {
        lemma_hex2(b[0]);
        lemma_hex_digit(b[0] as nat / 16);
        lemma_hex_digit(b[0] as nat % 16);
        let h = hex(b[0] as nat, 2, true);
        assert(h.drop_last() =~= seq![h[0]]);
        assert(seq![h[0]].drop_last() =~= Seq::<char>::empty());
        assert(strip_ws(Seq::<char>::empty()) == Seq::<char>::empty());
        assert(strip_ws(seq![h[0]]) =~= seq![h[0]]);
        assert(strip_ws(h) =~= h);
        assert(b.drop_last() =~= Seq::<u8>::empty());
        assert(hex_pairs(Seq::<u8>::empty()) == Seq::<char>::empty());
        assert(hex_pairs(b) =~= h);
    } else if b.len() > 1 {
        lemma_strip_spaced(b.drop_last());
        let h = hex(b.last() as nat, 2, true);
        lemma_hex2(b.last());
        lemma_hex_digit(b.last() as nat / 16);
        lemma_hex_digit(b.last() as nat % 16);
        lemma_strip_concat(spaced_hex(b.drop_last()) + seq![' '], h);
        lemma_strip_concat(spaced_hex(b.drop_last()), seq![' ']);
        assert(seq![' '].drop_last() =~= Seq::<char>::empty());
        assert(strip_ws(Seq::<char>::empty()) == Seq::<char>::empty());
        assert(is_ws(' '));
        assert(strip_ws(seq![' ']) =~= Seq::<char>::empty());
        assert(h.drop_last() =~= seq![h[0]]);
        assert(seq![h[0]].drop_last() =~= Seq::<char>::empty());
        assert(strip_ws(seq![h[0]]) =~= seq![h[0]]);
        assert(strip_ws(h) =~= h);
        assert(strip_ws(spaced_hex(b.drop_last())) + Seq::<char>::empty() =~= strip_ws(spaced_hex(b.drop_last())));
    }
}

/// The hex text a selection is copied as, pasted into find, searches for
/// exactly the selected bytes: it reads as hex, and its digits spell the
/// bytes.
pub proof fn lemma_copied_hex_finds_same_bytes(b: Seq<u8>)
    requires
        b.len() > 0,
    ensures
        reads_as_hex(spaced_hex(b)),
        hex_bytes(strip_ws(spaced_hex(b))) == b,
{
    lemma_strip_spaced(b);
    lemma_hex_pairs(b);
    let c = hex_pairs(b);
    assert forall|i: int| 0 <= i < c.len() implies is_hex_digit(#[trigger] c[i]) by {
        let k = i / 2;
        assert(i == 2 * k || i == 2 * k + 1);
        assert(0 <= k < b.len());
        lemma_hex_digit(b[k] as nat / 16);
        lemma_hex_digit(b[k] as nat % 16);
        assert(c[2 * k] == crate::text::hex_char(b[k] as nat / 16, true));
        assert(c[2 * k + 1] == crate::text::hex_char(b[k] as nat % 16, true));
    }
    assert forall|k: int| 0 <= k < b.len() implies #[trigger] hex_bytes(c)[k] == b[k] by {
        lemma_hex_digit(b[k] as nat / 16);
        lemma_hex_digit(b[k] as nat % 16);
        assert(c[2 * k] == crate::text::hex_char(b[k] as nat / 16, true));
        assert(c[2 * k + 1] == crate::text::hex_char(b[k] as nat % 16, true));
    }
    assert(hex_bytes(c) =~= b);
}

/// The clipboard text of a hex-view selection `lo ..= hi`: the selected
/// bytes (clipped to the buffer) as spaced upper-case hex, or nothing
/// when the selection starts past the end.
pub fn selection_hex(bytes: &[u8], lo: usize, hi: usize) -> (r: Option<String>)
    requires
        hi < usize::MAX,
    ensures
        ({
            let end = if hi + 1 < bytes@.len() { hi + 1 } else { bytes@.len() as int };
            &&& lo >= end ==> r is None
            &&& lo < end ==> (r matches Some(t) && t@ == spaced_hex(bytes@.subrange(lo as int, end)))
        }),
{
    let end: usize = if hi + 1 < bytes.len() { hi + 1 } else { bytes.len() };
    if lo >= end {
        return None;
    }
    let mut v: Vec<char> = Vec::new();
    let mut i: usize = lo;
    while i < end
        invariant
            lo <= i <= end,
            end <= bytes@.len(),
            lo < end,
            v@ == spaced_hex(bytes@.subrange(lo as int, i as int)),
        decreases end - i,
    {
        if i > lo {
            v.push(' ');
        }
        crate::text::push_hex(&mut v, bytes[i] as u64, 2, true);
        proof {
            let next = bytes@.subrange(lo as int, i + 1);
            assert(next.drop_last() =~= bytes@.subrange(lo as int, i as int));
            assert(next.last() == bytes@[i as int]);
            if i == lo {
                assert(bytes@.subrange(lo as int, i as int).len() == 0);
                assert(v@ =~= spaced_hex(next));
            } else {
                assert(v@ =~= spaced_hex(next));
            }
        }
        i = i + 1;
    }
    Some(crate::text::string_from_chars(v.as_slice()))
}

/// The vendor a JEDEC manufacturer code (two hex digits, either case)
/// names.
pub open spec fn vendor_name(c0: char, c1: char) -> Seq<char> {
    let a = upper(c0);
    let b = upper(c1);
    if a == 'E' && b == 'F' {
        "Winbond"@
    } else if a == 'C' && b == '2' {
        "Macronix"@
    } else if a == 'C' && b == '8' {
        "GigaDevice"@
    } else if a == 'B' && b == 'F' {
        "SST"@
    } else if a == '1' && b == 'F' {
        "Adesto/Atmel"@
    } else if a == '1' && b == 'C' {
        "EON"@
    } else if a == '8' && b == '5' {
        "PUYA"@
    } else if a == '9' && b == 'D' {
        "ISSI"@
    } else {
        "Other"@
    }
}

/// The vendor of a part from the first two characters of its JEDEC id,
/// `"Other"` for unknown or short ids.
pub fn vendor_of(jedec_id: &str) -> (r: &'static str)
    ensures
        jedec_id@.len() >= 2 ==> r@ == vendor_name(jedec_id@[0], jedec_id@[1]),
        jedec_id@.len() < 2 ==> r@ == "Other"@,
{
    if jedec_id.unicode_len() < 2 {
        return "Other";
    }
    let a = crate::text::to_upper(jedec_id.get_char(0));
    let b = crate::text::to_upper(jedec_id.get_char(1));
    if a == 'E' && b == 'F' {
        "Winbond"
    } else if a == 'C' && b == '2' {
        "Macronix"
    } else if a == 'C' && b == '8' {
        "GigaDevice"
    } else if a == 'B' && b == 'F' {
        "SST"
    } else if a == '1' && b == 'F' {
        "Adesto/Atmel"
    } else if a == '1' && b == 'C' {
        "EON"
    } else if a == '8' && b == '5' {
        "PUYA"
    } else if a == '9' && b == 'D' {
        "ISSI"
    } else {
        "Other"
    }
}

/// A byte count in exact binary units: `"<n> MB"` for whole MiB,
/// `"<n> KB"` for whole KiB, else `"<n> B"`.
pub open spec fn human_bytes_spec(n: nat) -> Seq<char> {
    if n >= 1048576 && n % 1048576 == 0 {
        dec(n / 1048576) + " MB"@
    } else if n >= 1024 && n % 1024 == 0 {
        dec(n / 1024) + " KB"@
    } else {
        dec(n) + " B"@
    }
}

/// Render a byte count in exact binary units (`"16 MB"`, `"4 KB"`,
/// `"1500 B"`).
pub fn human_bytes(n: u64) -> (r: String)
    ensures
        r@ == human_bytes_spec(n as nat),
{
    let mut v: Vec<char> = Vec::new();
    if n >= 1048576 && n % 1048576 == 0 {
        crate::text::push_dec(&mut v, n / 1048576);
        crate::text::push_str(&mut v, " MB");
    } else if n >= 1024 && n % 1024 == 0 {
        crate::text::push_dec(&mut v, n / 1024);
        crate::text::push_str(&mut v, " KB");
    } else {
        crate::text::push_dec(&mut v, n);
        crate::text::push_str(&mut v, " B");
    }
    crate::text::string_from_chars(v.as_slice())
}

} // verus!
