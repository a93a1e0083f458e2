//! Command-line logic that does not touch a terminal or a file: global
//! option resolution, number and range parsing, range validation,
//! offline chip resolution and the text of listings.
use crate::chipdb::{same_chip, same_i2c_chip, Chip, ChipDb, I2cChip, I2cChipDb};
use crate::inspect::is_ws;
use crate::text::{dec, eq_ignore_case, hex, push_dec, push_hex, push_str, str_chars, string_from_chars};
use vstd::prelude::*;
use vstd::string::*;
use vstd::utf8::{encode_utf8, is_char_boundary};

verus! {

/// SPI clock when `--speed` is not given: the fastest the CH341A selects.
pub const SPI_DEFAULT_SPEED_KHZ: u32 = 750;
/// I²C clock when `--speed` is not given: standard mode.
pub const I2C_DEFAULT_SPEED_KHZ: u32 = 100;
/// Fastest clock any catalogued 24Cxx is rated for.
pub const I2C_MAX_SPEED_KHZ: u32 = 400;

/// Options shared by every command.
pub struct GlobalOpts {
    /// Chip name overriding auto-detection.
    pub chip: Option<String>,
    /// Bus clock in kHz.
    pub speed: Option<u32>,
    /// Log every USB packet.
    pub verbose: bool,
    /// Validate and describe, never open the programmer.
    pub dry_run: bool,
}

/// The message refusing an I²C clock above the family's rating.
pub open spec fn i2c_speed_message(speed: u32) -> Seq<char> {
    "I²C clock "@ + dec(speed as nat)
        + " kHz exceeds the 400 kHz max for the 24Cxx family. Use -s 100 (default), -s 20, or -s 400."@
}

impl GlobalOpts {
    /// The SPI clock: `--speed`, else 750 kHz.
    pub fn spi_speed(&self) -> (r: u32)
        ensures
            r == (match self.speed {
                Some(s) => s,
                None => SPI_DEFAULT_SPEED_KHZ,
            }),
    {
        match self.speed {
            Some(s) => s,
            None => SPI_DEFAULT_SPEED_KHZ,
        }
    }

    /// The I²C clock: `--speed`, else 100 kHz; anything above 400 kHz
    /// is refused with a message naming the limit.
    pub fn i2c_speed(&self) -> (r: Result<u32, String>)
        ensures
            ({
                let s = match self.speed {
                    Some(s) => s,
                    None => I2C_DEFAULT_SPEED_KHZ,
                };
                &&& s <= I2C_MAX_SPEED_KHZ ==> r == Ok::<u32, String>(s)
                &&& s > I2C_MAX_SPEED_KHZ ==> (r matches Err(m) && m@ == i2c_speed_message(s))
            }),
    {
        let speed = match self.speed {
            Some(s) => s,
            None => I2C_DEFAULT_SPEED_KHZ,
        };
        if speed > I2C_MAX_SPEED_KHZ {
            let mut v = str_chars("I²C clock ");
            push_dec(&mut v, speed as u64);
            push_str(&mut v, " kHz exceeds the 400 kHz max for the 24Cxx family. Use -s 100 (default), -s 20, or -s 400.");
            return Err(string_from_chars(v.as_slice()));
        }
        Ok(speed)
    }
}

// ---------------------------------------------------------------
// Numbers
// ---------------------------------------------------------------

/// Why a string is not a `u32`.
#[derive(Clone, Copy, Debug, PartialEq, Eq, Structural)]
pub enum IntErrorKind {
    /// Nothing to parse.
    Empty,
    /// A character that is not a digit of the radix.
    InvalidDigit,
    /// The value exceeds `u32::MAX`.
    PosOverflow,
}

/// Value of `c` as a digit of `radix` (10 or 16), if it is one.
pub open spec fn digit_of(c: char, radix: nat) -> Option<nat> {
    if '0' <= c && c <= '9' {
        Some((c as u32 - '0' as u32) as nat)
    } else if radix == 16 && 'a' <= c && c <= 'f' {
        Some((c as u32 - 'a' as u32 + 10) as nat)
    } else if radix == 16 && 'A' <= c && c <= 'F' {
        Some((c as u32 - 'A' as u32 + 10) as nat)
    } else {
        None
    }
}

/// Left-to-right digit accumulation over the first `k` characters: a
/// non-digit stops with `InvalidDigit`, a value past `u32::MAX` with
/// `PosOverflow`.
pub open spec fn accumulate(d: Seq<char>, radix: nat, k: int) -> Result<nat, IntErrorKind>
    decreases k,
{
    if k <= 0 {
        Ok(0)
    } else {
        match accumulate(d, radix, k - 1) {
            Err(e) => Err(e),
            Ok(acc) => match digit_of(d[k - 1], radix) {
                None => Err(IntErrorKind::InvalidDigit),
                Some(x) => if acc * radix + x > u32::MAX {
                    Err(IntErrorKind::PosOverflow)
                } else {
                    Ok(acc * radix + x)
                },
            },
        }
    }
}

/// `u32::from_str_radix(s, radix)`: an optional `+` then digits.
pub open spec fn parse_u32(s: Seq<char>, radix: nat) -> Result<u32, IntErrorKind> {
    if s.len() == 0 {
        Err(IntErrorKind::Empty)
    } else if (s[0] == '+' || s[0] == '-') && s.len() == 1 {
        Err(IntErrorKind::InvalidDigit)
    } else {
        let d = if s[0] == '+' { s.drop_first() } else { s };
        match accumulate(d, radix, d.len() as int) {
            Ok(v) => Ok(v as u32),
            Err(e) => Err(e),
        }
    }
}

/// The text `ParseIntError` displays for each kind.
pub open spec fn int_error_text(k: IntErrorKind) -> Seq<char> {
    match k {
        IntErrorKind::Empty => "cannot parse integer from empty string"@,
        IntErrorKind::InvalidDigit => "invalid digit found in string"@,
        IntErrorKind::PosOverflow => "number too large to fit in target type"@,
    }
}

/// `s` with leading and trailing whitespace removed (`str::trim`).
pub open spec fn trimmed(s: Seq<char>) -> Seq<char> {
    s.subrange(trim_front(s, 0), trim_back(s, s.len() as int))
}

/// Index of the first non-whitespace character at or after `i` (or the end).
pub open spec fn trim_front(s: Seq<char>, i: int) -> int
    decreases s.len() - i,
{
    if i >= s.len() {
        s.len() as int
    } else if is_ws(s[i]) {
        trim_front(s, i + 1)
    } else {
        i
    }
}

/// One past the last non-whitespace character below `j`, not below the
/// first non-whitespace one.
pub open spec fn trim_back(s: Seq<char>, j: int) -> int
    decreases j,
{
    if j <= 0 || j <= trim_front(s, 0) {
        trim_front(s, 0)
    } else if is_ws(s[j - 1]) {
        trim_back(s, j - 1)
    } else {
        j
    }
}

/// What `parse_addr` reads `s` as: after trimming, hex behind `0x` /
/// `0X`, decimal otherwise.
pub open spec fn addr_value(s: Seq<char>) -> Result<u32, IntErrorKind> {
    let t = trimmed(s);
    if t.len() >= 2 && t[0] == '0' && (t[1] == 'x' || t[1] == 'X') {
        parse_u32(t.skip(2), 16)
    } else {
        parse_u32(t, 10)
    }
}

/// Once accumulation fails, it stays failed with the same error.
proof fn lemma_accumulate_err(d: Seq<char>, radix: nat, k: int, n: int)
    requires
        0 < k <= n,
        accumulate(d, radix, k) is Err,
    ensures
        accumulate(d, radix, n) == accumulate(d, radix, k),
    decreases n - k,
{
    if n > k {
        lemma_accumulate_err(d, radix, k, n - 1);
    }
}

/// Parse `d` as digits of `radix` (10 or 16) with an optional leading `+`.
fn parse_digits(d: &[char], radix: u32) -> (r: Result<u32, IntErrorKind>)
    requires
        radix == 10 || radix == 16,
    ensures
        r == parse_u32(d@, radix as nat),
{
    if d.len() == 0 {
        return Err(IntErrorKind::Empty);
    }
    if (d[0] == '+' || d[0] == '-') && d.len() == 1 {
        return Err(IntErrorKind::InvalidDigit);
    }
    let from: usize = if d[0] == '+' { 1 } else { 0 };
    let ghost body = if d@[0] == '+' { d@.drop_first() } else { d@ };
    let mut acc: u64 = 0;
    let mut i: usize = from;
    proof {
        assert(body =~= d@.subrange(from as int, d@.len() as int));
    }
    while i < d.len()
        invariant
            from <= i <= d@.len(),
            radix == 10 || radix == 16,
            d@.len() > 0,
            !((d@[0] == '+' || d@[0] == '-') && d@.len() == 1),
            body == (if d@[0] == '+' { d@.drop_first() } else { d@ }),
            body == d@.subrange(from as int, d@.len() as int),
            accumulate(body, radix as nat, i - from) == Ok::<nat, IntErrorKind>(acc as nat),
            acc <= u32::MAX,
        decreases d@.len() - i,
    {
        let c = d[i];
        let x: u64 = if '0' <= c && c <= '9' {
            (c as u32 - '0' as u32) as u64
        } else if radix == 16 && 'a' <= c && c <= 'f' {
            (c as u32 - 'a' as u32 + 10) as u64
        } else if radix == 16 && 'A' <= c && c <= 'F' {
            (c as u32 - 'A' as u32 + 10) as u64
        } else {
            proof {
                let k = i - from + 1;
                assert(body[k - 1] == c);
                assert(digit_of(c, radix as nat) is None);
                assert(accumulate(body, radix as nat, k) == Err::<nat, IntErrorKind>(IntErrorKind::InvalidDigit));
                lemma_accumulate_err(body, radix as nat, k, body.len() as int);
                assert(parse_u32(d@, radix as nat) == Err::<u32, IntErrorKind>(IntErrorKind::InvalidDigit));
            }
            return Err(IntErrorKind::InvalidDigit);
        };
        assert(body[i - from] == c);
        assert(acc * radix <= 0xFFFF_FFFFu64 * 16) by (nonlinear_arith)
            requires
                acc <= 0xFFFF_FFFFu64,
                radix <= 16,
        ;
        let next = acc * radix as u64 + x;
        if next > u32::MAX as u64 {
            proof {
                let k = i - from + 1;
                assert(body[k - 1] == c);
                assert(digit_of(c, radix as nat) == Some(x as nat));
                assert(accumulate(body, radix as nat, k) == Err::<nat, IntErrorKind>(IntErrorKind::PosOverflow));
                lemma_accumulate_err(body, radix as nat, k, body.len() as int);
                assert(parse_u32(d@, radix as nat) == Err::<u32, IntErrorKind>(IntErrorKind::PosOverflow));
            }
            return Err(IntErrorKind::PosOverflow);
        }
        acc = next;
        i = i + 1;
    }
    Ok(acc as u32)
}

/// Index of the first non-whitespace character (or the length).
fn skip_ws_front(v: &[char]) -> (r: usize)
    ensures
        r == trim_front(v@, 0),
{
    let mut i: usize = 0;
    while i < v.len() && crate::inspect::char_is_ws(v[i])
        invariant
            i <= v@.len(),
            trim_front(v@, i as int) == trim_front(v@, 0),
        decreases v@.len() - i,
    {
        i = i + 1;
    }
    i
}

/// One past the last non-whitespace character, not below `lo`.
fn skip_ws_back(v: &[char], lo: usize) -> (r: usize)
    requires
        lo == trim_front(v@, 0),
        lo <= v@.len(),
    ensures
        r == trim_back(v@, v@.len() as int),
        lo <= r <= v@.len(),
{
    let mut j: usize = v.len();
    while j > lo && crate::inspect::char_is_ws(v[j - 1])
        invariant
            lo <= j <= v@.len(),
            lo == trim_front(v@, 0),
            trim_back(v@, j as int) == trim_back(v@, v@.len() as int),
        decreases j,
    {
        j = j - 1;
    }
    j
}

/// `trim_front` never passes the end.
proof fn lemma_trim_front_bound(s: Seq<char>, i: int)
    requires
        0 <= i,
    ensures
        i <= s.len() ==> i <= trim_front(s, i) <= s.len(),
        i > s.len() ==> trim_front(s, i) == s.len(),
    decreases s.len() - i,
{
    if i < s.len() && is_ws(s[i]) {
        lemma_trim_front_bound(s, i + 1);
    }
}

/// Accumulating the first `k` characters reads only those characters.
proof fn lemma_accumulate_prefix(d1: Seq<char>, d2: Seq<char>, radix: nat, k: int)
    requires
        0 <= k <= d1.len(),
        k <= d2.len(),
        d1.subrange(0, k) == d2.subrange(0, k),
    ensures
        accumulate(d1, radix, k) == accumulate(d2, radix, k),
    decreases k,
{
    if k > 0 {
        assert(d1.subrange(0, k - 1) =~= d1.subrange(0, k).subrange(0, k - 1));
        assert(d2.subrange(0, k - 1) =~= d2.subrange(0, k).subrange(0, k - 1));
        assert(d1[k - 1] == d1.subrange(0, k)[k - 1]);
        assert(d2[k - 1] == d2.subrange(0, k)[k - 1]);
        lemma_accumulate_prefix(d1, d2, radix, k - 1);
    }
}

/// A character that is a hex digit is no whitespace, sign or `x`.
pub open spec fn plain_digit(c: char) -> bool {
    ('0' <= c && c <= '9') || ('A' <= c && c <= 'F')
}

/// Decimal digits accumulate back to the number they write.
proof fn lemma_accumulate_dec(n: nat)
    requires
        n <= u32::MAX,
    ensures
        dec(n).len() >= 1,
        forall|i: int| 0 <= i < dec(n).len() ==> plain_digit(#[trigger] dec(n)[i]),
        accumulate(dec(n), 10, dec(n).len() as int) == Ok::<nat, IntErrorKind>(n),
    decreases n,
{
    let d = dec(n);
    if n < 10 {
        assert(accumulate(d, 10, 0) == Ok::<nat, IntErrorKind>(0));
    } else {
        lemma_accumulate_dec(n / 10);
        let h = dec(n / 10);
        assert(d == h.push(crate::text::digit_char(n % 10)));
        assert(d.subrange(0, h.len() as int) =~= h.subrange(0, h.len() as int));
        lemma_accumulate_prefix(d, h, 10, h.len() as int);
        assert(h.subrange(0, h.len() as int) =~= h);
        assert forall|i: int| 0 <= i < d.len() implies plain_digit(#[trigger] d[i]) by {
            if i < h.len() {
                assert(d[i] == h[i]);
            }
        }
    }
}

/// Upper-case hex digits accumulate back to the number they write.
proof fn lemma_accumulate_hex(n: nat, width: nat)
    requires
        n <= u32::MAX,
    ensures
        hex(n, width, true).len() >= 1,
        forall|i: int| 0 <= i < hex(n, width, true).len() ==> plain_digit(#[trigger] hex(n, width, true)[i]),
        accumulate(hex(n, width, true), 16, hex(n, width, true).len() as int) == Ok::<nat, IntErrorKind>(n),
    decreases width, n,
{
    let d = hex(n, width, true);
    if n < 16 && width <= 1 {
        assert(accumulate(d, 16, 0) == Ok::<nat, IntErrorKind>(0));
    } else {
        let w2: nat = if width > 0 { (width - 1) as nat } else { 0 };
        lemma_accumulate_hex(n / 16, w2);
        let h = hex(n / 16, w2, true);
        assert(d == h.push(crate::text::hex_char(n % 16, true)));
        assert(d.subrange(0, h.len() as int) =~= h.subrange(0, h.len() as int));
        lemma_accumulate_prefix(d, h, 16, h.len() as int);
        assert(h.subrange(0, h.len() as int) =~= h);
        assert forall|i: int| 0 <= i < d.len() implies plain_digit(#[trigger] d[i]) by {
            if i < h.len() {
                assert(d[i] == h[i]);
            }
        }
    }
}

/// A run of plain digits is its own trimmed form.
proof fn lemma_trim_plain(s: Seq<char>)
    requires
        s.len() > 0,
        !is_ws(s[0]),
        !is_ws(s[s.len() - 1]),
    ensures
        trimmed(s) == s,
{
    assert(trim_front(s, 0) == 0);
    assert(trim_back(s, s.len() as int) == s.len());
    assert(s.subrange(0, s.len() as int) =~= s);
}

/// A number written in decimal reads back as itself.
pub proof fn lemma_parse_addr_reads_decimal(n: u32)
    ensures
        addr_value(dec(n as nat)) == Ok::<u32, IntErrorKind>(n),
{
    let d = dec(n as nat);
    lemma_accumulate_dec(n as nat);
    assert(plain_digit(d[0]) && plain_digit(d[d.len() - 1]));
    lemma_trim_plain(d);
    if d.len() >= 2 {
        assert(plain_digit(d[1]));
    }
}

/// A number written as `0x` and upper-case hex digits (any zero padding,
/// as `0x{:08X}` prints it) reads back as itself.
pub proof fn lemma_parse_addr_reads_hex(n: u32, width: nat)
    ensures
        addr_value("0x"@ + hex(n as nat, width, true)) == Ok::<u32, IntErrorKind>(n),
{
    reveal_strlit("0x");
    let h = hex(n as nat, width, true);
    let s = "0x"@ + h;
    lemma_accumulate_hex(n as nat, width);
    assert(plain_digit(h[h.len() - 1]));
    assert(s[s.len() - 1] == h[h.len() - 1]);
    assert(s[0] == '0');
    lemma_trim_plain(s);
    assert(s.skip(2) =~= h);
    assert(plain_digit(h[0]));
}

/// Parse an address or length: decimal, or hex behind `0x` / `0X`,
/// surrounding whitespace ignored. The error is the `ParseIntError`
/// text.
pub fn parse_addr(s: &str) -> (r: Result<u32, String>)
    ensures
        (match addr_value(s@) {
            Ok(v) => r == Ok::<u32, String>(v),
            Err(k) => r matches Err(m) && m@ == int_error_text(k),
        }),
{
    let v = str_chars(s);
    let lo = skip_ws_front(v.as_slice());
    proof {
        lemma_trim_front_bound(v@, 0);
    }
    let hi = skip_ws_back(v.as_slice(), lo);
    let t = vstd::slice::slice_subrange(v.as_slice(), lo, hi);
    let res = if t.len() >= 2 && t[0] == '0' && (t[1] == 'x' || t[1] == 'X') {
        let d = vstd::slice::slice_subrange(t, 2, t.len());
        assert(d@ =~= t@.skip(2));
        parse_digits(d, 16)
    } else {
        parse_digits(t, 10)
    };
    match res {
        Ok(x) => Ok(x),
        Err(k) => Err(String::from_str(match k {
            IntErrorKind::Empty => "cannot parse integer from empty string",
            IntErrorKind::InvalidDigit => "invalid digit found in string",
            IntErrorKind::PosOverflow => "number too large to fit in target type",
        })),
    }
}

/// The `{:?}` rendering of a string (quoted, with `escape_debug`
/// escapes), as the standard library formats it.
pub uninterp spec fn debug_quoted(s: Seq<char>) -> Seq<char>;

/// `format!("{:?}", s)`: the quoted, escaped form of `s`. The escaping
/// rules are not restated; the result is named.
#[verifier::external_body]
fn debug_str(s: &str) -> (r: String)
    ensures
        r@ == debug_quoted(s@),
{
    format!("{:?}", s)
}

/// Index of the first `:` in `s`, if any.
pub open spec fn first_colon(s: Seq<char>) -> Option<int> {
    if exists|i: int| 0 <= i < s.len() && s[i] == ':' {
        Some(choose|i: int| 0 <= i < s.len() && s[i] == ':' && forall|j: int| 0 <= j < i ==> s[j] != ':')
    } else {
        None
    }
}

/// Parse `START:LEN` (each as [`parse_addr`] reads it), split at the
/// first `:`.
pub fn parse_range(s: &str) -> (r: Result<(u32, u32), String>)
    ensures
        (match first_colon(s@) {
            None => r matches Err(m) && m@ == "--range must be START:LEN, got "@ + debug_quoted(s@),
            Some(i) => match (addr_value(s@.subrange(0, i)), addr_value(s@.subrange(i + 1, s@.len() as int))) {
                (Ok(a), Ok(b)) => r == Ok::<(u32, u32), String>((a, b)),
                (Err(k), _) => r matches Err(m) && m@ == int_error_text(k),
                (Ok(_), Err(k)) => r matches Err(m) && m@ == int_error_text(k),
            },
        }),
{
    let v = str_chars(s);
    let mut i: usize = 0;
    while i < v.len() && v[i] != ':'
        invariant
            i <= v@.len(),
            v@ == s@,
            forall|j: int| 0 <= j < i ==> v@[j] != ':',
        decreases v@.len() - i,
    {
        i = i + 1;
    }
    if i == v.len() {
        let mut m = str_chars("--range must be START:LEN, got ");
        let q = debug_str(s);
        push_str(&mut m, q.as_str());
        return Err(string_from_chars(m.as_slice()));
    }
    proof {
        assert(first_colon(s@) == Some(i as int)) by {
            assert(0 <= i < s@.len() && s@[i as int] == ':');
            let w = choose|k: int| 0 <= k < s@.len() && s@[k] == ':' && forall|j: int| 0 <= j < k ==> s@[j] != ':';
            assert(w == i as int) by {
                if w < i {
                    assert(s@[w] != ':');
                }
                if w > i {
                    assert(s@[i as int] != ':');
                }
            }
        }
    }
    let a = string_from_chars(vstd::slice::slice_subrange(v.as_slice(), 0, i));
    let b = string_from_chars(vstd::slice::slice_subrange(v.as_slice(), i + 1, v.len()));
    let start = parse_addr(a.as_str())?;
    let len = parse_addr(b.as_str())?;
    Ok((start, len))
}

// ---------------------------------------------------------------
// Range checks and offline resolution
// ---------------------------------------------------------------

/// `start + len` saturated at `u32::MAX`.
pub open spec fn sat_end(start: u32, len: u32) -> int {
    if start + len > u32::MAX {
        u32::MAX as int
    } else {
        start + len
    }
}

/// The "out of bounds" message for a range on a chip described by
/// `size` (e.g. `"16384 KB"`) and `name`.
pub open spec fn range_message(start: u32, len: u32, size: Seq<char>, name: Seq<char>) -> Seq<char> {
    "address range out of bounds: 0x"@ + hex(start as nat, 8, true) + "..0x"@ + hex(sat_end(start, len) as nat, 8, true)
        + " on a "@ + size + " chip ("@ + name + ")"@
}

/// `a + b`, saturating.
fn sat_add(a: u32, b: u32) -> (r: u32)
    ensures
        r == sat_end(a, b),
{
    if a as u64 + b as u64 > u32::MAX as u64 {
        u32::MAX
    } else {
        a + b
    }
}

/// Build the "out of bounds" message.
fn range_error(start: u32, len: u32, size: u64, unit: &str, name: &str) -> (r: String)
    ensures
        r@ == range_message(start, len, dec(size as nat) + unit@, name@),
{
    let mut v = str_chars("address range out of bounds: 0x");
    push_hex(&mut v, start as u64, 8, true);
    push_str(&mut v, "..0x");
    push_hex(&mut v, sat_add(start, len) as u64, 8, true);
    push_str(&mut v, " on a ");
    push_dec(&mut v, size);
    push_str(&mut v, unit);
    push_str(&mut v, " chip (");
    push_str(&mut v, name);
    push_str(&mut v, ")");
    assert(v@ =~= range_message(start, len, dec(size as nat) + unit@, name@));
    string_from_chars(v.as_slice())
}

/// Check that `start .. start + len` fits a SPI chip (sizes saturate at
/// `u32::MAX`).
pub fn validate_spi_range(chip: &Chip, start: u32, len: u32) -> (r: Result<(), String>)
    ensures
        sat_end(start, len) <= crate::ops::chip_bytes(chip.size_kb) ==> r is Ok,
        sat_end(start, len) > crate::ops::chip_bytes(chip.size_kb) ==> (r matches Err(m) && m@ == range_message(
            start,
            len,
            dec(chip.size_kb as nat) + " KB"@,
            chip.name@,
        )),
{
    let chip_bytes: u64 = if chip.size_kb > u32::MAX / 1024 { u32::MAX as u64 } else { chip.size_kb as u64 * 1024 };
    if sat_add(start, len) as u64 > chip_bytes {
        return Err(range_error(start, len, chip.size_kb as u64, " KB", chip.name.as_str()));
    }
    Ok(())
}

/// How many bytes a read from `start` covers: `length` when given,
/// else the rest of a `size`-byte chip (none past its end).
pub fn read_len(size: u32, start: u32, length: Option<u32>) -> (r: u32)
    ensures
        r == (match length {
            Some(l) => l as int,
            None => if start <= size { size - start } else { 0 },
        }),
{
    match length {
        Some(l) => l,
        None => if start <= size { size - start } else { 0 },
    }
}

/// Check that `start .. start + len` fits an I²C EEPROM.
pub fn validate_i2c_range(chip: &I2cChip, start: u32, len: u32) -> (r: Result<(), String>)
    ensures
        sat_end(start, len) <= chip.size_bytes ==> r is Ok,
        sat_end(start, len) > chip.size_bytes ==> (r matches Err(m) && m@ == range_message(
            start,
            len,
            dec(chip.size_bytes as nat) + " B"@,
            chip.name@,
        )),
{
    if sat_add(start, len) > chip.size_bytes {
        return Err(range_error(start, len, chip.size_bytes as u64, " B", chip.name.as_str()));
    }
    Ok(())
}

/// Resolve the SPI chip named by `--chip` without hardware (for dry
/// runs): the name is required and must be in `db`.
pub fn resolve_chip_offline(global: &GlobalOpts, db: &ChipDb) -> (r: Result<Chip, String>)
    ensures
        (match global.chip {
            None => r matches Err(m) && m@ == "--dry-run requires --chip <NAME> (no hardware to autodetect)"@,
            Some(n) => match r {
                Ok(c) => exists|i: int| crate::chipdb::first_name_match(db.entries(), n@, i) && same_chip(c, db.entries()[i]),
                Err(m) => crate::ops::no_name_match(db.entries(), n@) && m@ == "--chip "@ + n@
                    + ": not in chip DB (try `etch341 chips --find "@ + n@ + "`)"@,
            },
        }),
{
    match &global.chip {
        None => Err(String::from_str("--dry-run requires --chip <NAME> (no hardware to autodetect)")),
        Some(name) => match db.find_by_name(name.as_str()) {
            Some(c) => Ok(c.clone_chip()),
            None => {
                let mut v = str_chars("--chip ");
                push_str(&mut v, name.as_str());
                push_str(&mut v, ": not in chip DB (try `etch341 chips --find ");
                push_str(&mut v, name.as_str());
                push_str(&mut v, "`)");
                Err(string_from_chars(v.as_slice()))
            },
        },
    }
}

/// Resolve the I²C chip named by `--chip` without hardware: I²C always
/// needs an explicit name.
pub fn resolve_i2c_chip_offline(global: &GlobalOpts, db: &I2cChipDb) -> (r: Result<I2cChip, String>)
    ensures
        (match global.chip {
            None => r matches Err(m) && m@ == "I²C ops require --chip <NAME>"@,
            Some(n) => match r {
                Ok(c) => exists|i: int| 0 <= i < db.entries().len() && same_i2c_chip(c, db.entries()[i]) && eq_ignore_case(
                    db.entries()[i].name@,
                    n@,
                ) && forall|j: int| 0 <= j < i ==> !eq_ignore_case(#[trigger] db.entries()[j].name@, n@),
                Err(m) => (forall|i: int| 0 <= i < db.entries().len() ==> !eq_ignore_case(#[trigger] db.entries()[i].name@, n@))
                    && m@ == "--chip "@ + n@ + ": not in i2c_chips.toml"@,
            },
        }),
{
    match &global.chip {
        None => Err(String::from_str("I²C ops require --chip <NAME>")),
        Some(name) => match db.find_by_name(name.as_str()) {
            Some(c) => Ok(c.clone_chip()),
            None => {
                let mut v = str_chars("--chip ");
                push_str(&mut v, name.as_str());
                push_str(&mut v, ": not in i2c_chips.toml");
                Err(string_from_chars(v.as_slice()))
            },
        },
    }
}

// ---------------------------------------------------------------
// Small text helpers
// ---------------------------------------------------------------

/// A byte count in the largest whole binary unit: GB, MB, KB or B
/// (rounded down).
pub open spec fn fmt_bytes_spec(n: nat) -> Seq<char> {
    if n >= 1073741824 {
        dec(n / 1073741824) + " GB"@
    } else if n >= 1048576 {
        dec(n / 1048576) + " MB"@
    } else if n >= 1024 {
        dec(n / 1024) + " KB"@
    } else {
        dec(n) + " B"@
    }
}

/// Compact byte count: `"<n> GB"`, `"<n> MB"`, `"<n> KB"` or `"<n> B"`.
pub fn fmt_bytes(n: u64) -> (r: String)
    ensures
        r@ == fmt_bytes_spec(n as nat),
{
    let mut v: Vec<char> = Vec::new();
    if n >= 1073741824 {
        push_dec(&mut v, n / 1073741824);
        push_str(&mut v, " GB");
    } else if n >= 1048576 {
        push_dec(&mut v, n / 1048576);
        push_str(&mut v, " MB");
    } else if n >= 1024 {
        push_dec(&mut v, n / 1024);
        push_str(&mut v, " KB");
    } else {
        push_dec(&mut v, n);
        push_str(&mut v, " B");
    }
    string_from_chars(v.as_slice())
}

/// `""` for one, `"s"` otherwise.
pub fn plural(n: usize) -> (r: &'static str)
    ensures
        n == 1 ==> r@ == ""@,
        n != 1 ==> r@ == "s"@,
{
    if n == 1 { "" } else { "s" }
}

/// `s` when it is at most `max` bytes long; otherwise its first
/// `max - 1` bytes followed by `…`. The cut must fall on a character
/// boundary.
pub fn truncate(s: &str, max: usize) -> (r: String)
    requires
        s.spec_bytes().len() <= usize::MAX,
        s.spec_bytes().len() > max ==> is_char_boundary(s.spec_bytes(), if max > 0 { max - 1 } else { 0 }),
    ensures
        s.spec_bytes().len() <= max ==> r@ == s@,
        s.spec_bytes().len() > max ==> r@.len() > 0 && r@.last() == '…' && encode_utf8(r@.drop_last())
            == s.spec_bytes().subrange(0, if max > 0 { max - 1 } else { 0 }),
{
    if s.len() <= max {
        return String::from_str(s);
    }
    let cut: usize = if max > 0 { max - 1 } else { 0 };
    let (head, _) = s.split_at(cut);
    let mut r = String::from_str(head);
    let ghost h = r@;
    r.append("…");
    proof {
        reveal_strlit("…");
        assert(r@.drop_last() =~= h);
        assert(head.spec_bytes() == encode_utf8(head@));
    }
    r
}

// ---------------------------------------------------------------
// Chip listing
// ---------------------------------------------------------------

/// ASCII lower-case of every character.
pub open spec fn lower_all(s: Seq<char>) -> Seq<char> {
    s.map_values(|c: char| crate::text::lower(c))
}

/// `n` occurs in `h` as a contiguous run (the empty string occurs everywhere).
pub open spec fn contains(h: Seq<char>, n: Seq<char>) -> bool {
    exists|i: int| 0 <= i <= h.len() - n.len() && #[trigger] h.subrange(i, i + n.len()) == n
}

/// `s` left-aligned in `w` columns (padded with spaces, never cut).
pub open spec fn pad(s: Seq<char>, w: nat) -> Seq<char> {
    if s.len() >= w {
        s
    } else {
        s + Seq::new((w - s.len()) as nat, |_i: int| ' ')
    }
}

/// The voltage text of a SPI part.
pub open spec fn voltage_text(c: Chip) -> Seq<char> {
    let v = crate::chipdb::voltage_class(c.jedec_id@);
    if v == 18 {
        "1.8V"@
    } else if v == 23 {
        "2.3V"@
    } else {
        "3.3V"@
    }
}

/// A SPI part is listed for `needle` (already lower-cased): no needle,
/// or the needle occurs in its lower-cased name or JEDEC id.
pub open spec fn spi_listed(c: Chip, needle: Option<Seq<char>>) -> bool {
    match needle {
        None => true,
        Some(n) => contains(lower_all(c.name@), n) || contains(lower_all(c.jedec_id@), n),
    }
}

/// An I²C part is listed for `needle`: no needle, or it occurs in the
/// lower-cased name.
pub open spec fn i2c_listed(c: I2cChip, needle: Option<Seq<char>>) -> bool {
    match needle {
        None => true,
        Some(n) => contains(lower_all(c.name@), n),
    }
}

/// The SPI parts among the first `k` listed for `needle`, in order.
pub open spec fn spi_rows(cs: Seq<Chip>, needle: Option<Seq<char>>, k: int) -> Seq<Chip>
    decreases k,
{
    if k <= 0 {
        Seq::empty()
    } else if spi_listed(cs[k - 1], needle) {
        spi_rows(cs, needle, k - 1).push(cs[k - 1])
    } else {
        spi_rows(cs, needle, k - 1)
    }
}

/// The I²C parts among the first `k` listed for `needle`, in order.
pub open spec fn i2c_rows(cs: Seq<I2cChip>, needle: Option<Seq<char>>, k: int) -> Seq<I2cChip>
    decreases k,
{
    if k <= 0 {
        Seq::empty()
    } else if i2c_listed(cs[k - 1], needle) {
        i2c_rows(cs, needle, k - 1).push(cs[k - 1])
    } else {
        i2c_rows(cs, needle, k - 1)
    }
}

/// One SPI listing row.
pub open spec fn spi_row_text(c: Chip) -> Seq<char> {
    "  "@ + pad(c.name@, 14) + " "@ + pad(c.jedec_id@, 8) + " "@ + pad(fmt_bytes_spec(c.size_kb as nat * 1024), 10) + " "@
        + pad(voltage_text(c), 6) + " "@ + pad(fmt_bytes_spec(c.page_size as nat), 7) + " "@ + pad(
        fmt_bytes_spec(c.sector_size as nat),
        7,
    ) + "  "@ + c.notes@
}

/// One I²C listing row.
pub open spec fn i2c_row_text(c: I2cChip) -> Seq<char> {
    "  "@ + pad(c.name@, 10) + " "@ + pad(fmt_bytes_spec(c.size_bytes as nat), 10) + " "@ + pad("1.8–5.5V"@, 9) + " "@ + pad(
        fmt_bytes_spec(c.page_size as nat),
        6,
    ) + " "@ + pad(dec(c.addr_width as nat) + " B"@, 6)
}

/// The SPI section of the listing.
pub open spec fn spi_section(rows: Seq<Chip>) -> Seq<Seq<char>> {
    seq!["SPI flash"@ + " ("@ + dec(rows.len()) + " chip"@ + (if rows.len() == 1 { ""@ } else { "s"@ }) + "):"@] + if rows.len() == 0 {
        Seq::empty()
    } else {
        seq![
            "  "@ + pad("NAME"@, 14) + " "@ + pad("JEDEC"@, 8) + " "@ + pad("SIZE"@, 10) + " "@ + pad("VOLT"@, 6) + " "@ + pad("PAGE"@, 7)
                + " "@ + pad("SECTOR"@, 7) + "  NOTES"@,
        ] + rows.map_values(|c: Chip| spi_row_text(c))
    }
}

/// The I²C section of the listing.
pub open spec fn i2c_section(rows: Seq<I2cChip>) -> Seq<Seq<char>> {
    seq!["I²C EEPROMs"@ + " ("@ + dec(rows.len()) + " chip"@ + (if rows.len() == 1 { ""@ } else { "s"@ }) + "):"@] + if rows.len() == 0 {
        Seq::empty()
    } else {
        seq![
            "  "@ + pad("NAME"@, 10) + " "@ + pad("SIZE"@, 10) + " "@ + pad("VOLT"@, 9) + " "@ + pad("PAGE"@, 6) + " "@ + pad("ADDR"@, 6),
        ] + rows.map_values(|c: I2cChip| i2c_row_text(c))
    }
}

/// The whole listing: the SPI section unless `bus` names `i2c`, the
/// I²C section unless it names `spi`, a blank line between the two.
pub open spec fn listing(spi: Seq<Chip>, i2c: Seq<I2cChip>, bus: Option<Seq<char>>, needle: Option<Seq<char>>) -> Seq<Seq<char>> {
    let want_spi = bus is None || bus == Some("spi"@);
    let want_i2c = bus is None || bus == Some("i2c"@);
    (if want_spi { spi_section(spi_rows(spi, needle, spi.len() as int)) } else { Seq::empty() }) + (if want_spi && want_i2c {
        seq![""@]
    } else {
        Seq::empty()
    }) + (if want_i2c { i2c_section(i2c_rows(i2c, needle, i2c.len() as int)) } else { Seq::empty() })
}

/// Append `s` padded to `w` columns.
fn push_padded(out: &mut Vec<char>, s: &[char], w: usize)
    ensures
        final(out)@ == old(out)@ + pad(s@, w as nat),
{
    crate::text::push_chars(out, s);
    let ghost mid = out@;
    let mut k: usize = s.len();
    while k < w
        invariant
            s@.len() <= k <= w || (k == s@.len() && k >= w),
            out@ == mid + Seq::new((k - s@.len()) as nat, |_i: int| ' '),
        decreases w - k,
    {
        out.push(' ');
        k = k + 1;
        assert(out@ =~= mid + Seq::new((k - s@.len()) as nat, |_i: int| ' '));
    }
    assert(out@ =~= old(out)@ + pad(s@, w as nat));
}

/// Append `s` padded to `w` columns.
fn push_padded_str(out: &mut Vec<char>, s: &str, w: usize)
    ensures
        final(out)@ == old(out)@ + pad(s@, w as nat),
{
    let v = str_chars(s);
    push_padded(out, v.as_slice(), w);
}

/// The lower-cased characters of `s`.
fn lower_chars(s: &str) -> (r: Vec<char>)
    ensures
        r@ == lower_all(s@),
{
    let v = str_chars(s);
    let mut r: Vec<char> = Vec::new();
    let mut i: usize = 0;
    while i < v.len()
        invariant
            i <= v@.len(),
            v@ == s@,
            r@ == lower_all(s@).subrange(0, i as int),
        decreases v@.len() - i,
    {
        r.push(crate::text::to_lower(v[i]));
        assert(r@ =~= lower_all(s@).subrange(0, i + 1));
        i = i + 1;
    }
    assert(r@ =~= lower_all(s@));
    r
}

/// Whether `n` occurs in `h`.
fn contains_seq(h: &[char], n: &[char]) -> (r: bool)
    ensures
        r == contains(h@, n@),
{
    if n.len() > h.len() {
        proof {
            assert forall|i: int| 0 <= i <= h@.len() - n@.len() implies #[trigger] h@.subrange(i, i + n@.len()) != n@ by {
            }
        }
        return false;
    }
    let hl = h.len();
    let last = hl - n.len();
    let mut i: usize = 0;
    while i <= last
        invariant
            hl == h@.len(),
            last == h@.len() - n@.len(),
            i <= last + 1,
            forall|j: int| 0 <= j < i ==> #[trigger] h@.subrange(j, j + n@.len()) != n@,
        decreases last + 1 - i,
    {
        let mut k: usize = 0;
        let mut ok = true;
        while ok && k < n.len()
            invariant
                hl == h@.len(),
                i <= last,
                last == h@.len() - n@.len(),
                k <= n@.len(),
                ok == (forall|j: int| 0 <= j < k ==> h@[i + j] == n@[j]),
            decreases n@.len() - k,
        {
            if h[i + k] != n[k] {
                ok = false;
            }
            k = k + 1;
        }
        if ok {
            assert(h@.subrange(i as int, i + n@.len()) =~= n@);
            return true;
        }
        assert(h@.subrange(i as int, i + n@.len()) != n@) by {
            let j = choose|j: int| 0 <= j < k && h@[i + j] != n@[j];
            assert(h@.subrange(i as int, i + n@.len())[j] != n@[j]);
        }
        i = i + 1;
    }
    false
}

/// One SPI listing row.
fn spi_row_string(c: &Chip) -> (r: String)
    ensures
        r@ == spi_row_text(*c),
{
    let mut v = str_chars("  ");
    push_padded_str(&mut v, c.name.as_str(), 14);
    push_str(&mut v, " ");
    push_padded_str(&mut v, c.jedec_id.as_str(), 8);
    push_str(&mut v, " ");
    let sz = fmt_bytes(c.size_kb as u64 * 1024);
    push_padded_str(&mut v, sz.as_str(), 10);
    push_str(&mut v, " ");
    let volt = c.voltage();
    push_padded_str(&mut v, volt, 6);
    push_str(&mut v, " ");
    let pg = fmt_bytes(c.page_size as u64);
    push_padded_str(&mut v, pg.as_str(), 7);
    push_str(&mut v, " ");
    let sc = fmt_bytes(c.sector_size as u64);
    push_padded_str(&mut v, sc.as_str(), 7);
    push_str(&mut v, "  ");
    push_str(&mut v, c.notes.as_str());
    assert(v@ =~= spi_row_text(*c));
    string_from_chars(v.as_slice())
}

/// One I²C listing row.
fn i2c_row_string(c: &I2cChip) -> (r: String)
    ensures
        r@ == i2c_row_text(*c),
{
    let mut v = str_chars("  ");
    push_padded_str(&mut v, c.name.as_str(), 10);
    push_str(&mut v, " ");
    let sz = fmt_bytes(c.size_bytes as u64);
    push_padded_str(&mut v, sz.as_str(), 10);
    push_str(&mut v, " ");
    push_padded_str(&mut v, c.voltage(), 9);
    push_str(&mut v, " ");
    let pg = fmt_bytes(c.page_size as u64);
    push_padded_str(&mut v, pg.as_str(), 6);
    push_str(&mut v, " ");
    let mut a: Vec<char> = Vec::new();
    push_dec(&mut a, c.addr_width as u64);
    push_str(&mut a, " B");
    push_padded(&mut v, a.as_slice(), 6);
    assert(v@ =~= i2c_row_text(*c));
    string_from_chars(v.as_slice())
}

/// `"<title> (<n> chip<s>):"`.
fn section_title(title: &str, n: usize) -> (r: String)
    ensures
        r@ == title@ + " ("@ + dec(n as nat) + " chip"@ + (if n == 1 { ""@ } else { "s"@ }) + "):"@,
{
    let mut v = str_chars(title);
    push_str(&mut v, " (");
    push_dec(&mut v, n as u64);
    push_str(&mut v, " chip");
    push_str(&mut v, plural(n));
    push_str(&mut v, "):");
    string_from_chars(v.as_slice())
}

/// Append one line.
fn push_line(v: &mut Vec<String>, s: String)
    ensures
        crate::report::views(final(v)@) == crate::report::views(old(v)@).push(s@),
{
    let ghost o = v@;
    v.push(s);
    assert(crate::report::views(v@) =~= crate::report::views(o).push(s@));
}

/// The SPI section of the listing for `needle` (lower-cased).
fn spi_section_lines(spi: &ChipDb, needle: &Option<Vec<char>>) -> (out: Vec<String>)
    ensures
        crate::report::views(out@) == spi_section(spi_rows(spi.entries(), match needle {
            Some(n) => Some(n@),
            None => None::<Seq<char>>,
        }, spi.entries().len() as int)),
{
    let ghost needle_v = match needle {
        Some(n) => Some(n@),
        None => None::<Seq<char>>,
    };
    let mut out: Vec<String> = Vec::new();
    let cs = spi.as_slice();
    let mut rows: Vec<&Chip> = Vec::new();
    let mut i: usize = 0;
    while i < cs.len()
        invariant
            i <= cs@.len(),
            cs@ == spi.entries(),
            needle_v == (match needle {
                Some(n) => Some(n@),
                None => None::<Seq<char>>,
            }),
            rows@.map_values(|c: &Chip| *c) == spi_rows(cs@, needle_v, i as int),
        decreases cs@.len() - i,
    {
        let c = &cs[i];
        let keep = match needle {
            None => true,
            Some(n) => {
                let ln = lower_chars(c.name.as_str());
                let lj = lower_chars(c.jedec_id.as_str());
                contains_seq(ln.as_slice(), n.as_slice()) || contains_seq(lj.as_slice(), n.as_slice())
            },
        };
        if keep {
            rows.push(c);
        }
        assert(rows@.map_values(|c: &Chip| *c) =~= spi_rows(cs@, needle_v, i + 1));
        i = i + 1;
    }
    let ghost sel = spi_rows(cs@, needle_v, cs@.len() as int);
    push_line(&mut out, section_title("SPI flash", rows.len()));
    if rows.len() > 0 {
        let mut h = str_chars("  ");
        push_padded_str(&mut h, "NAME", 14);
        push_str(&mut h, " ");
        push_padded_str(&mut h, "JEDEC", 8);
        push_str(&mut h, " ");
        push_padded_str(&mut h, "SIZE", 10);
        push_str(&mut h, " ");
        push_padded_str(&mut h, "VOLT", 6);
        push_str(&mut h, " ");
        push_padded_str(&mut h, "PAGE", 7);
        push_str(&mut h, " ");
        push_padded_str(&mut h, "SECTOR", 7);
        push_str(&mut h, "  NOTES");
        push_line(&mut out, string_from_chars(h.as_slice()));
        let ghost head = crate::report::views(out@);
        let mut k: usize = 0;
        while k < rows.len()
            invariant
                k <= rows@.len(),
                rows@.map_values(|c: &Chip| *c) == sel,
                crate::report::views(out@) == head + sel.subrange(0, k as int).map_values(|c: Chip| spi_row_text(c)),
            decreases rows@.len() - k,
        {
            push_line(&mut out, spi_row_string(rows[k]));
            assert(sel.subrange(0, k + 1).map_values(|c: Chip| spi_row_text(c)) =~= sel.subrange(0, k as int).map_values(
                |c: Chip| spi_row_text(c),
            ).push(spi_row_text(sel[k as int])));
            k = k + 1;
        }
        assert(sel.subrange(0, rows@.len() as int) =~= sel);
    }
    assert(crate::report::views(out@) =~= spi_section(sel));
    out
}

/// The I²C section of the listing for `needle` (lower-cased).
fn i2c_section_lines(i2c: &I2cChipDb, needle: &Option<Vec<char>>) -> (out: Vec<String>)
    ensures
        crate::report::views(out@) == i2c_section(i2c_rows(i2c.entries(), match needle {
            Some(n) => Some(n@),
            None => None::<Seq<char>>,
        }, i2c.entries().len() as int)),
{
    let ghost needle_v = match needle {
        Some(n) => Some(n@),
        None => None::<Seq<char>>,
    };
    let mut out: Vec<String> = Vec::new();
    let cs = i2c.as_slice();
    let mut rows: Vec<&I2cChip> = Vec::new();
    let mut i: usize = 0;
    while i < cs.len()
        invariant
            i <= cs@.len(),
            cs@ == i2c.entries(),
            needle_v == (match needle {
                Some(n) => Some(n@),
                None => None::<Seq<char>>,
            }),
            rows@.map_values(|c: &I2cChip| *c) == i2c_rows(cs@, needle_v, i as int),
        decreases cs@.len() - i,
    {
        let c = &cs[i];
        let keep = match needle {
            None => true,
            Some(n) => {
                let ln = lower_chars(c.name.as_str());
                contains_seq(ln.as_slice(), n.as_slice())
            },
        };
        if keep {
            rows.push(c);
        }
        assert(rows@.map_values(|c: &I2cChip| *c) =~= i2c_rows(cs@, needle_v, i + 1));
        i = i + 1;
    }
    let ghost sel = i2c_rows(cs@, needle_v, cs@.len() as int);
    push_line(&mut out, section_title("I²C EEPROMs", rows.len()));
    if rows.len() > 0 {
        let mut h = str_chars("  ");
        push_padded_str(&mut h, "NAME", 10);
        push_str(&mut h, " ");
        push_padded_str(&mut h, "SIZE", 10);
        push_str(&mut h, " ");
        push_padded_str(&mut h, "VOLT", 9);
        push_str(&mut h, " ");
        push_padded_str(&mut h, "PAGE", 6);
        push_str(&mut h, " ");
        push_padded_str(&mut h, "ADDR", 6);
        push_line(&mut out, string_from_chars(h.as_slice()));
        let ghost head = crate::report::views(out@);
        let mut k: usize = 0;
        while k < rows.len()
            invariant
                k <= rows@.len(),
                rows@.map_values(|c: &I2cChip| *c) == sel,
                crate::report::views(out@) == head + sel.subrange(0, k as int).map_values(|c: I2cChip| i2c_row_text(c)),
            decreases rows@.len() - k,
        {
            push_line(&mut out, i2c_row_string(rows[k]));
            assert(sel.subrange(0, k + 1).map_values(|c: I2cChip| i2c_row_text(c)) =~= sel.subrange(0, k as int).map_values(
                |c: I2cChip| i2c_row_text(c),
            ).push(i2c_row_text(sel[k as int])));
            k = k + 1;
        }
        assert(sel.subrange(0, rows@.len() as int) =~= sel);
    }
    assert(crate::report::views(out@) =~= i2c_section(sel));
    out
}

/// The chip-catalogue listing, one string per line: SPI parts (name,
/// JEDEC id, size, voltage, page, sector, notes) and I²C parts (name,
/// size, voltage, page, address width), optionally restricted to one bus
/// (`"spi"` / `"i2c"`) and to parts whose name (or, for SPI, JEDEC id)
/// contains `find`, ignoring ASCII case.
pub fn chip_listing(spi: &ChipDb, i2c: &I2cChipDb, bus: Option<&str>, find: Option<&str>) -> (r: Vec<String>)
    ensures
        crate::report::views(r@) == listing(
            spi.entries(),
            i2c.entries(),
            match bus {
                Some(b) => Some(b@),
                None => None,
            },
            match find {
                Some(f) => Some(lower_all(f@)),
                None => None,
            },
        ),
{
    let ghost bus_v = match bus {
        Some(b) => Some(b@),
        None => None::<Seq<char>>,
    };
    let needle: Option<Vec<char>> = match find {
        Some(f) => Some(lower_chars(f)),
        None => None,
    };
    let want_spi = match bus {
        None => true,
        Some(b) => crate::text::str_eq(b, "spi"),
    };
    let want_i2c = match bus {
        None => true,
        Some(b) => crate::text::str_eq(b, "i2c"),
    };
    let mut out: Vec<String> = Vec::new();
    if want_spi {
        out = spi_section_lines(spi, &needle);
    }
    let ghost a = crate::report::views(out@);
    if want_spi && want_i2c {
        push_line(&mut out, String::from_str(""));
    }
    let ghost b = crate::report::views(out@);
    if want_i2c {
        let tail = i2c_section_lines(i2c, &needle);
        let mut j: usize = 0;
        while j < tail.len()
            invariant
                j <= tail@.len(),
                crate::report::views(out@) == b + crate::report::views(tail@).subrange(0, j as int),
            decreases tail@.len() - j,
        {
            push_line(&mut out, tail[j].clone());
            assert(crate::report::views(tail@).subrange(0, j + 1) =~= crate::report::views(tail@).subrange(0, j as int).push(tail@[j as int]@));
            j = j + 1;
        }
        assert(crate::report::views(tail@).subrange(0, tail@.len() as int) =~= crate::report::views(tail@));
    }
    assert(crate::report::views(out@) =~= listing(spi.entries(), i2c.entries(), bus_v, match needle {
        Some(n) => Some(n@),
        None => None::<Seq<char>>,
    }));
    out
}

// ---------------------------------------------------------------
// Search hits
// ---------------------------------------------------------------

/// First byte shown for a hit: `context` bytes before it, not below 0.
pub open spec fn hit_start(offset: int, context: int) -> int {
    if offset < context {
        0
    } else {
        offset - context
    }
}

/// One past the last byte shown: `context` bytes after the match, not
/// past the data.
pub open spec fn hit_end(n: int, offset: int, len: int, context: int) -> int {
    if offset + len + context < n {
        offset + len + context
    } else {
        n
    }
}

/// The hex cells of bytes `start .. start + k`, each followed by a space:
/// upper-case inside the match, lower-case around it.
pub open spec fn hit_cells(b: Seq<u8>, start: int, k: int, offset: int, len: int) -> Seq<char>
    decreases k,
{
    if k <= 0 {
        Seq::empty()
    } else {
        let i = start + k - 1;
        hit_cells(b, start, k - 1, offset, len) + hex(b[i] as nat, 2, offset <= i < offset + len) + " "@
    }
}

/// The ASCII gutter of bytes `start .. start + k`: printable bytes as
/// themselves, others as `.`.
pub open spec fn hit_ascii(b: Seq<u8>, start: int, k: int) -> Seq<char>
    decreases k,
{
    if k <= 0 {
        Seq::empty()
    } else {
        let x = b[start + k - 1];
        hit_ascii(b, start, k - 1).push(if crate::inspect::printable(x) { (x as u32) as char } else { '.' })
    }
}

/// The `xxd`-style line for a search hit of `len` bytes at `offset`,
/// with `context` bytes around it: the offset, the hex bytes (match in
/// upper case), and the ASCII gutter between bars.
pub open spec fn hit_line(b: Seq<u8>, offset: int, len: int, context: int) -> Seq<char> {
    let st = hit_start(offset, context);
    let k = hit_end(b.len() as int, offset, len, context) - st;
    let cells = hit_cells(b, st, k, offset, len);
    "  0x"@ + hex(offset as nat, 8, true) + "  "@ + (if cells.len() > 0 { cells.drop_last() } else { cells }) + "  |"@
        + hit_ascii(b, st, k) + "|"@
}

/// Render one search hit `xxd`-style: offset, hex bytes with the match
/// in upper case, and an ASCII gutter, `context` bytes on either side.
pub fn search_hit_line(bytes: &[u8], offset: usize, len: usize, context: usize) -> (r: String)
    requires
        offset + len + context <= usize::MAX,
        hit_start(offset as int, context as int) <= bytes@.len(),
    ensures
        r@ == hit_line(bytes@, offset as int, len as int, context as int),
{
    let start: usize = if offset < context { 0 } else { offset - context };
    let end: usize = if offset + len + context < bytes.len() { offset + len + context } else { bytes.len() };
    let mut cells: Vec<char> = Vec::new();
    let mut asc: Vec<char> = Vec::new();
    let mut i: usize = start;
    proof {
        reveal_strlit(" ");
    }
    while i < end
        invariant
            start <= i <= end,
            end <= bytes@.len(),
            offset + len + context <= usize::MAX,
            cells@ == hit_cells(bytes@, start as int, i - start, offset as int, len as int),
            asc@ == hit_ascii(bytes@, start as int, i - start),
        decreases end - i,
    {
        let b = bytes[i];
        let in_match = i >= offset && i < offset + len;
        push_hex(&mut cells, b as u64, 2, in_match);
        cells.push(' ');
        if b >= 0x20 && b <= 0x7E {
            asc.push(crate::text::char_from_ascii(b));
        } else {
            asc.push('.');
        }
        proof {
            reveal_strlit(" ");
            assert(cells@ =~= hit_cells(bytes@, start as int, i + 1 - start, offset as int, len as int));
            assert(asc@ =~= hit_ascii(bytes@, start as int, i + 1 - start));
        }
        i = i + 1;
    }
    if cells.len() > 0 {
        cells.pop();
    }
    let mut v = str_chars("  0x");
    push_hex(&mut v, offset as u64, 8, true);
    push_str(&mut v, "  ");
    crate::text::push_chars(&mut v, cells.as_slice());
    push_str(&mut v, "  |");
    crate::text::push_chars(&mut v, asc.as_slice());
    push_str(&mut v, "|");
    string_from_chars(v.as_slice())
}

} // verus!
