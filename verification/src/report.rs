//! Plain-text reports of what the chip told us: the decoded status
//! registers and the SFDP / BFPT walk, as the command line prints them
//! and as the GUI copies them to the clipboard.
use crate::sfdp::{Addressing, Bfpt, ParameterHeader, Sfdp, BFPT_ID};
use crate::spi::StatusRegisters;
use crate::text::{dec, hex, hex_lower_bytes, push_dec, push_hex, push_hex_bytes, push_str, str_chars, string_from_chars};
use vstd::prelude::*;
use vstd::string::*;

verus! {

/// `"1"` or `"0"`.
pub open spec fn bitc(b: bool) -> Seq<char> {
    if b {
        "1"@
    } else {
        "0"@
    }
}

/// The eight binary digits of `v`, most significant first.
pub open spec fn bin8(v: u8) -> Seq<char> {
    Seq::new(8, |i: int| if (v >> ((7 - i) as u8)) & 1u8 == 1u8 { '1' } else { '0' })
}

/// `"<name> : 0x<hex>  (0b<binary>)"`.
pub open spec fn reg_line(name: Seq<char>, v: u8) -> Seq<char> {
    name + " : 0x"@ + hex(v as nat, 2, true) + "  (0b"@ + bin8(v) + ")"@
}

/// The decoded SR1 bits.
pub open spec fn sr1_decode(r: StatusRegisters) -> Seq<char> {
    "        WIP="@ + bitc(r.sr1 & 1u8 != 0) + " WEL="@ + bitc(r.sr1 & 2u8 != 0) + " BP="@ + dec(((r.sr1 >> 2u8) & 7u8) as nat)
        + " TB="@ + bitc(r.sr1 & 0x20u8 != 0) + " SEC/BP3="@ + bitc(r.sr1 & 0x40u8 != 0) + " SRP0="@ + bitc(
        r.sr1 & 0x80u8 != 0,
    )
}

/// The decoded SR2 bits.
pub open spec fn sr2_decode(r: StatusRegisters) -> Seq<char> {
    "        SRP1="@ + bitc(r.sr2 & 1u8 != 0) + " QE="@ + bitc(r.sr2 & 2u8 != 0) + " LB="@ + dec(((r.sr2 >> 3u8) & 7u8) as nat)
        + " CMP="@ + bitc(r.sr2 & 0x40u8 != 0) + " SUS="@ + bitc(r.sr2 & 0x80u8 != 0)
}

/// The decoded SR3 bits.
pub open spec fn sr3_decode(r: StatusRegisters) -> Seq<char> {
    "        ADP="@ + bitc(r.sr3 & 2u8 != 0) + " WPS="@ + bitc(r.sr3 & 4u8 != 0) + " DRV="@ + dec(((r.sr3 >> 5u8) & 3u8) as nat)
        + " HOLD/RST="@ + bitc(r.sr3 & 0x80u8 != 0)
}

/// The register lines: each register's raw value and decoded bits; a
/// register that answered 0xFF gets one line ending in `absent2` /
/// `absent3` instead.
pub open spec fn register_lines(r: StatusRegisters, absent2: Seq<char>, absent3: Seq<char>) -> Seq<Seq<char>> {
    seq![reg_line("SR1"@, r.sr1), sr1_decode(r)] + (if r.sr2 != 0xFFu8 {
        seq![reg_line("SR2"@, r.sr2), sr2_decode(r)]
    } else {
        seq!["SR2 : 0xFF    "@ + absent2]
    }) + (if r.sr3 != 0xFFu8 {
        seq![reg_line("SR3"@, r.sr3), sr3_decode(r)]
    } else {
        seq!["SR3 : 0xFF    "@ + absent3]
    })
}

/// The warning shown when SR1 has block-protect bits set.
pub open spec fn protect_note() -> Seq<Seq<char>> {
    seq![
        ""@,
        "note   : SR1 has block-protect bits set: writes and erases to the protected"@,
        "         range will silently fail. Clear BP[2:0] (and SEC/BP3 if set) via"@,
        "         WRSR before programming."@,
    ]
}

/// The status report the command line prints: the register lines, then
/// the block-protect warning when BP[2:0] or SEC/BP3 is set.
pub open spec fn status_report_spec(r: StatusRegisters) -> Seq<Seq<char>> {
    register_lines(
        r,
        "(chip didn't respond, likely doesn't implement SR2)"@,
        "(chip didn't respond, likely doesn't implement SR3)"@,
    ) + (if (r.sr1 >> 2u8) & 7u8 != 0 || r.sr1 & 0x40u8 != 0 {
        protect_note()
    } else {
        Seq::empty()
    })
}

/// The status report warns about block protection exactly when SR1
/// has a protect bit set: any of BP0..BP2 (bits 2..4) or SEC/BP3 (bit
/// 6). Then the register lines are followed by the warning; otherwise
/// they are the whole report.
pub proof fn lemma_protect_note(r: StatusRegisters)
    ensures
        (r.sr1 & 0x1Cu8 != 0 || r.sr1 & 0x40u8 != 0) ==> status_report_spec(r) == register_lines(
            r,
            "(chip didn't respond, likely doesn't implement SR2)"@,
            "(chip didn't respond, likely doesn't implement SR3)"@,
        ) + protect_note(),
        !(r.sr1 & 0x1Cu8 != 0 || r.sr1 & 0x40u8 != 0) ==> status_report_spec(r) == register_lines(
            r,
            "(chip didn't respond, likely doesn't implement SR2)"@,
            "(chip didn't respond, likely doesn't implement SR3)"@,
        ),
{
    let x = r.sr1;
    assert(((x >> 2u8) & 7u8 != 0) == (x & 0x1Cu8 != 0)) by (bit_vector);
    assert(register_lines(
        r,
        "(chip didn't respond, likely doesn't implement SR2)"@,
        "(chip didn't respond, likely doesn't implement SR3)"@,
    ) + Seq::<Seq<char>>::empty() =~= register_lines(
        r,
        "(chip didn't respond, likely doesn't implement SR2)"@,
        "(chip didn't respond, likely doesn't implement SR3)"@,
    ));
}

/// Lines joined, each followed by a newline.
pub open spec fn joined_lines(ls: Seq<Seq<char>>) -> Seq<char>
    decreases ls.len(),
{
    if ls.len() == 0 {
        Seq::empty()
    } else {
        joined_lines(ls.drop_last()) + ls.last() + "\n"@
    }
}

/// The views of a list of strings.
pub open spec fn views(v: Seq<String>) -> Seq<Seq<char>> {
    v.map_values(|s: String| s@)
}

/// Append the eight binary digits of `v`.
fn push_bin8(out: &mut Vec<char>, v: u8)
    ensures
        final(out)@ == old(out)@ + bin8(v),
{
    let ghost head = out@;
    let mut i: u8 = 0;
    while i < 8
        invariant
            i <= 8,
            out@ == head + bin8(v).subrange(0, i as int),
        decreases 8 - i,
    {
        let c = if (v >> (7 - i)) & 1 == 1 { '1' } else { '0' };
        out.push(c);
        assert(out@ =~= head + bin8(v).subrange(0, i + 1));
        i = i + 1;
    }
    assert(bin8(v).subrange(0, 8) =~= bin8(v));
}

/// Append one line to a list of lines.
pub(crate) fn push_line(v: &mut Vec<String>, s: String)
    ensures
        views(final(v)@) == views(old(v)@).push(s@),
{
    let ghost old_v = v@;
    v.push(s);
    assert(views(v@) =~= views(old_v).push(s@));
}

/// Append the decimal digits of a byte.
fn push_dec_u8(out: &mut Vec<char>, v: u8)
    ensures
        final(out)@ == old(out)@ + dec(v as nat),
{
    push_dec(out, v as u64);
}

/// Append `"1"` or `"0"`.
fn push_bit(out: &mut Vec<char>, b: bool)
    ensures
        final(out)@ == old(out)@ + bitc(b),
{
    if b {
        push_str(out, "1");
    } else {
        push_str(out, "0");
    }
}

/// One register line.
fn reg_line_string(name: &str, v: u8) -> (r: String)
    ensures
        r@ == reg_line(name@, v),
{
    let mut s = str_chars(name);
    push_str(&mut s, " : 0x");
    push_hex(&mut s, v as u64, 2, true);
    push_str(&mut s, "  (0b");
    push_bin8(&mut s, v);
    push_str(&mut s, ")");
    assert(s@ =~= reg_line(name@, v));
    string_from_chars(s.as_slice())
}

/// The register lines with the given wording for a silent SR2 / SR3.
fn register_lines_vec(r: StatusRegisters, absent2: &str, absent3: &str) -> (v: Vec<String>)
    ensures
        views(v@) == register_lines(r, absent2@, absent3@),
{
    let mut v: Vec<String> = Vec::new();
    push_line(&mut v, reg_line_string("SR1", r.sr1));
    let mut s = str_chars("        WIP=");
    push_bit(&mut s, r.wip());
    push_str(&mut s, " WEL=");
    push_bit(&mut s, r.wel());
    push_str(&mut s, " BP=");
    push_dec_u8(&mut s, r.bp());
    push_str(&mut s, " TB=");
    push_bit(&mut s, r.tb());
    push_str(&mut s, " SEC/BP3=");
    push_bit(&mut s, r.sec_or_bp3());
    push_str(&mut s, " SRP0=");
    push_bit(&mut s, r.srp0());
    assert(s@ =~= sr1_decode(r));
    push_line(&mut v, string_from_chars(s.as_slice()));
    let ghost mid = views(v@);
    if r.sr2_present() {
        push_line(&mut v, reg_line_string("SR2", r.sr2));
        let mut s = str_chars("        SRP1=");
        push_bit(&mut s, r.srp1());
        push_str(&mut s, " QE=");
        push_bit(&mut s, r.qe());
        push_str(&mut s, " LB=");
        push_dec_u8(&mut s, r.lb());
        push_str(&mut s, " CMP=");
        push_bit(&mut s, r.cmp());
        push_str(&mut s, " SUS=");
        push_bit(&mut s, r.sus());
        assert(s@ =~= sr2_decode(r));
        push_line(&mut v, string_from_chars(s.as_slice()));
    } else {
        let mut s = str_chars("SR2 : 0xFF    ");
        push_str(&mut s, absent2);
        push_line(&mut v, string_from_chars(s.as_slice()));
    }
    if r.sr3_present() {
        push_line(&mut v, reg_line_string("SR3", r.sr3));
        let mut s = str_chars("        ADP=");
        push_bit(&mut s, r.adp());
        push_str(&mut s, " WPS=");
        push_bit(&mut s, r.wps());
        push_str(&mut s, " DRV=");
        push_dec_u8(&mut s, r.drv());
        push_str(&mut s, " HOLD/RST=");
        push_bit(&mut s, r.hold_rst());
        assert(s@ =~= sr3_decode(r));
        push_line(&mut v, string_from_chars(s.as_slice()));
    } else {
        let mut s = str_chars("SR3 : 0xFF    ");
        push_str(&mut s, absent3);
        push_line(&mut v, string_from_chars(s.as_slice()));
    }
    assert(views(v@) =~= register_lines(r, absent2@, absent3@));
    v
}

/// The decoded status registers as the command line prints them, one
/// string per line.
pub fn status_report(r: &StatusRegisters) -> (v: Vec<String>)
    ensures
        views(v@) == status_report_spec(*r),
{
    let mut v = register_lines_vec(
        *r,
        "(chip didn't respond, likely doesn't implement SR2)",
        "(chip didn't respond, likely doesn't implement SR3)",
    );
    let ghost head = views(v@);
    if r.bp() != 0 || r.sec_or_bp3() {
        push_line(&mut v, String::from_str(""));
        push_line(&mut v, String::from_str("note   : SR1 has block-protect bits set: writes and erases to the protected"));
        push_line(&mut v, String::from_str("         range will silently fail. Clear BP[2:0] (and SEC/BP3 if set) via"));
        push_line(&mut v, String::from_str("         WRSR before programming."));
        proof {
            reveal_strlit("");
        }
        assert(views(v@) =~= head + protect_note());
    } else {
        assert(head + Seq::<Seq<char>>::empty() =~= head);
    }
    v
}

/// Join lines, each followed by a newline.
fn join_lines(v: &Vec<String>) -> (r: String)
    ensures
        r@ == joined_lines(views(v@)),
{
    let mut out: Vec<char> = Vec::new();
    let mut i: usize = 0;
    while i < v.len()
        invariant
            i <= v@.len(),
            out@ == joined_lines(views(v@).subrange(0, i as int)),
        decreases v@.len() - i,
    {
        push_str(&mut out, v[i].as_str());
        out.push('\n');
        proof {
            reveal_strlit("\n");
            assert(views(v@).subrange(0, i + 1).drop_last() =~= views(v@).subrange(0, i as int));
        }
        i = i + 1;
    }
    assert(views(v@).subrange(0, v@.len() as int) =~= views(v@));
    string_from_chars(out.as_slice())
}

/// The decoded status registers as clipboard text: the register lines,
/// each ending in a newline, with `(chip didn't respond)` for a silent
/// SR2 / SR3.
pub fn format_status_for_copy(r: &StatusRegisters) -> (s: String)
    ensures
        s@ == joined_lines(register_lines(*r, "(chip didn't respond)"@, "(chip didn't respond)"@)),
{
    let v = register_lines_vec(*r, "(chip didn't respond)", "(chip didn't respond)");
    join_lines(&v)
}

// ---------------------------------------------------------------
// SFDP
// ---------------------------------------------------------------

/// How a BFPT address mode reads.
pub open spec fn addressing_text(a: Addressing) -> Seq<char> {
    match a {
        Addressing::ThreeByteOnly => "3-byte only"@,
        Addressing::Either => "3- or 4-byte (default 3)"@,
        Addressing::FourByteOnly => "4-byte only"@,
        Addressing::Reserved => "reserved encoding"@,
    }
}

/// One parameter-header line.
pub open spec fn header_line(i: int, ph: ParameterHeader) -> Seq<char> {
    "  ["@ + dec(i as nat) + "] id=0x"@ + hex(ph.id as nat, 4, true) + " ("@ + (if ph.id == BFPT_ID {
        "JEDEC BFPT"@
    } else {
        "vendor"@
    }) + ") rev "@ + dec(ph.major_rev as nat) + "."@ + dec(ph.minor_rev as nat) + " len="@ + dec(ph.length_dwords as nat)
        + " dwords @ 0x"@ + hex(ph.ptr as nat, 6, true)
}

/// The parameter-header lines of the first `k` headers.
pub open spec fn header_lines(hs: Seq<ParameterHeader>, k: int) -> Seq<Seq<char>>
    decreases k,
{
    if k <= 0 {
        Seq::empty()
    } else {
        header_lines(hs, k - 1).push(header_line(k - 1, hs[k - 1]))
    }
}

/// The BFPT capacity line.
pub open spec fn size_line(b: Bfpt) -> Seq<char> {
    "  size      : "@ + dec(b.size_bytes as nat) + " bytes ("@ + dec((b.size_bytes / 1024) as nat) + " KB, "@ + dec(
        ((b.size_bytes * 8) / 1000000) as nat,
    ) + " Mbit)"@
}

/// The 4 KB erase line.
pub open spec fn erase4k_line(b: Bfpt) -> Seq<char> {
    if b.erase_4k_opcode != 0xFFu8 {
        "  4K erase  : opcode 0x"@ + hex(b.erase_4k_opcode as nat, 2, true)
    } else {
        "  4K erase  : not supported"@
    }
}

/// The advertised erase types among the first `k` slots, one line each,
/// `line` giving the text of slot `i`.
pub open spec fn erase_lines(b: Bfpt, k: int, cli: bool) -> Seq<Seq<char>>
    decreases k,
{
    if k <= 0 {
        Seq::empty()
    } else {
        let e = b.erase_types[k - 1];
        erase_lines(b, k - 1, cli) + if e.size_bytes == 0 {
            Seq::empty()
        } else if cli {
            seq![
                "    ["@ + dec((k - 1) as nat) + "] 0x"@ + hex(e.opcode as nat, 2, true) + "  "@ + dec(e.size_bytes as nat)
                    + " bytes ("@ + crate::ops::human_size_spec(e.size_bytes as nat) + ")"@,
            ]
        } else {
            seq![
                "    ["@ + dec((k - 1) as nat) + "] opcode 0x"@ + hex(e.opcode as nat, 2, true) + "  "@ + dec(
                    e.size_bytes as nat,
                ) + " bytes"@,
            ]
        }
    }
}

/// The BFPT body lines shared by both reports.
pub open spec fn bfpt_lines(b: Bfpt, cli: bool) -> Seq<Seq<char>> {
    let es = erase_lines(b, 4, cli);
    seq![size_line(b), "  page size : "@ + dec(b.page_size as nat) + " bytes"@, "  address   : "@ + addressing_text(b.addressing), erase4k_line(b), "  erase types:"@]
        + (if es.len() == 0 {
        seq!["    (none advertised)"@]
    } else {
        es
    })
}

/// The SFDP walk as the command line prints it. Without the magic: a
/// short explanation and the first (up to) 16 raw bytes in hex.
pub open spec fn sfdp_report_spec(raw: Seq<u8>, p: Sfdp) -> Seq<Seq<char>> {
    if !p.header.valid {
        seq![
            "SFDP     : (chip didn't return the 'SFDP' magic; this chip"@,
            "           probably predates JESD216, or is the rare modern"@,
            "           part that omits SFDP. First 16 bytes:)"@,
            "  "@ + hex_lower_bytes(raw.subrange(0, if raw.len() < 16 { raw.len() as int } else { 16 })),
        ]
    } else {
        seq![
            "SFDP     : rev "@ + dec(p.header.major_rev as nat) + "."@ + dec(p.header.minor_rev as nat) + ", "@ + dec(
                p.parameter_headers@.len(),
            ) + " parameter header(s)"@,
        ] + header_lines(p.parameter_headers@, p.parameter_headers@.len() as int) + match p.bfpt {
            None => seq![""@, "BFPT     : (not present or body outside the 256-byte read window)"@],
            Some(b) => seq![""@, "BFPT     :"@] + bfpt_lines(b, true),
        }
    }
}

/// The decoded SFDP as clipboard text.
pub open spec fn sfdp_copy_spec(p: Sfdp) -> Seq<char> {
    joined_lines(
        seq![
            "SFDP rev "@ + dec(p.header.major_rev as nat) + "."@ + dec(p.header.minor_rev as nat) + ", "@ + dec(
                p.parameter_headers@.len(),
            ) + " parameter header(s)"@,
        ] + header_lines(p.parameter_headers@, p.parameter_headers@.len() as int) + match p.bfpt {
            None => Seq::empty(),
            Some(b) => seq![""@, "BFPT:"@] + bfpt_lines(b, false),
        },
    )
}

/// A BFPT's capacity in bits fits 64 bits.
pub open spec fn bfpt_size_ok(p: Sfdp) -> bool {
    p.bfpt matches Some(b) ==> b.size_bytes <= u64::MAX / 8
}

/// Append the header line for header `i`.
fn header_line_string(i: usize, ph: &ParameterHeader) -> (r: String)
    ensures
        r@ == header_line(i as int, *ph),
{
    let mut s = str_chars("  [");
    push_dec(&mut s, i as u64);
    push_str(&mut s, "] id=0x");
    push_hex(&mut s, ph.id as u64, 4, true);
    push_str(&mut s, " (");
    if ph.id == BFPT_ID {
        push_str(&mut s, "JEDEC BFPT");
    } else {
        push_str(&mut s, "vendor");
    }
    push_str(&mut s, ") rev ");
    push_dec(&mut s, ph.major_rev as u64);
    push_str(&mut s, ".");
    push_dec(&mut s, ph.minor_rev as u64);
    push_str(&mut s, " len=");
    push_dec(&mut s, ph.length_dwords as u64);
    push_str(&mut s, " dwords @ 0x");
    push_hex(&mut s, ph.ptr as u64, 6, true);
    assert(s@ =~= header_line(i as int, *ph));
    string_from_chars(s.as_slice())
}

/// Append the header lines.
fn push_header_lines(v: &mut Vec<String>, hs: &Vec<ParameterHeader>)
    ensures
        views(final(v)@) == views(old(v)@) + header_lines(hs@, hs@.len() as int),
{
    let ghost head = views(v@);
    let mut i: usize = 0;
    while i < hs.len()
        invariant
            i <= hs@.len(),
            views(v@) == head + header_lines(hs@, i as int),
        decreases hs@.len() - i,
    {
        push_line(v, header_line_string(i, &hs[i]));
        assert(views(v@) =~= head + header_lines(hs@, i + 1));
        i = i + 1;
    }
}

/// Append the BFPT body lines.
fn push_bfpt_lines(v: &mut Vec<String>, b: &Bfpt, cli: bool)
    requires
        b.size_bytes <= u64::MAX / 8,
    ensures
        views(final(v)@) == views(old(v)@) + bfpt_lines(*b, cli),
{
    let ghost head = views(v@);
    let mut s = str_chars("  size      : ");
    push_dec(&mut s, b.size_bytes);
    push_str(&mut s, " bytes (");
    push_dec(&mut s, b.size_bytes / 1024);
    push_str(&mut s, " KB, ");
    push_dec(&mut s, b.size_bytes * 8 / 1000000);
    push_str(&mut s, " Mbit)");
    assert(s@ =~= size_line(*b));
    push_line(v, string_from_chars(s.as_slice()));
    let mut s = str_chars("  page size : ");
    push_dec(&mut s, b.page_size as u64);
    push_str(&mut s, " bytes");
    push_line(v, string_from_chars(s.as_slice()));
    let mut s = str_chars("  address   : ");
    match b.addressing {
        Addressing::ThreeByteOnly => push_str(&mut s, "3-byte only"),
        Addressing::Either => push_str(&mut s, "3- or 4-byte (default 3)"),
        Addressing::FourByteOnly => push_str(&mut s, "4-byte only"),
        Addressing::Reserved => push_str(&mut s, "reserved encoding"),
    }
    push_line(v, string_from_chars(s.as_slice()));
    if b.erase_4k_opcode != 0xFF {
        let mut s = str_chars("  4K erase  : opcode 0x");
        push_hex(&mut s, b.erase_4k_opcode as u64, 2, true);
        push_line(v, string_from_chars(s.as_slice()));
    } else {
        push_line(v, String::from_str("  4K erase  : not supported"));
    }
    push_line(v, String::from_str("  erase types:"));
    let ghost before = views(v@);
    assert(before =~= head + seq![size_line(*b), "  page size : "@ + dec(b.page_size as nat) + " bytes"@, "  address   : "@ + addressing_text(b.addressing), erase4k_line(*b), "  erase types:"@]);
    let mut i: usize = 0;
    let mut any = false;
    while i < 4
        invariant
            i <= 4,
            views(v@) == before + erase_lines(*b, i as int, cli),
            any == (erase_lines(*b, i as int, cli).len() > 0),
        decreases 4 - i,
    {
        let e = b.erase_types[i];
        if e.size_bytes != 0 {
            any = true;
            let mut s = str_chars("    [");
            push_dec(&mut s, i as u64);
            if cli {
                push_str(&mut s, "] 0x");
                push_hex(&mut s, e.opcode as u64, 2, true);
                push_str(&mut s, "  ");
                push_dec(&mut s, e.size_bytes as u64);
                push_str(&mut s, " bytes (");
                let hs = crate::ops::human_size(e.size_bytes as u64);
                push_str(&mut s, hs.as_str());
                push_str(&mut s, ")");
            } else {
                push_str(&mut s, "] opcode 0x");
                push_hex(&mut s, e.opcode as u64, 2, true);
                push_str(&mut s, "  ");
                push_dec(&mut s, e.size_bytes as u64);
                push_str(&mut s, " bytes");
            }
            push_line(v, string_from_chars(s.as_slice()));
        }
        assert(views(v@) =~= before + erase_lines(*b, i + 1, cli));
        i = i + 1;
    }
    if !any {
        push_line(v, String::from_str("    (none advertised)"));
    }
    assert(views(v@) =~= head + bfpt_lines(*b, cli));
}

/// The SFDP walk as the command line prints it, one string per line.
pub fn sfdp_report(raw: &[u8], parsed: &Sfdp) -> (v: Vec<String>)
    requires
        bfpt_size_ok(*parsed),
    ensures
        views(v@) == sfdp_report_spec(raw@, *parsed),
{
    let mut v: Vec<String> = Vec::new();
    if !parsed.header.valid {
        push_line(&mut v, String::from_str("SFDP     : (chip didn't return the 'SFDP' magic; this chip"));
        push_line(&mut v, String::from_str("           probably predates JESD216, or is the rare modern"));
        push_line(&mut v, String::from_str("           part that omits SFDP. First 16 bytes:)"));
        let n: usize = if raw.len() < 16 { raw.len() } else { 16 };
        let mut s = str_chars("  ");
        push_hex_bytes(&mut s, vstd::slice::slice_subrange(raw, 0, n));
        push_line(&mut v, string_from_chars(s.as_slice()));
        assert(views(v@) =~= sfdp_report_spec(raw@, *parsed));
        return v;
    }
    let mut s = str_chars("SFDP     : rev ");
    push_dec(&mut s, parsed.header.major_rev as u64);
    push_str(&mut s, ".");
    push_dec(&mut s, parsed.header.minor_rev as u64);
    push_str(&mut s, ", ");
    push_dec(&mut s, parsed.parameter_headers.len() as u64);
    push_str(&mut s, " parameter header(s)");
    push_line(&mut v, string_from_chars(s.as_slice()));
    push_header_lines(&mut v, &parsed.parameter_headers);
    let ghost mid = views(v@);
    match &parsed.bfpt {
        None => {
            push_line(&mut v, String::from_str(""));
            push_line(&mut v, String::from_str("BFPT     : (not present or body outside the 256-byte read window)"));
            proof {
                reveal_strlit("");
            }
            assert(views(v@) =~= mid + seq![""@, "BFPT     : (not present or body outside the 256-byte read window)"@]);
        },
        Some(b) => {
            push_line(&mut v, String::from_str(""));
            push_line(&mut v, String::from_str("BFPT     :"));
            proof {
                reveal_strlit("");
            }
            let ghost mid2 = views(v@);
            assert(mid2 =~= mid + seq![""@, "BFPT     :"@]);
            push_bfpt_lines(&mut v, b, true);
            assert(views(v@) =~= mid + (seq![""@, "BFPT     :"@] + bfpt_lines(*b, true)));
        },
    }
    v
}

/// The decoded SFDP as clipboard text.
pub fn format_sfdp_for_copy(parsed: &Sfdp) -> (r: String)
    requires
        bfpt_size_ok(*parsed),
    ensures
        r@ == sfdp_copy_spec(*parsed),
{
    let mut v: Vec<String> = Vec::new();
    let mut s = str_chars("SFDP rev ");
    push_dec(&mut s, parsed.header.major_rev as u64);
    push_str(&mut s, ".");
    push_dec(&mut s, parsed.header.minor_rev as u64);
    push_str(&mut s, ", ");
    push_dec(&mut s, parsed.parameter_headers.len() as u64);
    push_str(&mut s, " parameter header(s)");
    push_line(&mut v, string_from_chars(s.as_slice()));
    push_header_lines(&mut v, &parsed.parameter_headers);
    let ghost mid = views(v@);
    match &parsed.bfpt {
        None => {
            assert(views(v@) =~= mid + Seq::<Seq<char>>::empty());
        },
        Some(b) => {
            push_line(&mut v, String::from_str(""));
            push_line(&mut v, String::from_str("BFPT:"));
            proof {
                reveal_strlit("");
            }
            assert(views(v@) =~= mid + seq![""@, "BFPT:"@]);
            push_bfpt_lines(&mut v, b, false);
            assert(views(v@) =~= mid + (seq![""@, "BFPT:"@] + bfpt_lines(*b, false)));
        },
    }
    assert(views(v@) =~= seq![
        "SFDP rev "@ + dec(parsed.header.major_rev as nat) + "."@ + dec(parsed.header.minor_rev as nat) + ", "@ + dec(
            parsed.parameter_headers@.len(),
        ) + " parameter header(s)"@,
    ] + header_lines(parsed.parameter_headers@, parsed.parameter_headers@.len() as int) + match parsed.bfpt {
        None => Seq::empty(),
        Some(b) => seq![""@, "BFPT:"@] + bfpt_lines(b, false),
    });
    join_lines(&v)
}

} // verus!
