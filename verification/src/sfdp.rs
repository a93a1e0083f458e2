//! Serial Flash Discoverable Parameters (JESD216) parser.
//!
//! Wire layout of the SFDP address space:
//!
//!   offset 0x00 : SFDP Header                  (8 bytes)
//!   offset 0x08 : 1st Parameter Header         (8 bytes)
//!   offset 0x10 : 2nd Parameter Header         (8 bytes) if NPH ≥ 1
//!   ...
//!   <BFPT pointer> : BFPT body                 (≥ 9 DWORDs)
//!
//! The JEDEC Basic Flash Parameter Table (BFPT) is decoded; vendor
//! tables are listed by the header walk only.
use vstd::prelude::*;

verus! {

/// Top-level SFDP header at offset 0x00.
#[derive(Debug, Clone, Copy)]
pub struct Header {
    /// Bytes 0..4 spell "SFDP".
    pub valid: bool,
    pub minor_rev: u8,
    pub major_rev: u8,
    /// Number of parameter headers minus one.
    pub nph: u8,
}

/// One 8-byte parameter header announcing a table.
#[derive(Debug, Clone, Copy)]
pub struct ParameterHeader {
    /// `(msb << 8) | lsb`; the BFPT is 0xFF00.
    pub id: u16,
    pub minor_rev: u8,
    pub major_rev: u8,
    /// Table body length in DWORDs.
    pub length_dwords: u8,
    /// 24-bit offset of the table body.
    pub ptr: u32,
}

/// JEDEC Basic Flash Parameter Table identifier.
pub const BFPT_ID: u16 = 0xFF00;

/// Address-width capability from BFPT DWORD 1.
#[derive(Debug, Clone, Copy, PartialEq, Eq, Structural)]
pub enum Addressing {
    ThreeByteOnly,
    Either,
    FourByteOnly,
    Reserved,
}

/// One BFPT erase type; `size_bytes == 0` marks an unused slot.
#[derive(Debug, Clone, Copy)]
pub struct EraseType {
    pub size_bytes: u32,
    pub opcode: u8,
}

/// Decoded Basic Flash Parameter Table.
#[derive(Debug, Clone, Copy)]
pub struct Bfpt {
    /// Capacity in bytes, from DWORD 2.
    pub size_bytes: u64,
    /// Page size, `2^N` from DWORD 11 bits 0..3 (256 when DWORD 11 is absent).
    pub page_size: u32,
    pub addressing: Addressing,
    /// 4 KB sector-erase opcode (0xFF: not supported).
    pub erase_4k_opcode: u8,
    pub erase_types: [EraseType; 4],
}

/// Result of parsing an SFDP dump.
#[derive(Debug, Clone)]
pub struct Sfdp {
    pub header: Header,
    pub parameter_headers: Vec<ParameterHeader>,
    pub bfpt: Option<Bfpt>,
}

/// Little-endian 32-bit word at `o`.
pub open spec fn le32_at(d: Seq<u8>, o: int) -> u32 {
    (d[o] as u32) | ((d[o + 1] as u32) << 8u32) | ((d[o + 2] as u32) << 16u32) | ((d[o + 3] as u32) << 24u32)
}

/// The DWORD at byte offset `o`, if all four bytes are inside `d`.
pub open spec fn dword(d: Seq<u8>, o: int) -> Option<u32> {
    if 0 <= o && o + 4 <= d.len() {
        Some(le32_at(d, o))
    } else {
        None
    }
}

/// The header the dump starts with.
pub open spec fn header_of(d: Seq<u8>) -> Header {
    if d.len() < 8 {
        Header { valid: false, minor_rev: 0, major_rev: 0, nph: 0 }
    } else {
        Header {
            valid: d[0] == 0x53u8 && d[1] == 0x46u8 && d[2] == 0x44u8 && d[3] == 0x50u8,
            minor_rev: d[4],
            major_rev: d[5],
            nph: d[6],
        }
    }
}

/// The parameter header encoded by the 8 bytes at `o`.
pub open spec fn param_header_at(d: Seq<u8>, o: int) -> ParameterHeader {
    ParameterHeader {
        id: ((d[o + 7] as u16) << 8u16) | (d[o] as u16),
        minor_rev: d[o + 1],
        major_rev: d[o + 2],
        length_dwords: d[o + 3],
        ptr: (d[o + 4] as u32) | ((d[o + 5] as u32) << 8u32) | ((d[o + 6] as u32) << 16u32),
    }
}

/// How many parameter headers a valid dump yields: `nph + 1`, cut
/// short where the buffer ends.
pub open spec fn header_count(d: Seq<u8>) -> nat {
    let want = header_of(d).nph as nat + 1;
    let fit: nat = if d.len() >= 8 { ((d.len() - 8) / 8) as nat } else { 0 };
    if want <= fit { want } else { fit }
}

/// The parameter headers of a valid dump.
pub open spec fn headers_of(d: Seq<u8>) -> Seq<ParameterHeader> {
    Seq::new(header_count(d), |i: int| param_header_at(d, 8 + 8 * i))
}

/// The header announces a non-empty BFPT.
pub open spec fn is_bfpt_header(h: ParameterHeader) -> bool {
    h.id == BFPT_ID && h.length_dwords >= 1
}

/// Index of the first BFPT header at or after `i`.
pub open spec fn first_bfpt_from(hs: Seq<ParameterHeader>, i: nat) -> Option<nat>
    decreases hs.len() - i,
{
    if i >= hs.len() {
        None
    } else if is_bfpt_header(hs[i as int]) {
        Some(i)
    } else {
        first_bfpt_from(hs, i + 1)
    }
}

/// Address-width capability from DWORD 1.
pub open spec fn addressing_of(dw1: u32) -> Addressing {
    let v = (dw1 >> 17u32) & 3u32;
    if v == 0 {
        Addressing::ThreeByteOnly
    } else if v == 1 {
        Addressing::Either
    } else if v == 2 {
        Addressing::FourByteOnly
    } else {
        Addressing::Reserved
    }
}

/// The density encoding of DWORD 2 fits the 64-bit bit count: the
/// low form always does, the `2^N` form needs `N < 64`.
pub open spec fn density_fits(dw2: u32) -> bool {
    dw2 & 0x8000_0000u32 == 0 || (dw2 & 0x7FFF_FFFFu32) < 64
}

/// Capacity in bits from DWORD 2 (given [`density_fits`]).
pub open spec fn size_bits_of(dw2: u32) -> u64 {
    if dw2 & 0x8000_0000u32 == 0 {
        (dw2 as u64 + 1) as u64
    } else {
        1u64 << (dw2 & 0x7FFF_FFFFu32) as u64
    }
}

/// Erase-type slot `i` (0..4): DWORD 8 holds slots 0-1, DWORD 9 slots
/// 2-3, each a 16-bit `(size exponent, opcode)` half. A missing DWORD,
/// a zero half, or an exponent outside 1..31 leaves the slot unused.
pub open spec fn erase_slot(d: Seq<u8>, ptr: u32, i: int) -> EraseType {
    match dword(d, ptr + 28 + (i / 2) * 4) {
        None => EraseType { size_bytes: 0, opcode: 0 },
        Some(dw) => {
            let half = if i % 2 == 0 { dw & 0xFFFFu32 } else { (dw >> 16u32) & 0xFFFFu32 };
            let n = half & 0xFFu32;
            let op = ((half >> 8u32) & 0xFFu32) as u8;
            if 0 < n && n < 32 {
                EraseType { size_bytes: 1u32 << n, opcode: op }
            } else {
                EraseType { size_bytes: 0, opcode: 0 }
            }
        },
    }
}

/// Page size from DWORD 11 (256 when the DWORD is outside the dump).
pub open spec fn page_size_of(d: Seq<u8>, ptr: u32) -> u32 {
    match dword(d, ptr + 40) {
        Some(dw11) => 1u32 << (dw11 & 0xFu32),
        None => 256,
    }
}

/// The decoded BFPT whose body starts at `ptr`, if DWORDs 1 and 2 are
/// inside the dump.
pub open spec fn bfpt_at(d: Seq<u8>, ptr: u32) -> Option<Bfpt> {
    match (dword(d, ptr as int), dword(d, ptr + 4)) {
        (Some(dw1), Some(dw2)) => Some(
            Bfpt {
                size_bytes: size_bits_of(dw2) / 8,
                page_size: page_size_of(d, ptr),
                addressing: addressing_of(dw1),
                erase_4k_opcode: ((dw1 >> 8u32) & 0xFFu32) as u8,
                erase_types: [erase_slot(d, ptr, 0), erase_slot(d, ptr, 1), erase_slot(d, ptr, 2), erase_slot(d, ptr, 3)],
            },
        ),
        _ => None,
    }
}

/// The BFPT the dump announces: the first header with the BFPT id and a
/// non-zero length, decoded from where it points.
pub open spec fn bfpt_of(d: Seq<u8>) -> Option<Bfpt> {
    match first_bfpt_from(headers_of(d), 0) {
        Some(i) => bfpt_at(d, headers_of(d)[i as int].ptr),
        None => None,
    }
}

/// The dump can be parsed without overflow: where it announces a BFPT
/// whose DWORD 2 is in the dump, that DWORD's density fits 64 bits.
pub open spec fn parsable(d: Seq<u8>) -> bool {
    header_of(d).valid ==> match first_bfpt_from(headers_of(d), 0) {
        Some(i) => match dword(d, headers_of(d)[i as int].ptr + 4) {
            Some(dw2) => density_fits(dw2),
            None => true,
        },
        None => true,
    }
}

/// Parse a contiguous SFDP dump starting at SFDP offset 0. A dump
/// without the "SFDP" magic yields an invalid header and nothing else.
pub fn parse(data: &[u8]) -> (r: Sfdp)
    requires
        parsable(data@),
    ensures
        r.header == header_of(data@),
        r.header.valid ==> r.parameter_headers@ == headers_of(data@) && r.bfpt == bfpt_of(data@),
        !r.header.valid ==> r.parameter_headers@.len() == 0 && r.bfpt is None,
{
    let header = parse_header(data);
    if !header.valid {
        return Sfdp { header, parameter_headers: Vec::new(), bfpt: None };
    }
    let count: usize = header.nph as usize + 1;
    assert(data@.len() >= 8);
    let mut headers: Vec<ParameterHeader> = Vec::new();
    let mut i: usize = 0;
    while i < count
        invariant_except_break
            count == header_of(data@).nph as nat + 1,
            i <= count,
            data@.len() >= 8,
            headers@.len() == i,
            forall|j: int| 0 <= j < i ==> #[trigger] headers@[j] == param_header_at(data@, 8 + 8 * j),
            forall|j: int| 0 <= j < i ==> (#[trigger] headers@[j]).ptr < 0x100_0000,
            8 + 8 * i <= data@.len(),
        ensures
            headers@ == headers_of(data@),
            forall|j: int| 0 <= j < headers@.len() ==> (#[trigger] headers@[j]).ptr < 0x100_0000,
        decreases count - i,
    {
        if data.len() - 8 - 8 * i < 8 {
            assert(headers@ =~= headers_of(data@));
            break;
        }
        let off = 8 + i * 8;
        headers.push(parse_parameter_header(data, off));
        i = i + 1;
        proof {
            if i == count {
                assert(headers@ =~= headers_of(data@));
            }
        }
    }
    let mut k: usize = 0;
    while k < headers.len()
        invariant
            header == header_of(data@),
            headers@ == headers_of(data@),
            forall|j: int| 0 <= j < headers@.len() ==> (#[trigger] headers@[j]).ptr < 0x100_0000,
            k <= headers@.len(),
            first_bfpt_from(headers@, 0) == first_bfpt_from(headers@, k as nat),
            parsable(data@),
            header_of(data@).valid,
        decreases headers@.len() - k,
    {
        let h = headers[k];
        if h.id == BFPT_ID && h.length_dwords >= 1 {
            assert(first_bfpt_from(headers@, k as nat) == Some(k as nat));
            let bfpt = parse_bfpt(data, h);
            return Sfdp { header, parameter_headers: headers, bfpt };
        }
        k = k + 1;
    }
    assert(first_bfpt_from(headers@, k as nat) is None);
    Sfdp { header, parameter_headers: headers, bfpt: None }
}

/// The SFDP header at the start of `data`.
fn parse_header(data: &[u8]) -> (r: Header)
    ensures
        r == header_of(data@),
{
    if data.len() < 8 {
        return Header { valid: false, minor_rev: 0, major_rev: 0, nph: 0 };
    }
    let valid = data[0] == 0x53 && data[1] == 0x46 && data[2] == 0x44 && data[3] == 0x50;
    Header { valid, minor_rev: data[4], major_rev: data[5], nph: data[6] }
}

/// The parameter header at byte offset `off`.
fn parse_parameter_header(data: &[u8], off: usize) -> (r: ParameterHeader)
    requires
        off + 8 <= data@.len(),
    ensures
        r == param_header_at(data@, off as int),
        r.ptr < 0x100_0000,
{
    let id_lsb = data[off];
    let id_msb = data[off + 7];
    let id = ((id_msb as u16) << 8) | (id_lsb as u16);
    let b4 = data[off + 4];
    let b5 = data[off + 5];
    let b6 = data[off + 6];
    let ptr = (b4 as u32) | ((b5 as u32) << 8) | ((b6 as u32) << 16);
    assert(((b4 as u32) | ((b5 as u32) << 8u32) | ((b6 as u32) << 16u32)) < 0x100_0000u32) by (bit_vector);
    ParameterHeader {
        id,
        minor_rev: data[off + 1],
        major_rev: data[off + 2],
        length_dwords: data[off + 3],
        ptr,
    }
}

/// The little-endian DWORD at `offset`, if it lies inside `data`.
pub fn dword_at(data: &[u8], offset: u32) -> (r: Option<u32>)
    ensures
        r == dword(data@, offset as int),
{
    let o = offset as usize;
    if o > data.len() || data.len() - o < 4 {
        return None;
    }
    Some((data[o] as u32) | ((data[o + 1] as u32) << 8) | ((data[o + 2] as u32) << 16) | ((data[o + 3] as u32) << 24))
}

/// Decode the BFPT announced by `header`.
fn parse_bfpt(data: &[u8], header: ParameterHeader) -> (r: Option<Bfpt>)
    requires
        header.ptr < 0x100_0000,
        match dword(data@, header.ptr + 4) {
            Some(dw2) => density_fits(dw2),
            None => true,
        },
    ensures
        r == bfpt_at(data@, header.ptr),
{
    let dw1 = match dword_at(data, header.ptr) {
        Some(v) => v,
        None => return None,
    };
    let dw2 = match dword_at(data, header.ptr + 4) {
        Some(v) => v,
        None => return None,
    };
    let erase_4k_opcode = ((dw1 >> 8) & 0xFF) as u8;
    let sel = (dw1 >> 17) & 0b11;
    let addressing = if sel == 0 {
        Addressing::ThreeByteOnly
    } else if sel == 1 {
        Addressing::Either
    } else if sel == 2 {
        Addressing::FourByteOnly
    } else {
        Addressing::Reserved
    };
    let size_bits: u64 = if dw2 & 0x8000_0000 == 0 {
        dw2 as u64 + 1
    } else {
        1u64 << ((dw2 & 0x7FFF_FFFF) as u64)
    };
    let size_bytes = size_bits / 8;
    let e0 = erase_slot_at(data, header.ptr, 0);
    let e1 = erase_slot_at(data, header.ptr, 1);
    let e2 = erase_slot_at(data, header.ptr, 2);
    let e3 = erase_slot_at(data, header.ptr, 3);
    let page_size = match dword_at(data, header.ptr + 40) {
        Some(dw11) => {
            assert(dw11 & 0xFu32 < 16) by (bit_vector);
            1u32 << (dw11 & 0xF)
        },
        None => 256,
    };
    let r = Bfpt { size_bytes, page_size, addressing, erase_4k_opcode, erase_types: [e0, e1, e2, e3] };
    assert(r == bfpt_at(data@, header.ptr).unwrap());
    Some(r)
}

/// Erase-type slot `i` of the BFPT at `ptr`.
fn erase_slot_at(data: &[u8], ptr: u32, i: u32) -> (r: EraseType)
    requires
        ptr < 0x100_0000,
        i < 4,
    ensures
        r == erase_slot(data@, ptr, i as int),
{
    let dw = match dword_at(data, ptr + 28 + (i / 2) * 4) {
        Some(v) => v,
        None => return EraseType { size_bytes: 0, opcode: 0 },
    };
    let half = if i % 2 == 0 { dw & 0xFFFF } else { (dw >> 16) & 0xFFFF };
    let n = half & 0xFF;
    let op = ((half >> 8) & 0xFF) as u8;
    if n > 0 && n < 32 {
        EraseType { size_bytes: 1u32 << n, opcode: op }
    } else {
        EraseType { size_bytes: 0, opcode: 0 }
    }
}

/// Whether [`parse`] can decode `data` (its announced BFPT density
/// fits 64 bits).
pub fn is_parsable(data: &[u8]) -> (r: bool)
    ensures
        r == parsable(data@),
{
    let header = parse_header(data);
    if !header.valid {
        return true;
    }
    let count: usize = header.nph as usize + 1;
    let mut i: usize = 0;
    while i < count
        invariant
            count == header_of(data@).nph as nat + 1,
            header_of(data@).valid,
            i <= count,
            data@.len() >= 8,
            i <= header_count(data@),
            forall|j: int| 0 <= j < i ==> !is_bfpt_header(#[trigger] headers_of(data@)[j]),
        decreases count - i,
    {
        if data.len() - 8 - 8 * i < 8 {
            proof {
                assert(i == header_count(data@));
                lemma_no_bfpt_before(headers_of(data@), i as nat);
            }
            return true;
        }
        let h = parse_parameter_header(data, 8 + i * 8);
        assert(h == headers_of(data@)[i as int]);
        assert forall|j: int| 0 <= j < i implies !is_bfpt_header(#[trigger] headers_of(data@)[j]) by {}
        if h.id == BFPT_ID && h.length_dwords >= 1 {
            proof { lemma_first_bfpt_is(headers_of(data@), i as nat); }
            return match dword_at(data, h.ptr + 4) {
                Some(dw2) => dw2 & 0x8000_0000 == 0 || (dw2 & 0x7FFF_FFFF) < 64,
                None => true,
            };
        }
        i = i + 1;
    }
    proof {
        assert(i == header_count(data@));
        lemma_no_bfpt_before(headers_of(data@), i as nat);
    }
    true
}

/// With no BFPT header among the first `n = hs.len()` headers, there is none.
proof fn lemma_no_bfpt_before(hs: Seq<ParameterHeader>, n: nat)
    requires
        n == hs.len(),
        forall|j: int| 0 <= j < n ==> !is_bfpt_header(#[trigger] hs[j]),
    ensures
        first_bfpt_from(hs, 0) is None,
{
    lemma_no_bfpt_from(hs, 0);
}

proof fn lemma_no_bfpt_from(hs: Seq<ParameterHeader>, i: nat)
    requires
        forall|j: int| 0 <= j < hs.len() ==> !is_bfpt_header(#[trigger] hs[j]),
    ensures
        first_bfpt_from(hs, i) is None,
    decreases hs.len() - i,
{
    if i < hs.len() {
        lemma_no_bfpt_from(hs, i + 1);
    }
}

/// The first BFPT header is at `i` when none precedes it.
proof fn lemma_first_bfpt_is(hs: Seq<ParameterHeader>, i: nat)
    requires
        i < hs.len(),
        is_bfpt_header(hs[i as int]),
        forall|j: int| 0 <= j < i ==> !is_bfpt_header(#[trigger] hs[j]),
    ensures
        first_bfpt_from(hs, 0) == Some(i),
{
    lemma_first_bfpt_from(hs, 0, i);
}

proof fn lemma_first_bfpt_from(hs: Seq<ParameterHeader>, k: nat, i: nat)
    requires
        k <= i < hs.len(),
        is_bfpt_header(hs[i as int]),
        forall|j: int| 0 <= j < i ==> !is_bfpt_header(#[trigger] hs[j]),
    ensures
        first_bfpt_from(hs, k) == Some(i),
    decreases i - k,
{
    if k < i {
        lemma_first_bfpt_from(hs, k + 1, i);
    }
}

/// The four bytes of a little-endian word, each read back from its lane.
proof fn lemma_le32_lanes(b0: u8, b1: u8, b2: u8, b3: u8, w: u32)
    by (bit_vector)
    requires
        w == (b0 as u32) | ((b1 as u32) << 8u32) | ((b2 as u32) << 16u32) | ((b3 as u32) << 24u32),
    ensures
        (w & 0xFFFFu32) & 0xFFu32 == b0 as u32,
        ((w & 0xFFFFu32) >> 8u32) & 0xFFu32 == b1 as u32,
        ((w >> 16u32) & 0xFFFFu32) & 0xFFu32 == b2 as u32,
        (((w >> 16u32) & 0xFFFFu32) >> 8u32) & 0xFFu32 == b3 as u32,
{
}

/// Where the BFPT's erase types come from: DWORDs 8 and 9, the eight
/// bytes at `ptr + 28 .. ptr + 36`, hold one byte pair per slot, slot
/// `i` at `ptr + 28 + 2 * i`. The pair's first byte is the size exponent
/// `N` and its second the erase opcode; a slot with `0 < N < 32` erases
/// `2^N` bytes, any other exponent leaves the slot unused (size and
/// opcode 0).
pub proof fn lemma_erase_types_from_bytes(d: Seq<u8>, ptr: u32, i: int)
    requires
        0 <= i < 4,
        ptr + 36 <= d.len(),
    ensures
        bfpt_at(d, ptr) is Some,
        ({
            let e = bfpt_at(d, ptr)->0.erase_types[i];
            let n = d[ptr + 28 + 2 * i];
            if 0 < n < 32 {
                e.size_bytes == vstd::arithmetic::power2::pow2(n as nat) && e.opcode == d[ptr + 29 + 2 * i]
            } else {
                e.size_bytes == 0 && e.opcode == 0
            }
        }),
{
    let o = ptr + 28 + 4 * (i / 2);
    lemma_le32_lanes(d[o], d[o + 1], d[o + 2], d[o + 3], le32_at(d, o));
    let e = erase_slot(d, ptr, i);
    let n = d[ptr + 28 + 2 * i];
    assert(dword(d, o) == Some(le32_at(d, o)));
    if 0 < n < 32 {
        vstd::bits::lemma_u32_pow2_no_overflow(n as nat);
        vstd::bits::lemma_u32_shl_is_mul(1u32, n as u32);
        assert(e.size_bytes == vstd::arithmetic::power2::pow2(n as nat));
    }
    let b = bfpt_at(d, ptr)->0;
    assert(b.erase_types[i] == e) by {
        if i == 0 {} else if i == 1 {} else if i == 2 {} else {}
    }
}

} // verus!
