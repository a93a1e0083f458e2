//! Intel Flash Descriptor (IFD) parser: the structure at the start of
//! an Intel-chipset SPI flash that carves the chip into named regions
//! (Descriptor / BIOS / ME / GbE / …) and encodes per-master write
//! access. It parses the image bytes only.
//!
//! Layout: FLVALSIG (`0x0FF0A55A`) at offset 0x10, then FLMAP0/FLMAP1
//! give the bases of the component (FCBA), region (FRBA) and master
//! (FMBA) tables. Master write masks use the classic 8-bit-per-region
//! layout.
use crate::sfdp::{dword, le32_at};
use vstd::prelude::*;

verus! {

/// Descriptor validity signature, little-endian at offset 0x10.
pub const FLVALSIG: u32 = 0x0FF0_A55A;
/// Offset of the signature.
pub const SIG_OFFSET: usize = 0x10;
/// The descriptor occupies the first 4 KiB.
pub const DESC_LEN: usize = 0x1000;

/// Name of region slot `i`.
pub open spec fn region_name_of(i: int) -> Seq<char> {
    if i == 0 { "Flash Descriptor"@ } else if i == 1 { "BIOS"@ } else if i == 2 { "Intel ME"@ }
    else if i == 3 { "GbE"@ } else if i == 4 { "Platform Data"@ } else if i == 5 { "Region 5"@ }
    else if i == 6 { "Region 6"@ } else { "EC"@ }
}

/// Name of master slot `i`.
pub open spec fn master_name_of(i: int) -> Seq<char> {
    if i == 0 { "BIOS"@ } else if i == 1 { "Intel ME"@ } else if i == 2 { "GbE"@ } else if i == 3 { "EC"@ }
    else { "Master 5"@ }
}

fn region_name(i: usize) -> (r: &'static str)
    ensures
        r@ == region_name_of(i as int),
{
    if i == 0 { "Flash Descriptor" } else if i == 1 { "BIOS" } else if i == 2 { "Intel ME" }
    else if i == 3 { "GbE" } else if i == 4 { "Platform Data" } else if i == 5 { "Region 5" }
    else if i == 6 { "Region 6" } else { "EC" }
}

fn master_name(i: usize) -> (r: &'static str)
    ensures
        r@ == master_name_of(i as int),
{
    if i == 0 { "BIOS" } else if i == 1 { "Intel ME" } else if i == 2 { "GbE" } else if i == 3 { "EC" }
    else { "Master 5" }
}

/// A present flash region: `base..=limit` (inclusive last byte).
pub struct Region {
    pub index: usize,
    pub name: &'static str,
    pub base: u32,
    pub limit: u32,
}

impl Region {
    /// Region size in bytes, `limit - base + 1`.
    pub fn size(&self) -> (r: u32)
        requires
            self.base <= self.limit,
            self.limit - self.base < u32::MAX,
        ensures
            r == self.limit - self.base + 1,
    {
        self.limit - self.base + 1
    }
}

/// One flash master and the regions it may write (bit N = region N).
pub struct Master {
    pub name: &'static str,
    pub write: u8,
}

/// A parsed descriptor.
pub struct Ifd {
    /// Regions actually present (absent / empty slots dropped).
    pub regions: Vec<Region>,
    pub masters: Vec<Master>,
    /// Capacity of component 0, from its density code.
    pub density_bytes: Option<u64>,
    pub components: u8,
}

impl Ifd {
    /// May the host/BIOS master (the first master) write region `index`?
    pub fn bios_can_write(&self, index: usize) -> (r: bool)
        requires
            index < 8,
        ensures
            r == (self.masters@.len() > 0 && (self.masters@[0].write >> (index as u8)) & 1u8 == 1u8),
    {
        if self.masters.len() == 0 {
            return false;
        }
        let w = self.masters[0].write;
        let sh: u8 = index as u8;
        let r = w & (1u8 << sh) != 0;
        assert(sh < 8 ==> ((w & (1u8 << sh) != 0) == ((w >> sh) & 1u8 == 1u8))) by (bit_vector);
        r
    }
}

/// The region slot `i` of the table at `frba`: `(index, base, limit)`
/// when present, `None` when absent (all-ones) or empty (limit < base).
pub open spec fn region_slot(reg: u32, i: int) -> Option<(int, u32, u32)> {
    let base_f = reg & 0x7FFFu32;
    let limit_f = (reg >> 16u32) & 0x7FFFu32;
    if reg == 0xFFFF_FFFFu32 || limit_f < base_f {
        None
    } else {
        Some((i, base_f << 12u32, (limit_f << 12u32) | 0xFFFu32))
    }
}

/// Present regions among slots `i .. nr` of the table at `frba`; the
/// walk stops at the first slot outside the image.
pub open spec fn regions_from(d: Seq<u8>, frba: int, nr: int, i: int) -> Seq<(int, u32, u32)>
    decreases nr - i,
{
    if i >= nr {
        Seq::empty()
    } else {
        match dword(d, frba + 4 * i) {
            None => Seq::empty(),
            Some(reg) => match region_slot(reg, i) {
                None => regions_from(d, frba, nr, i + 1),
                Some(t) => seq![t] + regions_from(d, frba, nr, i + 1),
            },
        }
    }
}

/// Master write masks for slots `i .. nm` of the table at `fmba`; the
/// walk stops at the first slot outside the image.
pub open spec fn masters_from(d: Seq<u8>, fmba: int, nm: int, i: int) -> Seq<u8>
    decreases nm - i,
{
    if i >= nm {
        Seq::empty()
    } else {
        match dword(d, fmba + 4 * i) {
            None => Seq::empty(),
            Some(m) => seq![((m >> 24u32) & 0xFFu32) as u8] + masters_from(d, fmba, nm, i + 1),
        }
    }
}

/// Component density code → bytes: 512 KiB doubling per step, codes 0..7.
pub open spec fn density_of(code: u8) -> Option<u64> {
    if code <= 7 { Some(((512 * 1024) as u64) << code as u64) } else { None }
}

/// The image starts with a descriptor: it is at least 4 KiB and holds
/// the signature at 0x10.
pub open spec fn has_descriptor(d: Seq<u8>) -> bool {
    d.len() >= DESC_LEN && le32_at(d, SIG_OFFSET as int) == FLVALSIG
}

/// FLMAP0 and FLMAP1.
pub open spec fn flmap0(d: Seq<u8>) -> u32 { le32_at(d, 0x14) }
pub open spec fn flmap1(d: Seq<u8>) -> u32 { le32_at(d, 0x18) }
/// Region table base.
pub open spec fn frba_of(d: Seq<u8>) -> int { (((flmap0(d) >> 16u32) & 0xFFu32) << 4u32) as int }
/// Region count.
pub open spec fn nr_of(d: Seq<u8>) -> int { (((flmap0(d) >> 24u32) & 7u32) + 1) as int }
/// Master table base.
pub open spec fn fmba_of(d: Seq<u8>) -> int { ((flmap1(d) & 0xFFu32) << 4u32) as int }
/// Master count.
pub open spec fn nm_of(d: Seq<u8>) -> int { (((flmap1(d) >> 8u32) & 3u32) + 1) as int }
/// Component table base.
pub open spec fn fcba_of(d: Seq<u8>) -> int { ((flmap0(d) & 0xFFu32) << 4u32) as int }

/// Parse the descriptor at the start of `image`. `None` when the
/// signature is absent (not an Intel-descriptor flash).
pub fn parse(image: &[u8]) -> (r: Option<Ifd>)
    ensures
        r is Some <==> has_descriptor(image@),
        (match r {
            Some(ifd) => {
                let d = image@;
                let rs = regions_from(d, frba_of(d), nr_of(d), 0);
                let ms = masters_from(d, fmba_of(d), nm_of(d), 0);
                &&& ifd.regions@.len() == rs.len()
                &&& forall|k: int| 0 <= k < rs.len() ==> {
                    &&& (#[trigger] ifd.regions@[k]).index == rs[k].0
                    &&& ifd.regions@[k].base == rs[k].1
                    &&& ifd.regions@[k].limit == rs[k].2
                    &&& ifd.regions@[k].name@ == region_name_of(rs[k].0)
                }
                &&& ifd.masters@.len() == ms.len()
                &&& forall|k: int| 0 <= k < ms.len() ==> {
                    &&& (#[trigger] ifd.masters@[k]).write == ms[k]
                    &&& ifd.masters@[k].name@ == master_name_of(k)
                }
                &&& ifd.components == ((flmap0(d) >> 8u32) & 3u32) + 1
                &&& ifd.density_bytes == (match dword(d, fcba_of(d)) {
                    Some(flcomp) => density_of((flcomp & 7u32) as u8),
                    None => None,
                })
            },
            None => true,
        }),
{
    if image.len() < DESC_LEN {
        return None;
    }
    let sig = u32le(image, SIG_OFFSET)?;
    if sig != FLVALSIG {
        return None;
    }
    let flmap0 = u32le(image, 0x14)?;
    let flmap1 = u32le(image, 0x18)?;
    proof {
        assert((((flmap0 >> 16u32) & 0xFFu32) << 4u32) <= 0xFF0u32) by (bit_vector);
        assert(((flmap1 & 0xFFu32) << 4u32) <= 0xFF0u32) by (bit_vector);
        assert(((flmap0 & 0xFFu32) << 4u32) <= 0xFF0u32) by (bit_vector);
        assert(((flmap0 >> 24u32) & 7u32) <= 7) by (bit_vector);
        assert(((flmap1 >> 8u32) & 3u32) <= 3) by (bit_vector);
        assert(((flmap0 >> 8u32) & 3u32) <= 3) by (bit_vector);
    }
    let fcba: usize = ((flmap0 & 0xff) << 4) as usize;
    let components: u8 = (((flmap0 >> 8) & 0x3) + 1) as u8;
    let frba: usize = (((flmap0 >> 16) & 0xff) << 4) as usize;
    let nr: usize = (((flmap0 >> 24) & 0x7) + 1) as usize;
    let nm: usize = (((flmap1 >> 8) & 0x3) + 1) as usize;
    let fmba: usize = ((flmap1 & 0xff) << 4) as usize;

    let ghost d = image@;
    let mut regions: Vec<Region> = Vec::new();
    let mut i: usize = 0;
    let ghost rs = regions_from(d, frba as int, nr as int, 0);
    let ghost mut done: Seq<(int, u32, u32)> = Seq::empty();
    assert(rs =~= done + regions_from(d, frba as int, nr as int, 0));
    while i < nr
        invariant_except_break
            i <= nr,
            nr <= 8,
            frba <= 0xFF0,
            d == image@,
            rs == regions_from(d, frba as int, nr as int, 0),
            rs == done + regions_from(d, frba as int, nr as int, i as int),
            regions@.len() == done.len(),
            forall|k: int| 0 <= k < done.len() ==> {
                &&& (#[trigger] regions@[k]).index == done[k].0
                &&& regions@[k].base == done[k].1
                &&& regions@[k].limit == done[k].2
                &&& regions@[k].name@ == region_name_of(done[k].0)
            },
        ensures
            regions@.len() == rs.len(),
            forall|k: int| 0 <= k < rs.len() ==> {
                &&& (#[trigger] regions@[k]).index == rs[k].0
                &&& regions@[k].base == rs[k].1
                &&& regions@[k].limit == rs[k].2
                &&& regions@[k].name@ == region_name_of(rs[k].0)
            },
        decreases nr - i,
    {
        let reg = match u32le(image, frba + i * 4) {
            Some(v) => v,
            None => {
                assert(regions_from(d, frba as int, nr as int, i as int) =~= Seq::empty());
                assert(rs =~= done);
                break;
            },
        };
        let base_f = reg & 0x7FFF;
        let limit_f = (reg >> 16) & 0x7FFF;
        if reg == 0xFFFF_FFFF || limit_f < base_f {
            i = i + 1;
        } else {
            regions.push(Region { index: i, name: region_name(i), base: base_f << 12, limit: (limit_f << 12) | 0xFFF });
            proof {
                let t = (i as int, base_f << 12u32, (limit_f << 12u32) | 0xFFFu32);
                let rest = regions_from(d, frba as int, nr as int, i + 1);
                assert(regions_from(d, frba as int, nr as int, i as int) == seq![t] + rest);
                assert(done + (seq![t] + rest) =~= done.push(t) + rest);
                done = done.push(t);
            }
            i = i + 1;
        }
        proof {
            if i == nr {
                assert(regions_from(d, frba as int, nr as int, i as int) =~= Seq::empty());
                assert(rs =~= done);
            }
        }
    }

    let mut masters: Vec<Master> = Vec::new();
    let mut j: usize = 0;
    let ghost ms = masters_from(d, fmba as int, nm as int, 0);
    let ghost mut mdone: Seq<u8> = Seq::empty();
    assert(ms =~= mdone + masters_from(d, fmba as int, nm as int, 0));
    while j < nm
        invariant_except_break
            j <= nm,
            nm <= 4,
            fmba <= 0xFF0,
            d == image@,
            masters@.len() == j,
            mdone.len() == j,
            ms == masters_from(d, fmba as int, nm as int, 0),
            ms == mdone + masters_from(d, fmba as int, nm as int, j as int),
            forall|k: int| 0 <= k < j ==> {
                &&& (#[trigger] masters@[k]).write == mdone[k]
                &&& masters@[k].name@ == master_name_of(k)
            },
        ensures
            masters@.len() == ms.len(),
            forall|k: int| 0 <= k < ms.len() ==> {
                &&& (#[trigger] masters@[k]).write == ms[k]
                &&& masters@[k].name@ == master_name_of(k)
            },
        decreases nm - j,
    {
        let m = match u32le(image, fmba + j * 4) {
            Some(v) => v,
            None => {
                assert(masters_from(d, fmba as int, nm as int, j as int) =~= Seq::empty());
                assert(ms =~= mdone);
                break;
            },
        };
        let w: u8 = ((m >> 24) & 0xff) as u8;
        masters.push(Master { name: master_name(j), write: w });
        proof {
            let rest = masters_from(d, fmba as int, nm as int, j + 1);
            assert(masters_from(d, fmba as int, nm as int, j as int) == seq![w] + rest);
            assert(mdone + (seq![w] + rest) =~= mdone.push(w) + rest);
            mdone = mdone.push(w);
        }
        j = j + 1;
        proof {
            if j == nm {
                assert(masters_from(d, fmba as int, nm as int, j as int) =~= Seq::empty());
                assert(ms =~= mdone);
            }
        }
    }

    let density_bytes = match u32le(image, fcba) {
        Some(flcomp) => density_to_bytes((flcomp & 0x7) as u8),
        None => None,
    };
    Some(Ifd { regions, masters, density_bytes, components })
}

/// Component density code → capacity in bytes (512 KiB doubling up),
/// `None` above 7.
pub fn density_to_bytes(code: u8) -> (r: Option<u64>)
    ensures
        r == density_of(code),
{
    if code <= 7 {
        Some((512 * 1024u64) << (code as u64))
    } else {
        None
    }
}

/// The little-endian u32 at `off`, if all four bytes are in `b`.
pub fn u32le(b: &[u8], off: usize) -> (r: Option<u32>)
    ensures
        r == dword(b@, off as int),
{
    if off > b.len() || b.len() - off < 4 {
        return None;
    }
    Some((b[off] as u32) | ((b[off + 1] as u32) << 8) | ((b[off + 2] as u32) << 16) | ((b[off + 3] as u32) << 24))
}

/// FLMAP0 read from its bytes: the region table sits at 16 times the
/// byte at 0x16, and the byte at 0x17 carries NR in its low three bits.
proof fn lemma_flmap0_fields(b0: u8, b1: u8, b2: u8, b3: u8, w: u32)
    by (bit_vector)
    requires
        w == (b0 as u32) | ((b1 as u32) << 8u32) | ((b2 as u32) << 16u32) | ((b3 as u32) << 24u32),
    ensures
        ((w >> 16u32) & 0xFFu32) << 4u32 == (b2 as u32) * 16u32,
        (w >> 24u32) & 7u32 == (b3 & 7u8) as u32,
{
}

/// Slot `i` of the walk from `j`, inside the image and present, is among
/// the regions the walk yields.
proof fn lemma_walk_reaches(d: Seq<u8>, frba: int, nr: int, j: int, i: int)
    requires
        0 <= frba,
        0 <= j <= i < nr,
        frba + 4 * i + 4 <= d.len(),
        region_slot(le32_at(d, frba + 4 * i), i) is Some,
    ensures
        regions_from(d, frba, nr, j).contains(region_slot(le32_at(d, frba + 4 * i), i)->0),
    decreases i - j,
{
    let t = region_slot(le32_at(d, frba + 4 * i), i)->0;
    let rest = regions_from(d, frba, nr, j + 1);
    if j == i {
        assert(regions_from(d, frba, nr, j) == seq![t] + rest);
        assert((seq![t] + rest)[0] == t);
    } else {
        lemma_walk_reaches(d, frba, nr, j + 1, i);
        let k = choose|k: int| 0 <= k < rest.len() && rest[k] == t;
        match region_slot(le32_at(d, frba + 4 * j), j) {
            None => {},
            Some(u) => {
                assert(regions_from(d, frba, nr, j) == seq![u] + rest);
                assert((seq![u] + rest)[k + 1] == t);
            },
        }
    }
}

/// The region walk covers NR + 1 slots, NR being FLMAP0 bits 24..26 (the
/// low three bits of the byte at 0x17), from the table at 16 times the
/// byte at 0x16: every slot `i <= NR` that lies inside the image and is
/// neither all-ones nor empty (limit field below base field) is reported
/// as region `i`, spanning `base << 12 ..= (limit << 12) | 0xFFF`.
pub proof fn lemma_region_walk_covers(d: Seq<u8>, i: int)
    requires
        has_descriptor(d),
        0 <= i <= (d[0x17] & 7u8),
        d[0x16] * 16 + 4 * i + 4 <= d.len(),
        le32_at(d, d[0x16] * 16 + 4 * i) != 0xFFFF_FFFFu32,
        (le32_at(d, d[0x16] * 16 + 4 * i) >> 16u32) & 0x7FFFu32 >= le32_at(d, d[0x16] * 16 + 4 * i) & 0x7FFFu32,
    ensures
        ({
            let reg = le32_at(d, d[0x16] * 16 + 4 * i);
            regions_from(d, frba_of(d), nr_of(d), 0).contains(
                (i, (reg & 0x7FFFu32) << 12u32, (((reg >> 16u32) & 0x7FFFu32) << 12u32) | 0xFFFu32),
            )
        }),
{
    lemma_flmap0_fields(d[0x14], d[0x15], d[0x16], d[0x17], flmap0(d));
    assert(frba_of(d) == d[0x16] * 16);
    assert(nr_of(d) == (d[0x17] & 7u8) + 1);
    lemma_walk_reaches(d, frba_of(d), nr_of(d), 0, i);
}

} // verus!
