//! Chip database: SPI NOR entries (looked up by JEDEC id or name) and
//! I²C EEPROM entries (looked up by name), plus the entry validation
//! that keeps the op layer away from zero sizes and unsupported
//! address widths.
use crate::text::{char_from_ascii, dec_string, eq_ignore_case, str_eq_ignore_case, to_upper, upper};
use vstd::prelude::*;
use vstd::string::*;

verus! {

/// One SPI NOR flash part.
#[derive(Debug, Clone)]
pub struct Chip {
    pub name: String,
    /// Six hex characters, uppercase, e.g. "EF4018".
    pub jedec_id: String,
    pub size_kb: u32,
    pub page_size: u32,
    pub sector_size: u32,
    pub erase_time_ms: u32,
    pub notes: String,
}

/// Two chip entries carry the same values.
pub open spec fn same_chip(a: Chip, b: Chip) -> bool {
    &&& a.name@ == b.name@
    &&& a.jedec_id@ == b.jedec_id@
    &&& a.size_kb == b.size_kb
    &&& a.page_size == b.page_size
    &&& a.sector_size == b.sector_size
    &&& a.erase_time_ms == b.erase_time_ms
    &&& a.notes@ == b.notes@
}

/// The JEDEC id starts (case-insensitively) with the four characters `p`.
pub open spec fn id_prefix_is(id: Seq<char>, p: Seq<char>) -> bool {
    &&& id.len() >= 4
    &&& p.len() == 4
    &&& forall|i: int| 0 <= i < 4 ==> upper(#[trigger] id[i]) == p[i]
}

/// Voltage class of a SPI part from its JEDEC manufacturer + memory-type
/// bytes: 1.8V for Winbond W25Q*JW (EF60), Macronix MX25U (C225),
/// GigaDevice GD25LQ (C860), Adesto AT25SL (1F42); 2.3V for Adesto
/// AT25DN512C (1F65); 3.3V otherwise.
pub open spec fn voltage_class(id: Seq<char>) -> nat {
    if id_prefix_is(id, seq!['E', 'F', '6', '0']) || id_prefix_is(id, seq!['C', '2', '2', '5'])
        || id_prefix_is(id, seq!['C', '8', '6', '0']) || id_prefix_is(id, seq!['1', 'F', '4', '2']) {
        18
    } else if id_prefix_is(id, seq!['1', 'F', '6', '5']) {
        23
    } else {
        33
    }
}

impl Chip {
    /// A field-by-field copy of this entry.
    pub fn clone_chip(&self) -> (r: Chip)
        ensures
            same_chip(r, *self),
    {
        Chip {
            name: self.name.clone(),
            jedec_id: self.jedec_id.clone(),
            size_kb: self.size_kb,
            page_size: self.page_size,
            sector_size: self.sector_size,
            erase_time_ms: self.erase_time_ms,
            notes: self.notes.clone(),
        }
    }

    /// Whether the JEDEC id starts with the four characters `p` (ASCII
    /// case-insensitive on the id side; `p` is upper-case).
    fn id_starts_with(&self, p: &[char; 4]) -> (r: bool)
        ensures
            r == id_prefix_is(self.jedec_id@, p@),
    {
        let s = self.jedec_id.as_str();
        if s.unicode_len() < 4 {
            return false;
        }
        let mut i: usize = 0;
        while i < 4
            invariant
                s@ == self.jedec_id@,
                s@.len() >= 4,
                p@.len() == 4,
                i <= 4,
                forall|j: int| 0 <= j < i ==> upper(#[trigger] s@[j]) == p@[j],
            decreases 4 - i,
        {
            if to_upper(s.get_char(i)) != p[i] {
                return false;
            }
            i = i + 1;
        }
        true
    }

    /// Operating-voltage class, derived from the JEDEC manufacturer +
    /// memory-type bytes: `"1.8V"`, `"2.3V"` or `"3.3V"`.
    pub fn voltage(&self) -> (r: &'static str)
        ensures
            voltage_class(self.jedec_id@) == 18 ==> r@ == "1.8V"@,
            voltage_class(self.jedec_id@) == 23 ==> r@ == "2.3V"@,
            voltage_class(self.jedec_id@) == 33 ==> r@ == "3.3V"@,
    {
        let ef60 = ['E', 'F', '6', '0'];
        let c225 = ['C', '2', '2', '5'];
        let c860 = ['C', '8', '6', '0'];
        let f142 = ['1', 'F', '4', '2'];
        let f165 = ['1', 'F', '6', '5'];
        assert(ef60@ =~= seq!['E', 'F', '6', '0']);
        assert(c225@ =~= seq!['C', '2', '2', '5']);
        assert(c860@ =~= seq!['C', '8', '6', '0']);
        assert(f142@ =~= seq!['1', 'F', '4', '2']);
        assert(f165@ =~= seq!['1', 'F', '6', '5']);
        if self.id_starts_with(&ef60) || self.id_starts_with(&c225) || self.id_starts_with(&c860)
            || self.id_starts_with(&f142) {
            "1.8V"
        } else if self.id_starts_with(&f165) {
            "2.3V"
        } else {
            "3.3V"
        }
    }
}

/// The SPI chip catalogue.
#[derive(Debug, Clone)]
pub struct ChipDb {
    chips: Vec<Chip>,
}

/// Index of the first chip whose JEDEC id equals `id` up to ASCII case.
pub open spec fn first_jedec_match(chips: Seq<Chip>, id: Seq<char>, i: int) -> bool {
    &&& 0 <= i < chips.len()
    &&& eq_ignore_case(chips[i].jedec_id@, id)
    &&& forall|j: int| 0 <= j < i ==> !eq_ignore_case(#[trigger] chips[j].jedec_id@, id)
}

/// Index of the first chip whose name equals `name` up to ASCII case.
pub open spec fn first_name_match(chips: Seq<Chip>, name: Seq<char>, i: int) -> bool {
    &&& 0 <= i < chips.len()
    &&& eq_ignore_case(chips[i].name@, name)
    &&& forall|j: int| 0 <= j < i ==> !eq_ignore_case(#[trigger] chips[j].name@, name)
}

/// The SPI entries hold no zero size, page or sector.
pub open spec fn chips_valid(chips: Seq<Chip>) -> bool {
    forall|i: int| 0 <= i < chips.len() ==> {
        &&& (#[trigger] chips[i]).size_kb != 0
        &&& chips[i].page_size != 0
        &&& chips[i].sector_size != 0
    }
}

impl ChipDb {
    /// The entries, in catalogue order.
    pub closed spec fn entries(&self) -> Seq<Chip> {
        self.chips@
    }

    /// The catalogue's entries satisfy [`chips_valid`].
    pub closed spec fn wf(&self) -> bool {
        chips_valid(self.chips@)
    }

    /// Build a catalogue from parsed entries, refusing one with a zero
    /// `size_kb`, `page_size` or `sector_size` (the message names the
    /// first such entry and field).
    pub fn from_chips(chips: Vec<Chip>) -> (r: std::result::Result<ChipDb, String>)
        ensures
            (match r {
                Ok(db) => db.entries() == chips@ && db.wf(),
                Err(_) => !chips_valid(chips@),
            }),
    {
        match validate_chips(chips.as_slice()) {
            Ok(()) => Ok(ChipDb { chips }),
            Err(e) => Err(e),
        }
    }

    /// The first entry whose JEDEC id matches `jedec_id` ignoring ASCII case.
    pub fn find_by_jedec(&self, jedec_id: &str) -> (r: Option<&Chip>)
        ensures
            (match r {
                Some(c) => exists|i: int| first_jedec_match(self.entries(), jedec_id@, i) && *c == self.entries()[i],
                None => forall|i: int| 0 <= i < self.entries().len() ==> !eq_ignore_case(#[trigger] self.entries()[i].jedec_id@, jedec_id@),
            }),
    {
        let mut i: usize = 0;
        while i < self.chips.len()
            invariant
                i <= self.chips@.len(),
                forall|j: int| 0 <= j < i ==> !eq_ignore_case(#[trigger] self.chips@[j].jedec_id@, jedec_id@),
            decreases self.chips@.len() - i,
        {
            if str_eq_ignore_case(self.chips[i].jedec_id.as_str(), jedec_id) {
                let c = &self.chips[i];
                assert(first_jedec_match(self.entries(), jedec_id@, i as int) && *c == self.entries()[i as int]);
                return Some(c);
            }
            i = i + 1;
        }
        None
    }

    /// The first entry whose name matches `name` ignoring ASCII case.
    pub fn find_by_name(&self, name: &str) -> (r: Option<&Chip>)
        ensures
            (match r {
                Some(c) => exists|i: int| first_name_match(self.entries(), name@, i) && *c == self.entries()[i],
                None => forall|i: int| 0 <= i < self.entries().len() ==> !eq_ignore_case(#[trigger] self.entries()[i].name@, name@),
            }),
    {
        let mut i: usize = 0;
        while i < self.chips.len()
            invariant
                i <= self.chips@.len(),
                forall|j: int| 0 <= j < i ==> !eq_ignore_case(#[trigger] self.chips@[j].name@, name@),
            decreases self.chips@.len() - i,
        {
            if str_eq_ignore_case(self.chips[i].name.as_str(), name) {
                let c = &self.chips[i];
                assert(first_name_match(self.entries(), name@, i as int) && *c == self.entries()[i as int]);
                return Some(c);
            }
            i = i + 1;
        }
        None
    }

    /// The entries, in catalogue order.
    pub fn iter(&self) -> (r: std::slice::Iter<'_, Chip>)
        ensures
            vstd::std_specs::slice::into_iter_elts(r) == self.entries(),
    {
        self.chips.iter()
    }

    /// The entries as a slice.
    pub fn as_slice(&self) -> (r: &[Chip])
        ensures
            r@ == self.entries(),
    {
        self.chips.as_slice()
    }

    /// Number of entries.
    pub fn len(&self) -> (r: usize)
        ensures
            r == self.entries().len(),
    {
        self.chips.len()
    }

    /// Whether the catalogue has no entries.
    pub fn is_empty(&self) -> (r: bool)
        ensures
            r == (self.entries().len() == 0),
    {
        self.chips.len() == 0
    }
}

/// One I²C serial-EEPROM part (24Cxx family).
#[derive(Debug, Clone)]
pub struct I2cChip {
    pub name: String,
    pub size_bytes: u32,
    pub page_size: u32,
    /// 1 for ≤ 256-byte chips (one memory-address byte on the wire),
    /// 2 for ≥ 4 KB chips.
    pub addr_width: u8,
    /// High memory-address bits carried in the slave address
    /// (24C04 = 1, 24C08 = 2, 24C16 = 3, else 0).
    pub slave_addr_bits: u8,
    /// Worst-case busy time after a page write.
    pub write_cycle_ms: u32,
}

/// Two I²C entries carry the same values.
pub open spec fn same_i2c_chip(a: I2cChip, b: I2cChip) -> bool {
    &&& a.name@ == b.name@
    &&& a.size_bytes == b.size_bytes
    &&& a.page_size == b.page_size
    &&& a.addr_width == b.addr_width
    &&& a.slave_addr_bits == b.slave_addr_bits
    &&& a.write_cycle_ms == b.write_cycle_ms
}

impl I2cChip {
    /// A field-by-field copy of this entry.
    pub fn clone_chip(&self) -> (r: I2cChip)
        ensures
            same_i2c_chip(r, *self),
    {
        I2cChip {
            name: self.name.clone(),
            size_bytes: self.size_bytes,
            page_size: self.page_size,
            addr_width: self.addr_width,
            slave_addr_bits: self.slave_addr_bits,
            write_cycle_ms: self.write_cycle_ms,
        }
    }

    /// Operating voltage: the 24Cxx family range, `"1.8–5.5V"`.
    pub fn voltage(&self) -> (r: &'static str)
        ensures
            r@ == "1.8–5.5V"@,
    {
        "1.8–5.5V"
    }
}

/// The I²C entries hold only 1- or 2-byte address widths and no zero
/// size or page.
pub open spec fn i2c_chips_valid(chips: Seq<I2cChip>) -> bool {
    forall|i: int| 0 <= i < chips.len() ==> {
        &&& ((#[trigger] chips[i]).addr_width == 1 || chips[i].addr_width == 2)
        &&& chips[i].size_bytes != 0
        &&& chips[i].page_size != 0
    }
}

/// The I²C EEPROM catalogue.
#[derive(Debug, Clone)]
pub struct I2cChipDb {
    chips: Vec<I2cChip>,
}

impl I2cChipDb {
    /// The entries, in catalogue order.
    pub closed spec fn entries(&self) -> Seq<I2cChip> {
        self.chips@
    }

    /// Build a catalogue from parsed entries, refusing an entry with an
    /// address width other than 1 or 2, or a zero size or page.
    pub fn from_chips(chips: Vec<I2cChip>) -> (r: std::result::Result<I2cChipDb, String>)
        ensures
            (match r {
                Ok(db) => db.entries() == chips@ && i2c_chips_valid(chips@),
                Err(_) => !i2c_chips_valid(chips@),
            }),
    {
        match validate_i2c_chips(chips.as_slice()) {
            Ok(()) => Ok(I2cChipDb { chips }),
            Err(e) => Err(e),
        }
    }

    /// The first entry whose name matches `name` ignoring ASCII case.
    pub fn find_by_name(&self, name: &str) -> (r: Option<&I2cChip>)
        ensures
            (match r {
                Some(c) => exists|i: int| 0 <= i < self.entries().len() && *c == self.entries()[i]
                    && eq_ignore_case(self.entries()[i].name@, name@)
                    && forall|j: int| 0 <= j < i ==> !eq_ignore_case(#[trigger] self.entries()[j].name@, name@),
                None => forall|i: int| 0 <= i < self.entries().len() ==> !eq_ignore_case(#[trigger] self.entries()[i].name@, name@),
            }),
    {
        let mut i: usize = 0;
        while i < self.chips.len()
            invariant
                i <= self.chips@.len(),
                forall|j: int| 0 <= j < i ==> !eq_ignore_case(#[trigger] self.chips@[j].name@, name@),
            decreases self.chips@.len() - i,
        {
            if str_eq_ignore_case(self.chips[i].name.as_str(), name) {
                let c = &self.chips[i];
                assert(0 <= i < self.entries().len() && *c == self.entries()[i as int]
                    && eq_ignore_case(self.entries()[i as int].name@, name@));
                return Some(c);
            }
            i = i + 1;
        }
        None
    }

    /// The entries, in catalogue order.
    pub fn iter(&self) -> (r: std::slice::Iter<'_, I2cChip>)
        ensures
            vstd::std_specs::slice::into_iter_elts(r) == self.entries(),
    {
        self.chips.iter()
    }

    /// The entries as a slice.
    pub fn as_slice(&self) -> (r: &[I2cChip])
        ensures
            r@ == self.entries(),
    {
        self.chips.as_slice()
    }
}

/// `"<name>: <what>"` as a message.
fn entry_message(name: &str, what: &str) -> (r: String)
    ensures
        r@ == name@ + ": "@ + what@,
{
    let mut v = crate::text::str_chars(name);
    crate::text::push_str(&mut v, ": ");
    crate::text::push_str(&mut v, what);
    crate::text::string_from_chars(v.as_slice())
}

/// Reject SPI entries that would later divide by zero or mean nothing
/// at the op layer: zero `size_kb`, `page_size` or `sector_size`.
/// The message names the first offending entry and field.
pub fn validate_chips(chips: &[Chip]) -> (r: std::result::Result<(), String>)
    ensures
        r is Ok <==> chips_valid(chips@),
{
    let mut i: usize = 0;
    while i < chips.len()
        invariant
            i <= chips@.len(),
            forall|j: int| 0 <= j < i ==> {
                &&& (#[trigger] chips@[j]).size_kb != 0
                &&& chips@[j].page_size != 0
                &&& chips@[j].sector_size != 0
            },
        decreases chips@.len() - i,
    {
        let c = &chips[i];
        if c.size_kb == 0 {
            return Err(entry_message(c.name.as_str(), "size_kb must be non-zero"));
        }
        if c.page_size == 0 {
            return Err(entry_message(c.name.as_str(), "page_size must be non-zero"));
        }
        if c.sector_size == 0 {
            return Err(entry_message(c.name.as_str(), "sector_size must be non-zero"));
        }
        i = i + 1;
    }
    Ok(())
}

/// Reject I²C entries whose `addr_width` the protocol layer cannot
/// encode (only 1 and 2 are) or with a zero size or page.
pub fn validate_i2c_chips(chips: &[I2cChip]) -> (r: std::result::Result<(), String>)
    ensures
        r is Ok <==> i2c_chips_valid(chips@),
{
    let mut i: usize = 0;
    while i < chips.len()
        invariant
            i <= chips@.len(),
            forall|j: int| 0 <= j < i ==> {
                &&& ((#[trigger] chips@[j]).addr_width == 1 || chips@[j].addr_width == 2)
                &&& chips@[j].size_bytes != 0
                &&& chips@[j].page_size != 0
            },
        decreases chips@.len() - i,
    {
        let c = &chips[i];
        if !(c.addr_width == 1 || c.addr_width == 2) {
            let mut v = crate::text::str_chars(c.name.as_str());
            crate::text::push_str(&mut v, ": addr_width must be 1 or 2, got ");
            crate::text::push_dec(&mut v, c.addr_width as u64);
            return Err(crate::text::string_from_chars(v.as_slice()));
        }
        if c.size_bytes == 0 {
            return Err(entry_message(c.name.as_str(), "size_bytes must be non-zero"));
        }
        if c.page_size == 0 {
            return Err(entry_message(c.name.as_str(), "page_size must be non-zero"));
        }
        i = i + 1;
    }
    Ok(())
}

} // verus!
