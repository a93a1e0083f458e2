//! Chip identification as the front-ends present it: the JEDEC id, the
//! catalogue entry or SFDP-derived parameters behind it, where those
//! came from, and the connection state that follows.
use crate::chipdb::{first_jedec_match, same_chip, Chip, ChipDb};
use crate::error::{bus_error, Result};
use crate::ops::{chip_from_bfpt, jedec_hex, no_jedec_match, run_detect, sfdp_describes_chip, sfdp_payload, synthesize_from_sfdp, Diagnosis};
use crate::report::{push_line, views};
use crate::sfdp::bfpt_of;
use crate::spi::{added, answers, dummy_read_command, extends, SpiTransport, JEDEC_ID, READ_SFDP};
use crate::text::{dec, push_dec, push_str, str_chars, str_eq, string_from_chars};
use vstd::prelude::*;
use vstd::string::*;

verus! {

/// Where the identified chip's parameters came from.
#[derive(Clone, Copy, Debug, PartialEq, Eq, Structural)]
pub enum ChipSource {
    /// The JEDEC id matched a catalogue entry.
    Database,
    /// The id missed; the parameters were built from the chip's SFDP.
    Sfdp,
    /// The id missed and the chip carries no usable SFDP either.
    Unknown,
    /// MISO floats high (no chip) or is stuck low (board contention).
    NoChip,
}

/// The outcome of identifying the chip on the clip.
#[derive(Debug, Clone)]
pub struct DetectInfo {
    /// The JEDEC id as six upper-case hex digits.
    pub jedec: String,
    /// The chip, when one could be named.
    pub chip: Option<Chip>,
    pub source: ChipSource,
}

/// The programmer's state as the header shows it.
#[derive(Debug, Clone)]
pub enum Connection {
    Disconnected,
    NoChip,
    Ready { chip_name: String, size_kb: u32 },
}

/// `info` is what identification concludes from the JEDEC id `id` and,
/// when the id is real but uncatalogued, from the SFDP dump `sfdp`.
pub open spec fn identified(info: DetectInfo, id: Seq<u8>, sfdp: Option<Seq<u8>>, entries: Seq<Chip>) -> bool {
    &&& info.jedec@ == jedec_hex(id)
    &&& if id == seq![0u8, 0u8, 0u8] || id == seq![0xFFu8, 0xFFu8, 0xFFu8] {
        info.source == ChipSource::NoChip && info.chip is None && sfdp is None
    } else if !no_jedec_match(entries, jedec_hex(id)) {
        &&& info.source == ChipSource::Database
        &&& sfdp is None
        &&& info.chip matches Some(c) && exists|i: int| first_jedec_match(entries, jedec_hex(id), i) && same_chip(c, entries[i])
    } else {
        &&& sfdp matches Some(d)
        &&& if sfdp_describes_chip(d) {
            info.source == ChipSource::Sfdp && (info.chip matches Some(c) && chip_from_bfpt(c, jedec_hex(id), bfpt_of(d).unwrap()))
        } else {
            info.source == ChipSource::Unknown && info.chip is None
        }
    }
}

/// Identify the chip: read the JEDEC id, look it up in `db`, and for a
/// real but uncatalogued id fall back to the chip's SFDP table. Only the
/// transport can fail.
pub fn identify<T: SpiTransport>(spi: &mut T, db: &ChipDb) -> (r: Result<DetectInfo>)
    ensures
        answers(old(spi).spi_upcoming(), seq![seq![JEDEC_ID, 0u8, 0u8, 0u8], dummy_read_command(READ_SFDP, 0, 256)]) ==> r is Ok,
        extends(old(spi).spi_log(), final(spi).spi_log()),
        r is Ok ==> {
            let l = added(old(spi).spi_log(), final(spi).spi_log());
            let id = l[0].1.subrange(1, 4);
            &&& 1 <= l.len() <= 2
            &&& l[0].0 == seq![JEDEC_ID, 0u8, 0u8, 0u8]
            &&& l.len() == 2 ==> l[1].0 == dummy_read_command(READ_SFDP, 0, 256)
            &&& identified(r.unwrap(), id, if l.len() == 2 { Some(sfdp_payload(l[1])) } else { None }, db.entries())
        },
        r matches Err(e) ==> {
            let l = added(old(spi).spi_log(), final(spi).spi_log());
            &&& bus_error(e)
            &&& l.len() <= 1
            &&& l.len() == 1 ==> l[0].0 == seq![JEDEC_ID, 0u8, 0u8, 0u8]
        },
{
    let ghost l0 = spi.spi_log();
    let ghost u0 = spi.spi_upcoming();
    proof {
        assert(l0.subrange(0, l0.len() as int) =~= l0);
        let x = seq![seq![JEDEC_ID, 0u8, 0u8, 0u8]];
        let y = seq![dummy_read_command(READ_SFDP, 0, 256)];
        assert(x + y =~= seq![seq![JEDEC_ID, 0u8, 0u8, 0u8], dummy_read_command(READ_SFDP, 0, 256)]);
        if answers(u0, x + y) {
            crate::spi::lemma_answers_split(u0, x, y);
        }
    }
    let d = match run_detect(spi, db) {
        Ok(d) => d,
        Err(e) => {
            proof {
                assert(added(l0, spi.spi_log()).len() == 0);
            }
            return Err(e);
        },
    };
    let ghost l1 = spi.spi_log();
    proof {
        crate::spi::lemma_sends_one(l0, l1, seq![JEDEC_ID, 0u8, 0u8, 0u8]);
        assert(added(l0, l1) =~= seq![l1.last()]);
    }
    let jedec = d.jedec_string();
    match d.diagnosis {
        Diagnosis::MisoStuckLow => Ok(DetectInfo { jedec, chip: None, source: ChipSource::NoChip }),
        Diagnosis::MisoFloatsHigh => Ok(DetectInfo { jedec, chip: None, source: ChipSource::NoChip }),
        Diagnosis::Known(c) => Ok(DetectInfo { jedec, chip: Some(c), source: ChipSource::Database }),
        Diagnosis::UnknownChip => {
            let res = match synthesize_from_sfdp(spi, jedec.as_str()) {
                Ok(res) => res,
                Err(e) => {
                    proof {
                        assert(added(l0, spi.spi_log()) =~= seq![l1.last()]);
                    }
                    return Err(e);
                },
            };
            let ghost l2 = spi.spi_log();
            proof {
                crate::spi::lemma_sends_one(l1, l2, dummy_read_command(READ_SFDP, 0, 256));
                assert(l2.subrange(0, l0.len() as int) =~= l1.subrange(0, l0.len() as int));
                assert(added(l0, l2) =~= seq![l1.last(), l2.last()]);
            }
            match res {
                Some(c) => Ok(DetectInfo { jedec, chip: Some(c), source: ChipSource::Sfdp }),
                None => Ok(DetectInfo { jedec, chip: None, source: ChipSource::Unknown }),
            }
        },
    }
}

/// The connection state an identification leaves: ready on the named
/// chip when there is one, otherwise connected with no usable chip.
pub fn connection_of(info: &DetectInfo) -> (r: Connection)
    ensures
        (match info.chip {
            Some(c) => r matches Connection::Ready { chip_name, size_kb } && chip_name@ == c.name@ && size_kb == c.size_kb,
            None => r is NoChip,
        }),
{
    match &info.chip {
        Some(c) => Connection::Ready { chip_name: c.name.clone(), size_kb: c.size_kb },
        None => Connection::NoChip,
    }
}

/// The size and notes lines a chip entry prints as: size in KB, pages
/// and sectors (counts rounded down), then the notes when there are any.
pub open spec fn chip_facts_spec(c: Chip) -> Seq<Seq<char>> {
    let bytes = c.size_kb as nat * 1024;
    seq![
        "Size     : "@ + dec(c.size_kb as nat) + " KB ("@ + dec(bytes / (c.page_size as nat)) + " pages of "@ + dec(
            c.page_size as nat,
        ) + " B, "@ + dec(bytes / (c.sector_size as nat)) + " sectors of "@ + dec(c.sector_size as nat) + " B)"@,
    ] + if c.notes@.len() == 0 {
        Seq::<Seq<char>>::empty()
    } else {
        seq!["Notes    : "@ + c.notes@]
    }
}

/// Append the size and notes lines of `c`.
fn push_chip_facts(v: &mut Vec<String>, c: &Chip)
    requires
        c.page_size > 0,
        c.sector_size > 0,
    ensures
        views(final(v)@) == views(old(v)@) + chip_facts_spec(*c),
{
    let ghost v0 = views(v@);
    let bytes: u64 = c.size_kb as u64 * 1024;
    let mut s = str_chars("Size     : ");
    push_dec(&mut s, c.size_kb as u64);
    push_str(&mut s, " KB (");
    push_dec(&mut s, bytes / (c.page_size as u64));
    push_str(&mut s, " pages of ");
    push_dec(&mut s, c.page_size as u64);
    push_str(&mut s, " B, ");
    push_dec(&mut s, bytes / (c.sector_size as u64));
    push_str(&mut s, " sectors of ");
    push_dec(&mut s, c.sector_size as u64);
    push_str(&mut s, " B)");
    push_line(v, string_from_chars(s.as_slice()));
    if c.notes.unicode_len() > 0 {
        let mut n = str_chars("Notes    : ");
        push_str(&mut n, c.notes.as_str());
        push_line(v, string_from_chars(n.as_slice()));
    }
    assert(views(v@) =~= v0 + chip_facts_spec(*c));
}

/// What `detect` prints for an identification: the JEDEC id, then the
/// chip's size and notes, the SFDP-derived entry with a hint to
/// catalogue it, the unknown-chip advice, or the MISO diagnosis (stuck
/// low for an all-zero id, floating high otherwise).
pub open spec fn detect_lines_spec(info: DetectInfo) -> Seq<Seq<char>> {
    seq!["JEDEC ID : 0x"@ + info.jedec@] + match info.source {
        ChipSource::NoChip => if info.jedec@ == "000000"@ {
            seq![
                "Chip     : MISO stuck low: target board likely fighting us."@,
                "           Lift pin 8 (VCC) or remove the chip from the board."@,
            ]
        } else {
            seq![
                "Chip     : MISO floats high: no chip detected."@,
                "           Check clip orientation, VCC jumper (3.3V), and chip power."@,
            ]
        },
        ChipSource::Database => match info.chip {
            Some(c) => chip_facts_spec(c),
            None => Seq::empty(),
        },
        ChipSource::Sfdp => match info.chip {
            Some(c) => seq!["Chip     : "@ + c.name@ + " (no chips.toml entry; parameters from SFDP)"@] + chip_facts_spec(c)
                + seq!["           Consider adding an entry to chips/chips.toml."@],
            None => Seq::empty(),
        },
        ChipSource::Unknown => seq![
            "Chip     : unknown (JEDEC 0x"@ + info.jedec@ + " not in chips.toml)"@,
            "           Chip has no SFDP either; add an entry to"@,
            "           chips/chips.toml or pass --chip <NAME>."@,
        ],
    }
}

/// The lines `detect` prints for `info`. A chip must have non-zero page
/// and sector sizes (the counts divide by them).
pub fn detect_lines(info: &DetectInfo) -> (r: Vec<String>)
    requires
        info.chip matches Some(c) ==> c.page_size > 0 && c.sector_size > 0,
    ensures
        views(r@) == detect_lines_spec(*info),
{
    let mut v: Vec<String> = Vec::new();
    let mut head = str_chars("JEDEC ID : 0x");
    push_str(&mut head, info.jedec.as_str());
    push_line(&mut v, string_from_chars(head.as_slice()));
    let ghost h = views(v@);
    match info.source {
        ChipSource::NoChip => {
            if str_eq(info.jedec.as_str(), "000000") {
                push_line(&mut v, String::from_str("Chip     : MISO stuck low: target board likely fighting us."));
                push_line(&mut v, String::from_str("           Lift pin 8 (VCC) or remove the chip from the board."));
            } else {
                push_line(&mut v, String::from_str("Chip     : MISO floats high: no chip detected."));
                push_line(&mut v, String::from_str("           Check clip orientation, VCC jumper (3.3V), and chip power."));
            }
        },
        ChipSource::Database => {
            if let Some(c) = &info.chip {
                push_chip_facts(&mut v, c);
            }
        },
        ChipSource::Sfdp => {
            if let Some(c) = &info.chip {
                let mut l = str_chars("Chip     : ");
                push_str(&mut l, c.name.as_str());
                push_str(&mut l, " (no chips.toml entry; parameters from SFDP)");
                push_line(&mut v, string_from_chars(l.as_slice()));
                push_chip_facts(&mut v, c);
                push_line(&mut v, String::from_str("           Consider adding an entry to chips/chips.toml."));
            }
        },
        ChipSource::Unknown => {
            let mut l = str_chars("Chip     : unknown (JEDEC 0x");
            push_str(&mut l, info.jedec.as_str());
            push_str(&mut l, " not in chips.toml)");
            push_line(&mut v, string_from_chars(l.as_slice()));
            push_line(&mut v, String::from_str("           Chip has no SFDP either; add an entry to"));
            push_line(&mut v, String::from_str("           chips/chips.toml or pass --chip <NAME>."));
        },
    }
    assert(views(v@) =~= detect_lines_spec(*info));
    v
}

} // verus!
