//! High-level SPI NOR operations: detect, chip resolution, read, erase,
//! write, verify and blank check.
//!
//! Every operation is generic over [`SpiTransport`], so its contract is
//! stated over the transport's log of completed transactions: which
//! commands went out, in which order, and what the returned data is
//! made of.
use crate::chipdb::{first_jedec_match, first_name_match, same_chip, Chip, ChipDb};
use crate::error::{bus_error, failures_of, Error, Result};
use crate::sfdp::{bfpt_of, header_of, is_parsable, parsable, Bfpt, EraseType};
use crate::spi::{
    added, all_busy, answers, is_ready_poll, served, status_poll_command, block_erase_command, dummy_read_command, extends, polled_until_ready, read_command,
    sector_erase_command, sends, sends_prefix, sent, Addressing, SpiTransport, Txn, JEDEC_ID,
    READ_SFDP, WRITE_ENABLE,
};
use crate::text::{eq_ignore_case, hex, push_hex, string_from_chars};
use vstd::prelude::*;
use vstd::string::*;

verus! {

/// Time allowed for a whole-chip erase.
const CHIP_ERASE_TIMEOUT_MS: u64 = 300_000;
/// Time allowed for one 64 KB block erase.
const BLOCK_ERASE_TIMEOUT_MS: u64 = 10_000;
/// Time allowed for one 4 KB sector erase.
const SECTOR_ERASE_TIMEOUT_MS: u64 = 2_000;
/// Time allowed for one page program.
const PAGE_PROGRAM_TIMEOUT_MS: u64 = 1_000;
/// Bytes per read transaction.
pub const READ_CHUNK: u32 = 4096;
/// Size of a 64 KB erase block.
pub const BLOCK_SIZE: u32 = 0x10000;

/// One event on a progress channel.
pub enum Progress {
    /// Work begins; the total expected.
    Start(u64),
    /// The amount done so far.
    Update(u64),
    /// Work is over, on success or failure.
    Finish,
}

/// Long-operation progress channel. The command line drives a progress
/// bar with it; callers that do not care pass a [`NullSink`].
/// Implementors keep the record of events that the contracts of the
/// operations speak of.
pub trait ProgressSink {
    /// The events received so far, oldest first. A verified implementor
    /// keeps them and overrides this; the empty default is there so that
    /// sinks written in plain Rust (a terminal progress bar) can
    /// implement the trait, which they could not with a required
    /// specification function.
    open spec fn progress(&self) -> Seq<Progress> {
        Seq::empty()
    }

    /// Called once at the start with the total work expected (bytes, or
    /// for a whole-chip erase the chip size).
    fn start(&mut self, total: u64)
        ensures
            final(self).progress() == old(self).progress().push(Progress::Start(total)),
    ;

    /// Called as work progresses with the amount done so far.
    fn update(&mut self, current: u64)
        ensures
            final(self).progress() == old(self).progress().push(Progress::Update(current)),
    ;

    /// Called once when the work completes, on success or failure.
    fn finish(&mut self)
        ensures
            final(self).progress() == old(self).progress().push(Progress::Finish),
    ;
}

/// A sink that shows nothing; it only keeps the record of events.
pub struct NullSink {
    seen: Ghost<Seq<Progress>>,
}

impl NullSink {
    /// A sink with no events yet.
    pub fn new() -> (r: NullSink)
        ensures
            r.progress() == Seq::<Progress>::empty(),
    {
        NullSink { seen: Ghost(Seq::empty()) }
    }
}

impl ProgressSink for NullSink {
    closed spec fn progress(&self) -> Seq<Progress> {
        self.seen@
    }

    fn start(&mut self, total: u64) {
        self.seen = Ghost(self.seen@.push(Progress::Start(total)));
    }

    fn update(&mut self, current: u64) {
        self.seen = Ghost(self.seen@.push(Progress::Update(current)));
    }

    fn finish(&mut self) {
        self.seen = Ghost(self.seen@.push(Progress::Finish));
    }
}

// ---------------------------------------------------------------
// Address width
// ---------------------------------------------------------------

/// Chips above 16 MB (16384 KB) need the 4-byte opcodes.
pub open spec fn addressing_spec(size_kb: u32) -> Addressing {
    if size_kb > 16384 {
        Addressing::FourByte
    } else {
        Addressing::ThreeByte
    }
}

/// The address width for `chip`: 3-byte at or below 16 MB, 4-byte above.
pub fn addressing_for(chip: &Chip) -> (r: Addressing)
    ensures
        r == addressing_spec(chip.size_kb),
{
    if chip.size_kb > 16384 {
        Addressing::FourByte
    } else {
        Addressing::ThreeByte
    }
}

/// A chip's capacity in bytes, saturating at `u32::MAX`.
pub open spec fn chip_bytes(size_kb: u32) -> int {
    if size_kb * 1024 > u32::MAX {
        u32::MAX as int
    } else {
        size_kb * 1024
    }
}

/// `size_kb * 1024`, saturating.
fn chip_size_of(chip: &Chip) -> (r: u32)
    ensures
        r == chip_bytes(chip.size_kb),
{
    if chip.size_kb > u32::MAX / 1024 {
        u32::MAX
    } else {
        chip.size_kb * 1024
    }
}

// ---------------------------------------------------------------
// Detect and chip resolution
// ---------------------------------------------------------------

/// The JEDEC id as six upper-case hex digits.
pub open spec fn jedec_hex(id: Seq<u8>) -> Seq<char> {
    hex(id[0] as nat, 2, true) + hex(id[1] as nat, 2, true) + hex(id[2] as nat, 2, true)
}

/// What a JEDEC read says about the chip on the clip.
#[derive(Debug, Clone)]
pub enum Diagnosis {
    /// The id read all-zero: MISO held low by the target board.
    MisoStuckLow,
    /// The id read all-0xFF: nothing drives MISO, no chip answered.
    MisoFloatsHigh,
    /// The catalogue knows this id.
    Known(Chip),
    /// A chip answered with an id the catalogue lacks.
    UnknownChip,
}

/// A JEDEC id and what it means.
#[derive(Debug, Clone)]
pub struct DetectResult {
    pub jedec_id: [u8; 3],
    pub diagnosis: Diagnosis,
}

/// Six upper-case hex digits of a 3-byte id.
fn jedec_string_of(id: &[u8; 3]) -> (r: String)
    ensures
        r@ == jedec_hex(id@),
{
    let mut v: Vec<char> = Vec::new();
    push_hex(&mut v, id[0] as u64, 2, true);
    push_hex(&mut v, id[1] as u64, 2, true);
    push_hex(&mut v, id[2] as u64, 2, true);
    assert(v@ =~= jedec_hex(id@));
    string_from_chars(v.as_slice())
}

impl DetectResult {
    /// The id as six upper-case hex digits, e.g. `"EF4018"`.
    pub fn jedec_string(&self) -> (r: String)
        ensures
            r@ == jedec_hex(self.jedec_id@),
    {
        jedec_string_of(&self.jedec_id)
    }
}

/// The diagnosis a JEDEC id gets against `entries`.
pub open spec fn diagnosis_fits(d: Diagnosis, id: Seq<u8>, entries: Seq<Chip>) -> bool {
    if id == seq![0u8, 0u8, 0u8] {
        d is MisoStuckLow
    } else if id == seq![0xFFu8, 0xFFu8, 0xFFu8] {
        d is MisoFloatsHigh
    } else {
        match d {
            Diagnosis::Known(c) => exists|i: int| first_jedec_match(entries, jedec_hex(id), i) && same_chip(c, entries[i]),
            Diagnosis::UnknownChip => forall|i: int| 0 <= i < entries.len() ==> !eq_ignore_case(#[trigger] entries[i].jedec_id@, jedec_hex(id)),
            _ => false,
        }
    }
}

/// Read the JEDEC id and look it up in `db`, printing nothing. The only
/// errors are those the transport reports, with nothing logged.
pub fn run_detect<T: SpiTransport>(spi: &mut T, db: &ChipDb) -> (r: Result<DetectResult>)
    ensures
        final(spi).spi_failures() == failures_of(old(spi).spi_failures(), r),
        answers(old(spi).spi_upcoming(), seq![seq![JEDEC_ID, 0u8, 0u8, 0u8]]) ==> r is Ok && served(
            old(spi).spi_log(),
            old(spi).spi_upcoming(),
            final(spi).spi_log(),
            final(spi).spi_upcoming(),
            1,
        ),
        (match r {
            Ok(d) => sends(old(spi).spi_log(), final(spi).spi_log(), seq![seq![JEDEC_ID, 0u8, 0u8, 0u8]])
                && d.jedec_id@ == final(spi).spi_log().last().1.subrange(1, 4)
                && diagnosis_fits(d.diagnosis, d.jedec_id@, db.entries()),
            Err(e) => bus_error(e) && final(spi).spi_log() == old(spi).spi_log(),
        }),
{
    let id = crate::spi::jedec_read(spi)?;
    let diagnosis = if id[0] == 0 && id[1] == 0 && id[2] == 0 {
        assert(id@ =~= seq![0u8, 0u8, 0u8]);
        Diagnosis::MisoStuckLow
    } else if id[0] == 0xFF && id[1] == 0xFF && id[2] == 0xFF {
        assert(id@ =~= seq![0xFFu8, 0xFFu8, 0xFFu8]);
        assert(id@ != seq![0u8, 0u8, 0u8]);
        Diagnosis::MisoFloatsHigh
    } else {
        assert(id@ != seq![0u8, 0u8, 0u8]) by {
            if id@ == seq![0u8, 0u8, 0u8] {
                assert(id@[0] == 0 && id@[1] == 0 && id@[2] == 0);
            }
        }
        assert(id@ != seq![0xFFu8, 0xFFu8, 0xFFu8]) by {
            if id@ == seq![0xFFu8, 0xFFu8, 0xFFu8] {
                assert(id@[0] == 0xFF && id@[1] == 0xFF && id@[2] == 0xFF);
            }
        }
        let jedec = jedec_string_of(&id);
        match db.find_by_jedec(jedec.as_str()) {
            Some(c) => {
                let k = c.clone_chip();
                Diagnosis::Known(k)
            },
            None => Diagnosis::UnknownChip,
        }
    };
    Ok(DetectResult { jedec_id: id, diagnosis })
}

/// The smaller of a running minimum and a non-zero erase size.
pub open spec fn min_size(acc: Option<u32>, e: EraseType) -> Option<u32> {
    if e.size_bytes == 0 {
        acc
    } else {
        match acc {
            None => Some(e.size_bytes),
            Some(m) => Some(if e.size_bytes < m { e.size_bytes } else { m }),
        }
    }
}

/// The smallest erase size the BFPT advertises, 4096 when it
/// advertises none.
pub open spec fn smallest_erase(b: Bfpt) -> u32 {
    let t = b.erase_types;
    match min_size(min_size(min_size(min_size(None, t[0]), t[1]), t[2]), t[3]) {
        Some(m) => m,
        None => 4096,
    }
}

/// The notes an SFDP-derived chip entry carries.
pub open spec fn sfdp_notes() -> Seq<char> {
    "Auto-derived from SFDP; add an entry to chips.toml for a friendlier name + accurate erase timing."@
}

/// `c` is the entry [`synthesize_from_sfdp`] builds for `jedec` from `b`.
pub open spec fn chip_from_bfpt(c: Chip, jedec: Seq<char>, b: Bfpt) -> bool {
    &&& c.name@ == jedec + " (SFDP)"@
    &&& c.jedec_id@ == jedec
    &&& c.size_kb == (b.size_bytes / 1024) as u32
    &&& c.page_size == b.page_size
    &&& c.sector_size == smallest_erase(b)
    &&& c.erase_time_ms == 60
    &&& c.notes@ == sfdp_notes()
}

/// An SFDP dump yields a chip: it parses, carries the magic and
/// announces a BFPT inside the dump.
pub open spec fn sfdp_describes_chip(d: Seq<u8>) -> bool {
    parsable(d) && header_of(d).valid && bfpt_of(d) is Some
}

/// Smallest non-zero erase size among the four slots.
fn smallest_erase_of(b: &Bfpt) -> (r: u32)
    ensures
        r == smallest_erase(*b),
{
    let mut best: Option<u32> = None;
    let mut i: usize = 0;
    while i < 4
        invariant
            i <= 4,
            best == (if i == 0 { None } else if i == 1 { min_size(None, b.erase_types[0]) }
                else if i == 2 { min_size(min_size(None, b.erase_types[0]), b.erase_types[1]) }
                else if i == 3 { min_size(min_size(min_size(None, b.erase_types[0]), b.erase_types[1]), b.erase_types[2]) }
                else { min_size(min_size(min_size(min_size(None, b.erase_types[0]), b.erase_types[1]), b.erase_types[2]), b.erase_types[3]) }),
        decreases 4 - i,
    {
        let s = b.erase_types[i].size_bytes;
        if s != 0 {
            best = match best {
                None => Some(s),
                Some(m) => Some(if s < m { s } else { m }),
            };
        }
        i = i + 1;
    }
    match best {
        Some(m) => m,
        None => 4096,
    }
}

/// The chip entry a decoded BFPT describes, named `"<jedec> (SFDP)"`,
/// with the smallest advertised erase size as its sector and a 60 ms
/// erase time.
fn chip_of_bfpt(jedec: &str, b: &Bfpt) -> (r: Chip)
    ensures
        chip_from_bfpt(r, jedec@, *b),
{
    let mut name = String::from_str(jedec);
    name.append(" (SFDP)");
    let notes = String::from_str(
        "Auto-derived from SFDP; add an entry to chips.toml for a friendlier name + accurate erase timing.",
    );
    Chip {
        name,
        jedec_id: String::from_str(jedec),
        size_kb: (b.size_bytes / 1024) as u32,
        page_size: b.page_size,
        sector_size: smallest_erase_of(b),
        erase_time_ms: 60,
        notes,
    }
}

/// Build a chip entry from the chip's own SFDP table when its JEDEC id
/// is not catalogued. Reads 256 bytes of SFDP space; `Ok(None)` when the
/// dump lacks the magic, announces no BFPT, or announces a density that
/// does not fit 64 bits. Errors only come from the transport.
pub fn synthesize_from_sfdp<T: SpiTransport>(spi: &mut T, jedec: &str) -> (r: Result<Option<Chip>>)
    ensures
        final(spi).spi_failures() == failures_of(old(spi).spi_failures(), r),
        answers(old(spi).spi_upcoming(), seq![dummy_read_command(READ_SFDP, 0, 256)]) ==> r is Ok && served(
            old(spi).spi_log(),
            old(spi).spi_upcoming(),
            final(spi).spi_log(),
            final(spi).spi_upcoming(),
            1,
        ),
        (match r {
            Ok(res) => {
                let d = final(spi).spi_log().last().1.subrange(5, 261);
                &&& sends(old(spi).spi_log(), final(spi).spi_log(), seq![dummy_read_command(READ_SFDP, 0, 256)])
                &&& (res is Some <==> sfdp_describes_chip(d))
                &&& (res matches Some(c) ==> chip_from_bfpt(c, jedec@, bfpt_of(d).unwrap()))
            },
            Err(e) => bus_error(e) && final(spi).spi_log() == old(spi).spi_log(),
        }),
{
    let data = crate::spi::read_sfdp(spi, 0, 256)?;
    if !is_parsable(data.as_slice()) {
        return Ok(None);
    }
    let parsed = crate::sfdp::parse(data.as_slice());
    if !parsed.header.valid {
        return Ok(None);
    }
    match parsed.bfpt {
        Some(b) => Ok(Some(chip_of_bfpt(jedec, &b))),
        None => Ok(None),
    }
}

/// No catalogue entry carries the JEDEC id `j` (ignoring ASCII case).
pub open spec fn no_jedec_match(entries: Seq<Chip>, j: Seq<char>) -> bool {
    forall|i: int| 0 <= i < entries.len() ==> !eq_ignore_case(#[trigger] entries[i].jedec_id@, j)
}

/// No catalogue entry carries the name `n` (ignoring ASCII case).
pub open spec fn no_name_match(entries: Seq<Chip>, n: Seq<char>) -> bool {
    forall|i: int| 0 <= i < entries.len() ==> !eq_ignore_case(#[trigger] entries[i].name@, n)
}

/// The SFDP bytes an SFDP read transaction returned.
pub open spec fn sfdp_payload(t: Txn) -> Seq<u8> {
    t.1.subrange(5, 261)
}

/// Pick the chip to work on. A `name` wins: it is looked up in `db`
/// (ASCII case ignored) and nothing goes on the bus. Without one the
/// JEDEC id is read and looked up, and an uncatalogued id falls back to
/// the chip's SFDP table. Fails with [`Error::ChipNotRecognized`]
/// carrying the name, or the id in hex, when neither identifies it.
pub fn resolve_chip<T: SpiTransport>(spi: &mut T, db: &ChipDb, name: Option<&str>) -> (r: Result<Chip>)
    ensures
        name matches Some(n) ==> {
            &&& final(spi).spi_log() == old(spi).spi_log()
            &&& (match r {
                Ok(c) => exists|i: int| first_name_match(db.entries(), n@, i) && same_chip(c, db.entries()[i]),
                Err(e) => no_name_match(db.entries(), n@) && (e matches Error::ChipNotRecognized(s) && s@ == n@),
            })
        },
        name is None ==> {
            let l = added(old(spi).spi_log(), final(spi).spi_log());
            let id = l[0].1.subrange(1, 4);
            &&& extends(old(spi).spi_log(), final(spi).spi_log())
            &&& l.len() <= 2
            &&& l.len() >= 1 ==> l[0].0 == seq![JEDEC_ID, 0u8, 0u8, 0u8]
            &&& l.len() == 2 ==> no_jedec_match(db.entries(), jedec_hex(id)) && l[1].0 == dummy_read_command(READ_SFDP, 0, 256)
            &&& (match r {
                Ok(c) => (l.len() == 1 && exists|i: int| first_jedec_match(db.entries(), jedec_hex(id), i) && same_chip(c, db.entries()[i]))
                    || (l.len() == 2 && sfdp_describes_chip(sfdp_payload(l[1]))
                        && chip_from_bfpt(c, jedec_hex(id), bfpt_of(sfdp_payload(l[1])).unwrap())),
                Err(e) => (l.len() == 1 ==> no_jedec_match(db.entries(), jedec_hex(id)))
                    && (l.len() == 2 ==> !sfdp_describes_chip(sfdp_payload(l[1]))
                        && (e matches Error::ChipNotRecognized(s) && s@ == jedec_hex(id))),
            })
        },
{
    let ghost l0 = spi.spi_log();
    proof {
        assert(l0.subrange(0, l0.len() as int) =~= l0);
    }
    match name {
        Some(n) => {
            match db.find_by_name(n) {
                Some(c) => Ok(c.clone_chip()),
                None => Err(Error::ChipNotRecognized(String::from_str(n))),
            }
        },
        None => {
            let id = match crate::spi::jedec_read(spi) {
                Ok(id) => id,
                Err(e) => {
                    proof {
                        assert(added(l0, spi.spi_log()).len() == 0);
                    }
                    return Err(e);
                },
            };
            let ghost l1 = spi.spi_log();
            proof {
                crate::spi::lemma_sends_one(l0, l1, seq![JEDEC_ID, 0u8, 0u8, 0u8]);
                assert(added(l0, l1) =~= seq![l1.last()]);
            }
            let jedec = jedec_string_of(&id);
            if let Some(c) = db.find_by_jedec(jedec.as_str()) {
                return Ok(c.clone_chip());
            }
            match synthesize_from_sfdp(spi, jedec.as_str()) {
                Ok(res) => {
                    let ghost l2 = spi.spi_log();
                    proof {
                        crate::spi::lemma_sends_one(l1, l2, dummy_read_command(READ_SFDP, 0, 256));
                        assert(l2.subrange(0, l0.len() as int) =~= l1.subrange(0, l0.len() as int));
                        assert(added(l0, l2) =~= seq![l1.last(), l2.last()]);
                    }
                    match res {
                        Some(c) => Ok(c),
                        None => Err(Error::ChipNotRecognized(jedec)),
                    }
                },
                Err(e) => Err(e),
            }
        },
    }
}

// ---------------------------------------------------------------
// Write-enabled steps
// ---------------------------------------------------------------

/// `s` is one write-enabled command: Write Enable, `cmd`, then status
/// polls up to one that saw the chip ready.
pub open spec fn step_done(cmd: Seq<u8>, s: Seq<Txn>) -> bool {
    &&& s.len() >= 3
    &&& s[0].0 == seq![WRITE_ENABLE]
    &&& s[1].0 == cmd
    &&& polled_until_ready(s.subrange(2, s.len() as int))
}

/// `log` is, in order, one completed step per command of `cmds`.
pub open spec fn ran(cmds: Seq<Seq<u8>>, log: Seq<Txn>) -> bool
    decreases cmds.len(),
{
    if cmds.len() == 0 {
        log.len() == 0
    } else {
        exists|k: int|
            0 <= k <= log.len() && ran(cmds.drop_last(), #[trigger] log.subrange(0, k)) && step_done(
                cmds.last(),
                log.subrange(k, log.len() as int),
            )
    }
}

/// Nothing was done for no commands.
pub proof fn lemma_ran_empty(log: Seq<Txn>)
    requires
        log.len() == 0,
    ensures
        ran(Seq::empty(), log),
{
}

/// `s` is a write-enabled step for `cmd` cut short: an initial part of
/// Write Enable and `cmd`, or both of them followed by status polls that
/// all saw the chip busy.
pub open spec fn step_cut(cmd: Seq<u8>, s: Seq<Txn>) -> bool {
    ||| s.len() <= 2 && sent(s) == seq![seq![WRITE_ENABLE], cmd].subrange(0, s.len() as int)
    ||| s.len() >= 2 && s[0].0 == seq![WRITE_ENABLE] && s[1].0 == cmd && all_busy(s.subrange(2, s.len() as int))
}

/// `log` is the steps for some of `cmds` completed in order, then the
/// step for the next command cut short: what is on the bus when a run
/// of write-enabled commands stops on an error.
pub open spec fn ran_cut(cmds: Seq<Seq<u8>>, log: Seq<Txn>) -> bool {
    exists|j: int, m: int|
        0 <= j < cmds.len() && 0 <= m <= log.len() && #[trigger] ran(cmds.subrange(0, j), log.subrange(0, m))
            && step_cut(cmds[j], log.subrange(m, log.len() as int))
}

/// A run cut at command `j` after `m` transactions.
proof fn lemma_cut_at(cmds: Seq<Seq<u8>>, log: Seq<Txn>, j: int, m: int)
    requires
        0 <= j < cmds.len(),
        0 <= m <= log.len(),
        ran(cmds.subrange(0, j), log.subrange(0, m)),
        step_cut(cmds[j], log.subrange(m, log.len() as int)),
    ensures
        ran_cut(cmds, log),
{
}

/// A run cut short within `c1` is cut short within `c1 + c2` too.
proof fn lemma_cut_append(c1: Seq<Seq<u8>>, c2: Seq<Seq<u8>>, log: Seq<Txn>)
    requires
        ran_cut(c1, log),
    ensures
        ran_cut(c1 + c2, log),
{
    let (j, m) = choose|j: int, m: int|
        0 <= j < c1.len() && 0 <= m <= log.len() && #[trigger] ran(c1.subrange(0, j), log.subrange(0, m))
            && step_cut(c1[j], log.subrange(m, log.len() as int));
    assert((c1 + c2).subrange(0, j) =~= c1.subrange(0, j));
    lemma_cut_at(c1 + c2, log, j, m);
}

/// One more completed step extends a run by its command.
pub proof fn lemma_ran_push(cmds: Seq<Seq<u8>>, log: Seq<Txn>, cmd: Seq<u8>, s: Seq<Txn>)
    requires
        ran(cmds, log),
        step_done(cmd, s),
    ensures
        ran(cmds.push(cmd), log + s),
{
    let c2 = cmds.push(cmd);
    let l2 = log + s;
    assert(c2.drop_last() =~= cmds);
    assert(l2.subrange(0, log.len() as int) =~= log);
    assert(l2.subrange(log.len() as int, l2.len() as int) =~= s);
    assert(ran(c2.drop_last(), l2.subrange(0, log.len() as int)));
}

/// Logs that extend each other compose.
pub proof fn lemma_chain(a: Seq<Txn>, b: Seq<Txn>, c: Seq<Txn>)
    requires
        extends(a, b),
        extends(b, c),
    ensures
        extends(a, c),
        added(a, c) == added(a, b) + added(b, c),
{
    assert(c.subrange(0, a.len() as int) =~= b.subrange(0, a.len() as int));
    assert(added(a, c) =~= added(a, b) + added(b, c));
}

/// A log extends itself, adding nothing.
pub proof fn lemma_extends_refl(a: Seq<Txn>)
    ensures
        extends(a, a),
        added(a, a).len() == 0,
{
    assert(a.subrange(0, a.len() as int) =~= a);
}

/// `up` begins with what a run of write-enabled commands `cmds` needs
/// to succeed: for each command, Write Enable and the command answered,
/// then a status poll answered with the chip ready.
pub open spec fn steps_answered(up: Seq<Txn>, cmds: Seq<Seq<u8>>) -> bool
    decreases cmds.len(),
{
    if cmds.len() == 0 {
        true
    } else {
        &&& answers(up, seq![seq![WRITE_ENABLE], cmds[0], status_poll_command()])
        &&& is_ready_poll(up[2])
        &&& steps_answered(up.skip(3), cmds.drop_first())
    }
}

/// The first step of an answered run: its two commands are answered,
/// then the ready poll, and the rest of the run stays answered.
proof fn lemma_steps_first(up: Seq<Txn>, cmds: Seq<Seq<u8>>)
    requires
        steps_answered(up, cmds),
        cmds.len() > 0,
    ensures
        up.len() >= 3,
        answers(up, seq![seq![WRITE_ENABLE], cmds[0]]),
        answers(up.skip(2), seq![status_poll_command()]),
        is_ready_poll(up.skip(2)[0]),
        up.skip(2).skip(1) == up.skip(3),
        steps_answered(up.skip(3), cmds.drop_first()),
{
    let x = seq![seq![WRITE_ENABLE], cmds[0]];
    let y = seq![status_poll_command()];
    assert(x + y =~= seq![seq![WRITE_ENABLE], cmds[0], status_poll_command()]);
    crate::spi::lemma_answers_split(up, x, y);
    assert(up.skip(2)[0] == up[2]);
    assert(up.skip(2).skip(1) =~= up.skip(3));
}

/// A run answered for `c1 + c2` is answered for `c1`, and for `c2`
/// after the first `3 * c1.len()` transactions.
proof fn lemma_steps_split(up: Seq<Txn>, c1: Seq<Seq<u8>>, c2: Seq<Seq<u8>>)
    requires
        steps_answered(up, c1 + c2),
    ensures
        steps_answered(up, c1),
        3 * c1.len() <= up.len(),
        steps_answered(up.skip(3 * c1.len() as int), c2),
    decreases c1.len(),
{
    if c1.len() == 0 {
        assert(c1 + c2 =~= c2);
        assert(up.skip(0) =~= up);
    } else {
        assert((c1 + c2)[0] == c1[0]);
        assert((c1 + c2).drop_first() =~= c1.drop_first() + c2);
        lemma_steps_first(up, c1 + c2);
        lemma_steps_split(up.skip(3), c1.drop_first(), c2);
        assert(up.skip(3).skip(3 * c1.drop_first().len() as int) =~= up.skip(3 * c1.len() as int));
    }
}

/// Write Enable plus `cmd` was sent from `la`; poll for ready and
/// record the step.
fn wait_step<T: SpiTransport>(
    spi: &mut T,
    timeout_ms: u64,
    Ghost(l0): Ghost<Seq<Txn>>,
    Ghost(la): Ghost<Seq<Txn>>,
    Ghost(cmds): Ghost<Seq<Seq<u8>>>,
    Ghost(cmd): Ghost<Seq<u8>>,
) -> (r: Result<()>)
    requires
        extends(l0, la),
        ran(cmds, added(l0, la)),
        sends(la, old(spi).spi_log(), seq![seq![WRITE_ENABLE], cmd]),
    ensures
        extends(l0, final(spi).spi_log()),
        (match r {
            Ok(_) => ran(cmds.push(cmd), added(l0, final(spi).spi_log())),
            Err(e) => (bus_error(e) || e is Timeout) && ran_cut(cmds.push(cmd), added(l0, final(spi).spi_log())),
        }),
        answers(old(spi).spi_upcoming(), seq![status_poll_command()]) && is_ready_poll(old(spi).spi_upcoming()[0]) ==> r is Ok
            && final(spi).spi_upcoming() == old(spi).spi_upcoming().skip(1),
{
    let ghost lb = spi.spi_log();
    let r = crate::spi::wait_until_ready(spi, timeout_ms);
    proof {
        let lc = spi.spi_log();
        lemma_chain(la, lb, lc);
        lemma_chain(l0, la, lc);
        if r is Err {
            let l = added(l0, lc);
            let m = added(l0, la).len() as int;
            let s = added(la, lc);
            assert(l.subrange(0, m) =~= added(l0, la));
            assert(l.subrange(m, l.len() as int) =~= s);
            assert(cmds.push(cmd).subrange(0, cmds.len() as int) =~= cmds);
            assert(sent(added(la, lb)).len() == 2);
            assert(added(la, lb).len() == 2);
            assert(s[0] == added(la, lb)[0]);
            assert(s[1] == added(la, lb)[1]);
            assert(sent(added(la, lb))[0] == added(la, lb)[0].0);
            assert(sent(added(la, lb))[1] == added(la, lb)[1].0);
            assert(s.subrange(2, s.len() as int) =~= added(lb, lc));
            lemma_cut_at(cmds.push(cmd), l, cmds.len() as int, m);
        }
        if r is Ok {
            let s = added(la, lc);
            assert(sent(added(la, lb)).len() == 2);
            assert(added(la, lb).len() == 2);
            assert(s[0] == added(la, lb)[0]);
            assert(s[1] == added(la, lb)[1]);
            assert(sent(added(la, lb))[0] == added(la, lb)[0].0);
            assert(sent(added(la, lb))[1] == added(la, lb)[1].0);
            assert(s.subrange(2, s.len() as int) =~= added(lb, lc));
            lemma_ran_push(cmds, added(l0, la), cmd, s);
        }
    }
    r
}

/// Erase the whole chip and wait (up to 300 s) for it to finish.
pub fn erase_chip<T: SpiTransport, P: ProgressSink>(spi: &mut T, chip: &Chip, progress: &mut P) -> (r: Result<()>)
    ensures
        extends(old(spi).spi_log(), final(spi).spi_log()),
        final(progress).progress() == old(progress).progress() + reported(chip_bytes(chip.size_kb) as u64, Seq::empty()),
        steps_answered(old(spi).spi_upcoming(), seq![seq![crate::spi::CHIP_ERASE]]) ==> r is Ok,
        (match r {
            Ok(_) => ran(seq![seq![crate::spi::CHIP_ERASE]], added(old(spi).spi_log(), final(spi).spi_log())),
            Err(e) => (bus_error(e) || e is Timeout) && ran_cut(
                seq![seq![crate::spi::CHIP_ERASE]],
                added(old(spi).spi_log(), final(spi).spi_log()),
            ),
        }),
{
    let ghost l0 = spi.spi_log();
    let ghost cmd = seq![crate::spi::CHIP_ERASE];
    proof {
        lemma_extends_refl(l0);
        lemma_ran_empty(added(l0, l0));
        assert(Seq::<Seq<u8>>::empty().push(cmd) =~= seq![cmd]);
    }
    let ghost p0 = progress.progress();
    proof {
        if steps_answered(spi.spi_upcoming(), seq![cmd]) {
            lemma_steps_first(spi.spi_upcoming(), seq![cmd]);
        }
    }
    progress.start(chip_size_of(chip) as u64);
    match crate::spi::chip_erase(spi) {
        Ok(_) => {},
        Err(e) => {
            progress.finish();
            proof {
                assert(progress.progress() =~= p0 + reported(chip_bytes(chip.size_kb) as u64, Seq::empty()));
                let l = added(l0, spi.spi_log());
                assert(seq![cmd].subrange(0, 0) =~= Seq::<Seq<u8>>::empty());
                assert(l.subrange(0, 0) =~= Seq::<Txn>::empty());
                assert(l.subrange(0, l.len() as int) =~= l);
                lemma_cut_at(seq![cmd], l, 0, 0);
            }
            return Err(e);
        },
    }
    let res = wait_step(spi, CHIP_ERASE_TIMEOUT_MS, Ghost(l0), Ghost(l0), Ghost(Seq::empty()), Ghost(cmd));
    progress.finish();
    assert(progress.progress() =~= p0 + reported(chip_bytes(chip.size_kb) as u64, Seq::empty()));
    res?;
    Ok(())
}

// ---------------------------------------------------------------
// Range erase
// ---------------------------------------------------------------

/// `start .. start + len` fits a chip of `size_kb` KB.
pub open spec fn in_range(start: u32, len: int, size_kb: u32) -> bool {
    start + len <= chip_bytes(size_kb)
}

/// `len` rounded up to a whole number of `s`-byte sectors.
pub open spec fn round_up(len: int, s: int) -> int {
    if len % s == 0 {
        len
    } else {
        len - len % s + s
    }
}

/// Distance left from `addr` to `end` (zero once past it).
pub open spec fn gap(addr: int, end: int) -> int {
    if addr < end {
        end - addr
    } else {
        0
    }
}

/// The erases [`erase_range`] issues for `[addr, end)`, in order: each
/// an address and whether it is a 64 KB block erase (else a sector
/// erase of `sector` bytes). A block erase is used exactly where the
/// address is 64 KB-aligned and at least 64 KB remain.
pub open spec fn erase_ops(addr: int, end: int, sector: int) -> Seq<(int, bool)>
    decreases gap(addr, end),
{
    if addr >= end || sector <= 0 {
        Seq::empty()
    } else if addr % 0x10000 == 0 && end - addr >= 0x10000 {
        seq![(addr, true)] + erase_ops(addr + 0x10000, end, sector)
    } else {
        seq![(addr, false)] + erase_ops(addr + sector, end, sector)
    }
}

/// The command for one erase operation.
pub open spec fn erase_cmd(a: Addressing, op: (int, bool)) -> Seq<u8> {
    if op.1 {
        block_erase_command(a, op.0 as u32)
    } else {
        sector_erase_command(a, op.0 as u32)
    }
}

/// The commands for a list of erase operations.
pub open spec fn erase_cmds(a: Addressing, ops: Seq<(int, bool)>) -> Seq<Seq<u8>> {
    ops.map_values(|op: (int, bool)| erase_cmd(a, op))
}

/// The bytes one erase operation clears.
pub open spec fn op_len(op: (int, bool), sector: int) -> int {
    if op.1 {
        0x10000
    } else {
        sector
    }
}

/// The progress updates of a range erase from `base`: after each erase,
/// the bytes cleared so far.
pub open spec fn erase_updates(ops: Seq<(int, bool)>, base: int, sector: int) -> Seq<Progress> {
    ops.map_values(|op: (int, bool)| Progress::Update((op.0 + op_len(op, sector) - base) as u64))
}

/// A range erase that stops before `op`, after `done`, has reported a
/// run over an initial part of its plan.
proof fn lemma_erase_progress(
    p0: Seq<Progress>,
    total: u64,
    all: Seq<(int, bool)>,
    done: Seq<(int, bool)>,
    op: (int, bool),
    rest: Seq<(int, bool)>,
    base: int,
    sector: int,
    now: Seq<Progress>,
)
    requires
        done + seq![op] + rest == all,
        now == (p0.push(Progress::Start(total)) + erase_updates(done, base, sector)).push(Progress::Finish),
    ensures
        exists|j: int| 0 <= j < all.len() && now == p0 + reported(total, #[trigger] erase_updates(all.subrange(0, j), base, sector)),
{
    assert(all.subrange(0, done.len() as int) =~= done);
    assert(now =~= p0 + reported(total, erase_updates(all.subrange(0, done.len() as int), base, sector)));
}

/// A range erase whose step for `op` was cut short while sending, after
/// the steps for `done` completed, is a cut run of the whole plan.
proof fn lemma_erase_cut(
    a: Addressing,
    done: Seq<(int, bool)>,
    op: (int, bool),
    rest: Seq<(int, bool)>,
    lb: Seq<Txn>,
    l: Seq<Txn>,
)
    requires
        ran(erase_cmds(a, done), lb),
        lb.len() <= l.len(),
        l.subrange(0, lb.len() as int) == lb,
        step_cut(erase_cmd(a, op), l.subrange(lb.len() as int, l.len() as int)),
    ensures
        ran_cut(erase_cmds(a, done + seq![op] + rest), l),
{
    let all = done + seq![op] + rest;
    assert(erase_cmds(a, all).subrange(0, done.len() as int) =~= erase_cmds(a, done));
    assert(erase_cmds(a, all)[done.len() as int] == erase_cmd(a, op));
    lemma_cut_at(erase_cmds(a, all), l, done.len() as int, lb.len() as int);
}

/// A range erase whose step for `op` was cut short while waiting is a
/// cut run of the whole plan.
proof fn lemma_erase_cut_wait(a: Addressing, done: Seq<(int, bool)>, op: (int, bool), rest: Seq<(int, bool)>, l: Seq<Txn>)
    requires
        ran_cut(erase_cmds(a, done).push(erase_cmd(a, op)), l),
    ensures
        ran_cut(erase_cmds(a, done + seq![op] + rest), l),
{
    assert(erase_cmds(a, done + seq![op] + rest) =~= erase_cmds(a, done).push(erase_cmd(a, op)) + erase_cmds(a, rest));
    lemma_cut_append(erase_cmds(a, done).push(erase_cmd(a, op)), erase_cmds(a, rest), l);
}

/// Erase `len` bytes from `start`, rounded up to whole sectors, using
/// 64 KB block erases where the address is 64 KB-aligned and a full
/// block remains, sector erases elsewhere, and waiting for each
/// to finish. Returns the rounded length. `start` must sit on a sector
/// boundary and the range must fit the chip.
pub fn erase_range<T: SpiTransport, P: ProgressSink>(
    spi: &mut T,
    chip: &Chip,
    start: u32,
    len: u32,
    progress: &mut P,
) -> (r: Result<u32>)
    requires
        in_range(start, len as int, chip.size_kb) ==> chip.sector_size > 0,
        in_range(start, len as int, chip.size_kb) && chip.sector_size > 0 && start % chip.sector_size == 0
            ==> start + round_up(len as int, chip.sector_size as int) <= u32::MAX,
    ensures
        !in_range(start, len as int, chip.size_kb) ==> r == Err::<u32, Error>(
            Error::AddressOutOfRange { addr: start, len, chip_size: chip_bytes(chip.size_kb) as u32 },
        ) && final(spi).spi_log() == old(spi).spi_log() && final(progress).progress() == old(progress).progress(),
        in_range(start, len as int, chip.size_kb) && start % chip.sector_size != 0 ==> r == Err::<u32, Error>(
            Error::UnalignedErase { addr: start, sector_size: chip.sector_size },
        ) && final(spi).spi_log() == old(spi).spi_log() && final(progress).progress() == old(progress).progress(),
        in_range(start, len as int, chip.size_kb) && start % chip.sector_size == 0 ==> {
            let s = chip.sector_size as int;
            let ops = erase_ops(start as int, start + round_up(len as int, s), s);
            let cmds = erase_cmds(addressing_spec(chip.size_kb), ops);
            &&& extends(old(spi).spi_log(), final(spi).spi_log())
            &&& steps_answered(old(spi).spi_upcoming(), cmds) ==> r is Ok && final(spi).spi_upcoming() == old(spi).spi_upcoming().skip(
                3 * cmds.len() as int,
            )
            &&& (match r {
                Ok(_) => final(progress).progress() == old(progress).progress() + reported(
                    round_up(len as int, s) as u64,
                    erase_updates(ops, start as int, s),
                ),
                Err(_) => exists|j: int|
                    0 <= j < ops.len() && final(progress).progress() == old(progress).progress() + reported(
                        round_up(len as int, s) as u64,
                        #[trigger] erase_updates(ops.subrange(0, j), start as int, s),
                    ),
            })
            &&& (match r {
                Ok(n) => n == round_up(len as int, chip.sector_size as int) && ran(
                    erase_cmds(addressing_spec(chip.size_kb), erase_ops(start as int, start + n, chip.sector_size as int)),
                    added(old(spi).spi_log(), final(spi).spi_log()),
                ),
                Err(e) => (bus_error(e) || e is Timeout) && len > 0 && ran_cut(
                    erase_cmds(
                        addressing_spec(chip.size_kb),
                        erase_ops(start as int, start + round_up(len as int, chip.sector_size as int), chip.sector_size as int),
                    ),
                    added(old(spi).spi_log(), final(spi).spi_log()),
                ),
            })
        },
{
    let chip_size = chip_size_of(chip);
    if start as u64 + len as u64 > chip_size as u64 {
        return Err(Error::AddressOutOfRange { addr: start, len, chip_size });
    }
    let sector = chip.sector_size;
    if start % sector != 0 {
        return Err(Error::UnalignedErase { addr: start, sector_size: sector });
    }
    let rem = len % sector;
    assert(rem < sector && rem <= len) by (nonlinear_arith)
        requires
            rem == len % sector,
            sector > 0,
    ;
    assert(start + round_up(len as int, sector as int) <= u32::MAX);
    let aligned: u32 = if rem == 0 { len } else { len - rem + sector };
    assert(aligned == round_up(len as int, sector as int));
    assert(aligned > 0 ==> len > 0);
    let end: u64 = start as u64 + aligned as u64;
    let a = addressing_for(chip);
    let ghost p0 = progress.progress();
    progress.start(aligned as u64);
    let ghost l0 = spi.spi_log();
    let ghost u0 = spi.spi_upcoming();
    let ghost mut done: Seq<(int, bool)> = Seq::empty();
    proof {
        assert(u0.skip(0) =~= u0);
        lemma_extends_refl(l0);
        lemma_ran_empty(added(l0, l0));
        assert(erase_cmds(a, done) =~= Seq::<Seq<u8>>::empty());
        assert(done + erase_ops(start as int, end as int, sector as int) =~= erase_ops(start as int, end as int, sector as int));
        assert(progress.progress() =~= p0.push(Progress::Start(aligned as u64)) + erase_updates(done, start as int, sector as int));
    }
    let mut addr: u64 = start as u64;
    while addr < end
        invariant
            l0 == old(spi).spi_log(),
            in_range(start, len as int, chip.size_kb),
            start % chip.sector_size == 0,
            start <= addr,
            end == start + aligned,
            end <= u32::MAX,
            sector == chip.sector_size,
            sector > 0,
            a == addressing_spec(chip.size_kb),
            extends(l0, spi.spi_log()),
            ran(erase_cmds(a, done), added(l0, spi.spi_log())),
            done + erase_ops(addr as int, end as int, sector as int) == erase_ops(start as int, end as int, sector as int),
            aligned == round_up(len as int, sector as int),
            aligned > 0 ==> len > 0,
            p0 == old(progress).progress(),
            progress.progress() == p0.push(Progress::Start(aligned as u64)) + erase_updates(done, start as int, sector as int),
            u0 == old(spi).spi_upcoming(),
            steps_answered(u0, erase_cmds(a, erase_ops(start as int, end as int, sector as int))) ==> {
                &&& steps_answered(spi.spi_upcoming(), erase_cmds(a, erase_ops(addr as int, end as int, sector as int)))
                &&& 3 * done.len() <= u0.len()
                &&& spi.spi_upcoming() == u0.skip(3 * done.len() as int)
            },
        decreases gap(addr as int, end as int),
    {
        let ghost la = spi.spi_log();
        let ghost op: (int, bool);
        let ghost rest: Seq<(int, bool)>;
        if addr % 0x10000 == 0 && end - addr >= 0x10000 {
            proof {
                op = (addr as int, true);
                rest = erase_ops(addr + 0x10000, end as int, sector as int);
                assert(done + seq![op] + rest =~= done + erase_ops(addr as int, end as int, sector as int));
                assert(erase_ops(addr as int, end as int, sector as int) =~= seq![op] + rest);
                assert(erase_cmds(a, seq![op] + rest) =~= seq![erase_cmd(a, op)] + erase_cmds(a, rest));
                if steps_answered(u0, erase_cmds(a, erase_ops(start as int, end as int, sector as int))) {
                    lemma_steps_first(spi.spi_upcoming(), erase_cmds(a, erase_ops(addr as int, end as int, sector as int)));
                    assert((seq![erase_cmd(a, op)] + erase_cmds(a, rest)).drop_first() =~= erase_cmds(a, rest));
                }
            }
            match crate::spi::block_erase_64k(spi, a, addr as u32) {
                Ok(_) => {},
                Err(e) => {
                    proof {
                        lemma_chain(l0, la, spi.spi_log());
                        let l = added(l0, spi.spi_log());
                        assert(l.subrange(0, added(l0, la).len() as int) =~= added(l0, la));
                        assert(l.subrange(added(l0, la).len() as int, l.len() as int) =~= added(la, spi.spi_log()));
                        lemma_erase_cut(a, done, op, rest, added(l0, la), l);
                    }
                    progress.finish();
                    proof {
                        lemma_erase_progress(p0, aligned as u64, erase_ops(start as int, end as int, sector as int), done, op, rest, start as int, sector as int, progress.progress());
                    }
                    return Err(e);
                },
            }
            match wait_step(spi, BLOCK_ERASE_TIMEOUT_MS, Ghost(l0), Ghost(la), Ghost(erase_cmds(a, done)), Ghost(erase_cmd(a, op))) {
                Ok(_) => {},
                Err(e) => {
                    proof {
                        lemma_erase_cut_wait(a, done, op, rest, added(l0, spi.spi_log()));
                    }
                    progress.finish();
                    proof {
                        lemma_erase_progress(p0, aligned as u64, erase_ops(start as int, end as int, sector as int), done, op, rest, start as int, sector as int, progress.progress());
                    }
                    return Err(e);
                },
            }
            proof {
                if steps_answered(u0, erase_cmds(a, erase_ops(start as int, end as int, sector as int))) {
                    assert(u0.skip(3 * done.len() as int).skip(3) =~= u0.skip(3 * (done.len() + 1) as int));
                }
            }
            addr = addr + 0x10000;
        } else {
            proof {
                op = (addr as int, false);
                rest = erase_ops(addr + sector, end as int, sector as int);
                assert(done + seq![op] + rest =~= done + erase_ops(addr as int, end as int, sector as int));
                assert(erase_ops(addr as int, end as int, sector as int) =~= seq![op] + rest);
                assert(erase_cmds(a, seq![op] + rest) =~= seq![erase_cmd(a, op)] + erase_cmds(a, rest));
                if steps_answered(u0, erase_cmds(a, erase_ops(start as int, end as int, sector as int))) {
                    lemma_steps_first(spi.spi_upcoming(), erase_cmds(a, erase_ops(addr as int, end as int, sector as int)));
                    assert((seq![erase_cmd(a, op)] + erase_cmds(a, rest)).drop_first() =~= erase_cmds(a, rest));
                }
            }
            match crate::spi::sector_erase_4k(spi, a, addr as u32) {
                Ok(_) => {},
                Err(e) => {
                    proof {
                        lemma_chain(l0, la, spi.spi_log());
                        let l = added(l0, spi.spi_log());
                        assert(l.subrange(0, added(l0, la).len() as int) =~= added(l0, la));
                        assert(l.subrange(added(l0, la).len() as int, l.len() as int) =~= added(la, spi.spi_log()));
                        lemma_erase_cut(a, done, op, rest, added(l0, la), l);
                    }
                    progress.finish();
                    proof {
                        lemma_erase_progress(p0, aligned as u64, erase_ops(start as int, end as int, sector as int), done, op, rest, start as int, sector as int, progress.progress());
                    }
                    return Err(e);
                },
            }
            match wait_step(spi, SECTOR_ERASE_TIMEOUT_MS, Ghost(l0), Ghost(la), Ghost(erase_cmds(a, done)), Ghost(erase_cmd(a, op))) {
                Ok(_) => {},
                Err(e) => {
                    proof {
                        lemma_erase_cut_wait(a, done, op, rest, added(l0, spi.spi_log()));
                    }
                    progress.finish();
                    proof {
                        lemma_erase_progress(p0, aligned as u64, erase_ops(start as int, end as int, sector as int), done, op, rest, start as int, sector as int, progress.progress());
                    }
                    return Err(e);
                },
            }
            proof {
                if steps_answered(u0, erase_cmds(a, erase_ops(start as int, end as int, sector as int))) {
                    assert(u0.skip(3 * done.len() as int).skip(3) =~= u0.skip(3 * (done.len() + 1) as int));
                }
            }
            addr = addr + sector as u64;
        }
        proof {
            assert(erase_cmds(a, done.push(op)) =~= erase_cmds(a, done).push(erase_cmd(a, op)));
            assert(done.push(op) + erase_ops(addr as int, end as int, sector as int) =~= done + erase_ops(op.0, end as int, sector as int));
            done = done.push(op);
        }
        progress.update(addr - start as u64);
        proof {
            assert(erase_updates(done, start as int, sector as int) =~= erase_updates(done.drop_last(), start as int, sector as int).push(
                Progress::Update((addr - start) as u64),
            ));
        }
    }
    proof {
        assert(done + erase_ops(addr as int, end as int, sector as int) =~= done);
    }
    progress.finish();
    assert(progress.progress() =~= p0 + reported(aligned as u64, erase_updates(done, start as int, sector as int)));
    Ok(aligned)
}

// ---------------------------------------------------------------
// Chunked reads
// ---------------------------------------------------------------

/// The `(address, length)` pieces a read of `[addr, end)` is split into:
/// `chunk` bytes each, the last one shorter.
pub open spec fn read_chunks(addr: int, end: int, chunk: int) -> Seq<(int, int)>
    decreases gap(addr, end),
{
    if addr >= end || chunk <= 0 {
        Seq::empty()
    } else {
        let n = if end - addr < chunk { end - addr } else { chunk };
        seq![(addr, n)] + read_chunks(addr + n, end, chunk)
    }
}

/// `t` is the read-data transaction for piece `c`.
pub open spec fn read_txn(a: Addressing, c: (int, int), t: Txn) -> bool {
    &&& t.0 == read_command(a, c.0 as u32, c.1 as nat)
    &&& t.1.len() == a.header_len() + c.1
}

/// `log` is exactly one read transaction per piece of `chunks`, in order.
pub open spec fn chunked_reads(a: Addressing, chunks: Seq<(int, int)>, log: Seq<Txn>) -> bool {
    &&& log.len() == chunks.len()
    &&& forall|i: int| 0 <= i < log.len() ==> read_txn(a, chunks[i], #[trigger] log[i])
}

/// The data bytes of a run of read transactions (each reply past its
/// `h`-byte command header), concatenated.
pub open spec fn payloads(log: Seq<Txn>, h: int) -> Seq<u8>
    decreases log.len(),
{
    if log.len() == 0 {
        Seq::empty()
    } else {
        payloads(log.drop_last(), h) + log.last().1.subrange(h, log.last().1.len() as int)
    }
}

/// The progress updates of a chunked read from `base`: after each
/// piece, the bytes done so far.
pub open spec fn read_updates(chunks: Seq<(int, int)>, base: int) -> Seq<Progress> {
    chunks.map_values(|c: (int, int)| Progress::Update((c.0 + c.1 - base) as u64))
}

/// A whole run on a progress channel: the start with `total`, the
/// updates, the finish.
pub open spec fn reported(total: u64, updates: Seq<Progress>) -> Seq<Progress> {
    seq![Progress::Start(total)] + updates + seq![Progress::Finish]
}

/// The read commands of a chunked read, one per piece.
pub open spec fn read_cmds(a: Addressing, chunks: Seq<(int, int)>) -> Seq<Seq<u8>> {
    chunks.map_values(|c: (int, int)| read_command(a, c.0 as u32, c.1 as nat))
}

/// One more read transaction extends the run and its data.
proof fn lemma_read_push(a: Addressing, chunks: Seq<(int, int)>, log: Seq<Txn>, c: (int, int), t: Txn)
    requires
        chunked_reads(a, chunks, log),
        read_txn(a, c, t),
    ensures
        chunked_reads(a, chunks.push(c), log.push(t)),
        payloads(log.push(t), a.header_len() as int) == payloads(log, a.header_len() as int) + t.1.subrange(
            a.header_len() as int,
            t.1.len() as int,
        ),
{
    assert(log.push(t).drop_last() =~= log);
    assert forall|i: int| 0 <= i < log.push(t).len() implies read_txn(a, chunks.push(c)[i], #[trigger] log.push(t)[i]) by {
        if i < log.len() {
            assert(log.push(t)[i] == log[i]);
        }
    }
}

/// Read `len` bytes at `start` in 4 KB transactions, appending the data
/// to `out`.
fn read_range<T: SpiTransport, P: ProgressSink>(
    spi: &mut T,
    a: Addressing,
    start: u32,
    len: u32,
    out: &mut Vec<u8>,
    progress: &mut P,
) -> (r: Result<()>)
    requires
        start + len <= u32::MAX,
    ensures
        extends(old(spi).spi_log(), final(spi).spi_log()),
        added(old(spi).spi_log(), final(spi).spi_log()).len() <= read_chunks(start as int, start + len, READ_CHUNK as int).len(),
        final(progress).progress() == old(progress).progress() + read_updates(
            read_chunks(start as int, start + len, READ_CHUNK as int).subrange(0, added(old(spi).spi_log(), final(spi).spi_log()).len() as int),
            start as int,
        ),
        answers(old(spi).spi_upcoming(), read_cmds(a, read_chunks(start as int, start + len, READ_CHUNK as int))) ==> r is Ok && served(
            old(spi).spi_log(),
            old(spi).spi_upcoming(),
            final(spi).spi_log(),
            final(spi).spi_upcoming(),
            read_chunks(start as int, start + len, READ_CHUNK as int).len() as int,
        ),
        (match r {
            Ok(_) => chunked_reads(a, read_chunks(start as int, start + len, READ_CHUNK as int), added(old(spi).spi_log(), final(spi).spi_log()))
                && final(out)@ == old(out)@ + payloads(added(old(spi).spi_log(), final(spi).spi_log()), a.header_len() as int)
                && final(out)@.len() == old(out)@.len() + len,
            Err(e) => {
                let l = added(old(spi).spi_log(), final(spi).spi_log());
                let chunks = read_chunks(start as int, start + len, READ_CHUNK as int);
                &&& bus_error(e)
                &&& len > 0
                &&& l.len() < chunks.len()
                &&& chunked_reads(a, chunks.subrange(0, l.len() as int), l)
            },
        }),
{
    let ghost l0 = spi.spi_log();
    let ghost o0 = out@;
    let ghost p0 = progress.progress();
    let ghost u0 = spi.spi_upcoming();
    let ghost mut done: Seq<(int, int)> = Seq::empty();
    let end: u32 = start + len;
    let ghost plan = read_cmds(a, read_chunks(start as int, start + len, 4096));
    proof {
        lemma_extends_refl(l0);
        crate::spi::lemma_served_none(l0, u0);
        assert(read_updates(done, start as int) =~= Seq::<Progress>::empty());
        assert(progress.progress() =~= p0 + read_updates(done, start as int));
        assert(out@ =~= o0 + payloads(added(l0, l0), a.header_len() as int));
        assert(done + read_chunks(start as int, end as int, 4096) =~= read_chunks(start as int, end as int, 4096));
    }
    let mut addr: u32 = start;
    while addr < end
        invariant
            l0 == old(spi).spi_log(),
            start <= addr <= end,
            end == start + len,
            extends(l0, spi.spi_log()),
            chunked_reads(a, done, added(l0, spi.spi_log())),
            out@ == o0 + payloads(added(l0, spi.spi_log()), a.header_len() as int),
            out@.len() == o0.len() + (addr - start),
            done + read_chunks(addr as int, end as int, 4096) == read_chunks(start as int, end as int, 4096),
            p0 == old(progress).progress(),
            progress.progress() == p0 + read_updates(done, start as int),
            u0 == old(spi).spi_upcoming(),
            plan == read_cmds(a, read_chunks(start as int, end as int, 4096)),
            answers(u0, plan) ==> served(l0, u0, spi.spi_log(), spi.spi_upcoming(), done.len() as int),
        decreases end - addr,
    {
        let n: u32 = if end - addr < READ_CHUNK { end - addr } else { READ_CHUNK };
        let ghost la = spi.spi_log();
        let ghost ua = spi.spi_upcoming();
        proof {
            if answers(u0, plan) {
                let all = read_chunks(start as int, end as int, 4096);
                assert(all[done.len() as int] == (addr as int, n as int)) by {
                    assert((done + read_chunks(addr as int, end as int, 4096))[done.len() as int] == read_chunks(addr as int, end as int, 4096)[0]);
                }
                crate::spi::lemma_answers_at(u0, plan, done.len() as int);
            }
        }
        let data = match crate::spi::read_data(spi, a, addr, n as usize) {
            Ok(d) => d,
            Err(e) => {
                proof {
                    let all = read_chunks(start as int, end as int, 4096);
                    assert(all.subrange(0, done.len() as int) =~= done);
                    assert(all.subrange(0, added(l0, spi.spi_log()).len() as int) =~= done);
                }
                return Err(e);
            },
        };
        let ghost c = (addr as int, n as int);
        proof {
            let lb = spi.spi_log();
            crate::spi::lemma_sends_one(la, lb, read_command(a, addr, n as nat));
            assert(added(l0, lb) =~= added(l0, la).push(lb.last()));
            lemma_chain(l0, la, lb);
            lemma_read_push(a, done, added(l0, la), c, lb.last());
            assert(done.push(c) + read_chunks(addr + n, end as int, 4096) =~= done + read_chunks(addr as int, end as int, 4096));
            assert(done.push(c).drop_last() =~= done);
            if answers(u0, plan) {
                crate::spi::lemma_served_chain(l0, u0, la, ua, lb, spi.spi_upcoming(), done.len() as int, 1);
            }
        }
        crate::bytes::push_all(out, data.as_slice());
        proof {
            done = done.push(c);
        }
        addr = addr + n;
        progress.update((addr - start) as u64);
        proof {
            assert(read_updates(done, start as int) =~= read_updates(done.drop_last(), start as int).push(
                Progress::Update((addr - start) as u64),
            ));
        }
    }
    proof {
        assert(done + read_chunks(addr as int, end as int, 4096) =~= done);
        let all = read_chunks(start as int, end as int, 4096);
        assert(all.subrange(0, done.len() as int) =~= done);
    }
    Ok(())
}

/// Read `len` bytes at `start`, in 4 KB transactions, and return them.
/// The range must fit the chip.
pub fn read<T: SpiTransport, P: ProgressSink>(
    spi: &mut T,
    chip: &Chip,
    start: u32,
    len: u32,
    progress: &mut P,
) -> (r: Result<Vec<u8>>)
    ensures
        !in_range(start, len as int, chip.size_kb) ==> r == Err::<Vec<u8>, Error>(
            Error::AddressOutOfRange { addr: start, len, chip_size: chip_bytes(chip.size_kb) as u32 },
        ) && final(spi).spi_log() == old(spi).spi_log() && final(progress).progress() == old(progress).progress(),
        in_range(start, len as int, chip.size_kb) ==> {
            let l = added(old(spi).spi_log(), final(spi).spi_log());
            let a = addressing_spec(chip.size_kb);
            &&& extends(old(spi).spi_log(), final(spi).spi_log())
            &&& final(progress).progress() == old(progress).progress() + reported(
                len as u64,
                read_updates(read_chunks(start as int, start + len, READ_CHUNK as int).subrange(0, l.len() as int), start as int),
            )
            &&& answers(old(spi).spi_upcoming(), read_cmds(a, read_chunks(start as int, start + len, READ_CHUNK as int))) ==> r is Ok
            &&& (match r {
                Ok(data) => chunked_reads(a, read_chunks(start as int, start + len, READ_CHUNK as int), l)
                    && data@ == payloads(l, a.header_len() as int) && data@.len() == len,
                Err(e) => bus_error(e) && len > 0 && l.len() < read_chunks(start as int, start + len, READ_CHUNK as int).len()
                    && chunked_reads(a, read_chunks(start as int, start + len, READ_CHUNK as int).subrange(0, l.len() as int), l),
            })
        },
{
    let chip_size = chip_size_of(chip);
    if start as u64 + len as u64 > chip_size as u64 {
        return Err(Error::AddressOutOfRange { addr: start, len, chip_size });
    }
    let a = addressing_for(chip);
    progress.start(len as u64);
    let mut out: Vec<u8> = Vec::new();
    let res = read_range(spi, a, start, len, &mut out, progress);
    progress.finish();
    res?;
    assert(out@ =~= payloads(added(old(spi).spi_log(), spi.spi_log()), a.header_len() as int));
    Ok(out)
}

// ---------------------------------------------------------------
// Verify and blank check
// ---------------------------------------------------------------

/// How many positions below `k` hold different bytes in `a` and `b`.
pub open spec fn mismatches(a: Seq<u8>, b: Seq<u8>, k: int) -> nat
    decreases k,
{
    if k <= 0 {
        0
    } else {
        mismatches(a, b, k - 1) + if a[k - 1] != b[k - 1] { 1nat } else { 0nat }
    }
}

/// The first position below `k` where `a` and `b` differ.
pub open spec fn first_mismatch(a: Seq<u8>, b: Seq<u8>, k: int) -> Option<int>
    decreases k,
{
    if k <= 0 {
        None
    } else {
        match first_mismatch(a, b, k - 1) {
            Some(i) => Some(i),
            None => if a[k - 1] != b[k - 1] { Some(k - 1) } else { None },
        }
    }
}

/// No mismatch below `k` means the first `k` bytes agree.
pub proof fn lemma_no_mismatch(a: Seq<u8>, b: Seq<u8>, k: int)
    requires
        0 <= k,
        mismatches(a, b, k) == 0,
    ensures
        forall|i: int| 0 <= i < k ==> a[i] == b[i],
        first_mismatch(a, b, k) is None,
    decreases k,
{
    if k > 0 {
        lemma_no_mismatch(a, b, k - 1);
    }
}

/// The first mismatch below `k` is a position below `k` where the two
/// differ.
pub proof fn lemma_first_some(a: Seq<u8>, b: Seq<u8>, k: int)
    ensures
        first_mismatch(a, b, k) matches Some(i) ==> 0 <= i < k && a[i] != b[i],
    decreases k,
{
    if k > 0 {
        lemma_first_some(a, b, k - 1);
    }
}

/// No first mismatch below `k` means no mismatch at all.
pub proof fn lemma_first_none(a: Seq<u8>, b: Seq<u8>, k: int)
    ensures
        first_mismatch(a, b, k) is None ==> mismatches(a, b, k) == 0,
    decreases k,
{
    if k > 0 {
        lemma_first_none(a, b, k - 1);
    }
}

/// A sequence never differs from itself.
pub proof fn lemma_self_no_mismatch(a: Seq<u8>, k: int)
    ensures
        mismatches(a, a, k) == 0,
    decreases k,
{
    if k > 0 {
        lemma_self_no_mismatch(a, k - 1);
    }
}

/// A read-back comparison counts no mismatch exactly when the read-back
/// equals what was expected: `verify` returning 0 means the chip holds
/// the data.
pub proof fn lemma_clean_iff_equal(expected: Seq<u8>, actual: Seq<u8>)
    requires
        expected.len() == actual.len(),
    ensures
        mismatches(expected, actual, expected.len() as int) == 0 <==> expected == actual,
{
    if mismatches(expected, actual, expected.len() as int) == 0 {
        lemma_no_mismatch(expected, actual, expected.len() as int);
        assert(expected =~= actual);
    }
    if expected == actual {
        lemma_self_no_mismatch(expected, expected.len() as int);
    }
}

/// Outcome of a read-back comparison: how many bytes differ and the
/// first one that does (its chip address, the expected byte, the byte read).
pub struct VerifyReport {
    pub mismatches: usize,
    pub first: Option<(u32, u8, u8)>,
}

/// Read back the `expected.len()` bytes at `start` (4 KB transactions)
/// and compare them with `expected`. The range must fit the chip.
pub fn verify_report<T: SpiTransport, P: ProgressSink>(
    spi: &mut T,
    chip: &Chip,
    expected: &[u8],
    start: u32,
    progress: &mut P,
) -> (r: Result<VerifyReport>)
    requires
        expected@.len() <= u32::MAX,
    ensures
        !in_range(start, expected@.len() as int, chip.size_kb) ==> r == Err::<VerifyReport, Error>(
            Error::AddressOutOfRange { addr: start, len: expected@.len() as u32, chip_size: chip_bytes(chip.size_kb) as u32 },
        ) && final(spi).spi_log() == old(spi).spi_log() && final(progress).progress() == old(progress).progress(),
        in_range(start, expected@.len() as int, chip.size_kb) ==> {
            let l = added(old(spi).spi_log(), final(spi).spi_log());
            let a = addressing_spec(chip.size_kb);
            let actual = payloads(l, a.header_len() as int);
            let n = expected@.len() as int;
            &&& extends(old(spi).spi_log(), final(spi).spi_log())
            &&& final(progress).progress() == old(progress).progress() + reported(
                n as u64,
                read_updates(read_chunks(start as int, start + n, READ_CHUNK as int).subrange(0, l.len() as int), start as int),
            )
            &&& answers(old(spi).spi_upcoming(), read_cmds(a, read_chunks(start as int, start + n, READ_CHUNK as int))) ==> r is Ok
            &&& (match r {
                Ok(rep) => chunked_reads(a, read_chunks(start as int, start + n, READ_CHUNK as int), l)
                    && actual.len() == n
                    && rep.mismatches == mismatches(expected@, actual, n)
                    && (match first_mismatch(expected@, actual, n) {
                        None => rep.first is None,
                        Some(i) => rep.first == Some(((start + i) as u32, expected@[i], actual[i])),
                    }),
                Err(e) => bus_error(e) && n > 0 && l.len() < read_chunks(start as int, start + n, READ_CHUNK as int).len()
                    && chunked_reads(a, read_chunks(start as int, start + n, READ_CHUNK as int).subrange(0, l.len() as int), l),
            })
        },
{
    let chip_size = chip_size_of(chip);
    if start as u64 + expected.len() as u64 > chip_size as u64 {
        return Err(Error::AddressOutOfRange { addr: start, len: expected.len() as u32, chip_size });
    }
    let a = addressing_for(chip);
    let len = expected.len() as u32;
    progress.start(len as u64);
    let mut actual: Vec<u8> = Vec::new();
    let res = read_range(spi, a, start, len, &mut actual, progress);
    if res.is_err() {
        progress.finish();
    }
    res?;
    assert(actual@ =~= payloads(added(old(spi).spi_log(), spi.spi_log()), a.header_len() as int));
    let mut count: usize = 0;
    let mut first: Option<(u32, u8, u8)> = None;
    let mut i: usize = 0;
    while i < expected.len()
        invariant
            i <= expected@.len(),
            actual@.len() == expected@.len(),
            expected@.len() <= u32::MAX,
            start + expected@.len() <= u32::MAX,
            count == mismatches(expected@, actual@, i as int),
            count <= i,
            (match first_mismatch(expected@, actual@, i as int) {
                None => first is None,
                Some(j) => first == Some(((start + j) as u32, expected@[j], actual@[j])),
            }),
        decreases expected@.len() - i,
    {
        if expected[i] != actual[i] {
            count = count + 1;
            if first.is_none() {
                first = Some((start + i as u32, expected[i], actual[i]));
            }
        }
        i = i + 1;
    }
    progress.finish();
    Ok(VerifyReport { mismatches: count, first })
}

/// Read back the `expected.len()` bytes at `start` and count the bytes
/// that differ from `expected` (0 means a clean verify).
pub fn verify<T: SpiTransport, P: ProgressSink>(
    spi: &mut T,
    chip: &Chip,
    expected: &[u8],
    start: u32,
    progress: &mut P,
) -> (r: Result<usize>)
    requires
        expected@.len() <= u32::MAX,
    ensures
        !in_range(start, expected@.len() as int, chip.size_kb) ==> r == Err::<usize, Error>(
            Error::AddressOutOfRange { addr: start, len: expected@.len() as u32, chip_size: chip_bytes(chip.size_kb) as u32 },
        ) && final(spi).spi_log() == old(spi).spi_log() && final(progress).progress() == old(progress).progress(),
        in_range(start, expected@.len() as int, chip.size_kb) ==> {
            let l = added(old(spi).spi_log(), final(spi).spi_log());
            let a = addressing_spec(chip.size_kb);
            let n = expected@.len() as int;
            &&& extends(old(spi).spi_log(), final(spi).spi_log())
            &&& final(progress).progress() == old(progress).progress() + reported(
                n as u64,
                read_updates(read_chunks(start as int, start + n, READ_CHUNK as int).subrange(0, l.len() as int), start as int),
            )
            &&& answers(old(spi).spi_upcoming(), read_cmds(a, read_chunks(start as int, start + n, READ_CHUNK as int))) ==> r is Ok
            &&& (match r {
                Ok(count) => chunked_reads(a, read_chunks(start as int, start + n, READ_CHUNK as int), l)
                    && count == mismatches(expected@, payloads(l, a.header_len() as int), n),
                Err(e) => bus_error(e) && n > 0 && l.len() < read_chunks(start as int, start + n, READ_CHUNK as int).len()
                    && chunked_reads(a, read_chunks(start as int, start + n, READ_CHUNK as int).subrange(0, l.len() as int), l),
            })
        },
{
    match verify_report(spi, chip, expected, start, progress) {
        Ok(rep) => Ok(rep.mismatches),
        Err(e) => Err(e),
    }
}

/// Every byte below `k` is 0xFF.
pub open spec fn all_erased(d: Seq<u8>, k: int) -> bool {
    forall|i: int| 0 <= i < k ==> d[i] == 0xFFu8
}

/// Read the whole chip in 4 KB transactions and check that every byte
/// is 0xFF, stopping at the first that is not
/// ([`Error::NotBlank`] with its address and value).
pub fn blank_check<T: SpiTransport, P: ProgressSink>(spi: &mut T, chip: &Chip, progress: &mut P) -> (r: Result<()>)
    ensures
        ({
            let l = added(old(spi).spi_log(), final(spi).spi_log());
            let a = addressing_spec(chip.size_kb);
            let chunks = read_chunks(0, chip_bytes(chip.size_kb), READ_CHUNK as int);
            let d = payloads(l, a.header_len() as int);
            &&& extends(old(spi).spi_log(), final(spi).spi_log())
            &&& l.len() <= chunks.len()
            &&& chunked_reads(a, chunks.subrange(0, l.len() as int), l)
            &&& (match r {
                Ok(_) => l.len() == chunks.len() && d.len() == chip_bytes(chip.size_kb) && all_erased(d, d.len() as int),
                Err(Error::NotBlank { addr, value }) => addr < d.len() && d[addr as int] == value && value != 0xFFu8
                    && all_erased(d, addr as int) && d.len() - (addr as int) <= READ_CHUNK,
                Err(e) => bus_error(e) && l.len() < chunks.len() && all_erased(d, d.len() as int),
            })
            &&& answers(old(spi).spi_upcoming(), read_cmds(a, chunks)) ==> r is Ok || r->Err_0 is NotBlank
            &&& final(progress).progress() == old(progress).progress() + reported(
                chip_bytes(chip.size_kb) as u64,
                read_updates(chunks.subrange(0, if r is Err && r->Err_0 is NotBlank { l.len() - 1 } else { l.len() as int }), 0),
            )
        }),
{
    let len = chip_size_of(chip);
    let a = addressing_for(chip);
    let ghost h = a.header_len() as int;
    let ghost p0 = progress.progress();
    progress.start(len as u64);
    let ghost l0 = spi.spi_log();
    let ghost mut done: Seq<(int, int)> = Seq::empty();
    let ghost all = read_chunks(0, len as int, 4096);
    let ghost u0 = spi.spi_upcoming();
    let ghost plan = read_cmds(a, all);
    proof {
        lemma_extends_refl(l0);
        crate::spi::lemma_served_none(l0, u0);
        assert(progress.progress() =~= p0.push(Progress::Start(len as u64)) + read_updates(done, 0));
        assert(done + all =~= all);
        assert(payloads(added(l0, l0), h) =~= Seq::<u8>::empty());
    }
    let mut addr: u32 = 0;
    while addr < len
        invariant
            l0 == old(spi).spi_log(),
            len == chip_bytes(chip.size_kb),
            a == addressing_spec(chip.size_kb),
            h == a.header_len(),
            all == read_chunks(0, len as int, 4096),
            addr <= len,
            extends(l0, spi.spi_log()),
            chunked_reads(a, done, added(l0, spi.spi_log())),
            done + read_chunks(addr as int, len as int, 4096) == all,
            payloads(added(l0, spi.spi_log()), h).len() == addr,
            all_erased(payloads(added(l0, spi.spi_log()), h), addr as int),
            p0 == old(progress).progress(),
            progress.progress() == p0.push(Progress::Start(len as u64)) + read_updates(done, 0),
            u0 == old(spi).spi_upcoming(),
            plan == read_cmds(a, all),
            answers(u0, plan) ==> served(l0, u0, spi.spi_log(), spi.spi_upcoming(), done.len() as int),
        decreases len - addr,
    {
        let n: u32 = if len - addr < READ_CHUNK { len - addr } else { READ_CHUNK };
        let ghost la = spi.spi_log();
        let ghost c = (addr as int, n as int);
        let ghost ua = spi.spi_upcoming();
        proof {
            assert(all.subrange(0, done.len() as int) =~= done);
            if answers(u0, plan) {
                assert(all[done.len() as int] == c) by {
                    assert((done + read_chunks(addr as int, len as int, 4096))[done.len() as int] == read_chunks(addr as int, len as int, 4096)[0]);
                }
                crate::spi::lemma_answers_at(u0, plan, done.len() as int);
            }
        }
        let data = match crate::spi::read_data(spi, a, addr, n as usize) {
            Ok(d) => d,
            Err(e) => {
                progress.finish();
                proof {
                    assert(all.subrange(0, added(l0, spi.spi_log()).len() as int) =~= done);
                    assert(progress.progress() =~= p0 + reported(len as u64, read_updates(done, 0)));
                }
                return Err(e);
            },
        };
        let ghost pre = done;
        proof {
            let lb = spi.spi_log();
            crate::spi::lemma_sends_one(la, lb, read_command(a, addr, n as nat));
            assert(added(l0, lb) =~= added(l0, la).push(lb.last()));
            lemma_chain(l0, la, lb);
            lemma_read_push(a, done, added(l0, la), c, lb.last());
            assert(done.push(c) + read_chunks(addr + n, len as int, 4096) =~= done + read_chunks(addr as int, len as int, 4096));
            if answers(u0, plan) {
                crate::spi::lemma_served_chain(l0, u0, la, ua, lb, spi.spi_upcoming(), done.len() as int, 1);
            }
            done = done.push(c);
            assert(all.subrange(0, done.len() as int) =~= done);
            assert(done.len() <= all.len());
        }
        let mut i: usize = 0;
        while i < data.len()
            invariant
                l0 == old(spi).spi_log(),
                len == chip_bytes(chip.size_kb),
                a == addressing_spec(chip.size_kb),
                h == a.header_len(),
                all == read_chunks(0, len as int, 4096),
                extends(l0, spi.spi_log()),
                chunked_reads(a, done, added(l0, spi.spi_log())),
                all.subrange(0, done.len() as int) == done,
                done.len() <= all.len(),
                n <= 4096,
                i <= data@.len(),
                data@.len() == n,
                addr + n <= len,
                p0 == old(progress).progress(),
                progress.progress() == p0.push(Progress::Start(len as u64)) + read_updates(pre, 0),
                done == pre.push(c),
                u0 == old(spi).spi_upcoming(),
                plan == read_cmds(a, all),
                answers(u0, plan) ==> served(l0, u0, spi.spi_log(), spi.spi_upcoming(), done.len() as int),
                payloads(added(l0, spi.spi_log()), h) == payloads(added(l0, la), h) + data@,
                payloads(added(l0, la), h).len() == addr,
                all_erased(payloads(added(l0, la), h), addr as int),
                forall|j: int| 0 <= j < i ==> data@[j] == 0xFFu8,
            decreases data@.len() - i,
        {
            if data[i] != 0xFF {
                let ghost d = payloads(added(l0, spi.spi_log()), h);
                assert(d[addr + i] == data@[i as int]);
                assert(all_erased(d, addr + i)) by {
                    assert forall|j: int| 0 <= j < addr + i implies d[j] == 0xFFu8 by {
                        if j >= addr {
                            assert(d[j] == data@[j - addr]);
                        }
                    }
                }
                progress.finish();
                proof {
                    assert(done.drop_last() =~= pre);
                    assert(all.subrange(0, added(l0, spi.spi_log()).len() - 1) =~= pre);
                    assert(progress.progress() =~= p0 + reported(len as u64, read_updates(pre, 0)));
                }
                return Err(Error::NotBlank { addr: addr + i as u32, value: data[i] });
            }
            i = i + 1;
        }
        proof {
            let d = payloads(added(l0, spi.spi_log()), h);
            assert forall|j: int| 0 <= j < addr + n implies d[j] == 0xFFu8 by {
                if j >= addr {
                    assert(d[j] == data@[j - addr]);
                }
            }
        }
        addr = addr + n;
        progress.update(addr as u64);
        proof {
            assert(read_updates(done, 0) =~= read_updates(pre, 0).push(Progress::Update(addr as u64)));
        }
    }
    proof {
        assert(done + read_chunks(addr as int, len as int, 4096) =~= done);
        assert(all.subrange(0, done.len() as int) =~= done);
    }
    progress.finish();
    proof {
        assert(progress.progress() =~= p0 + reported(len as u64, read_updates(done, 0)));
    }
    Ok(())
}

// ---------------------------------------------------------------
// Write
// ---------------------------------------------------------------

/// The page programs [`write`] issues for `data` at `addr`, in order:
/// each piece runs up to the next `page`-byte boundary or the end of the
/// data, whichever comes first.
pub open spec fn program_chunks(addr: int, data: Seq<u8>, page: int) -> Seq<(int, Seq<u8>)>
    decreases data.len(),
{
    if data.len() == 0 || page <= 0 {
        Seq::empty()
    } else {
        let room = page - addr % page;
        let n = if data.len() < room { data.len() as int } else { room };
        seq![(addr, data.take(n))] + program_chunks(addr + n, data.skip(n), page)
    }
}

/// The page-program commands for a list of pieces.
pub open spec fn program_cmds(a: Addressing, chunks: Seq<(int, Seq<u8>)>) -> Seq<Seq<u8>> {
    chunks.map_values(|c: (int, Seq<u8>)| crate::spi::program_command(a, c.0 as u32, c.1))
}

/// Every command [`write`] issues, in order: the range erase when asked
/// for, then the page programs.
pub open spec fn write_cmds(chip: Chip, start: u32, data: Seq<u8>, erase: bool) -> Seq<Seq<u8>> {
    let a = addressing_spec(chip.size_kb);
    let s = chip.sector_size as int;
    (if erase {
        erase_cmds(a, erase_ops(start as int, start + round_up(data.len() as int, s), s))
    } else {
        Seq::empty()
    }) + program_cmds(a, program_chunks(start as int, data, chip.page_size as int))
}

/// A write whose page program for `c` was cut short while sending,
/// after `cmds` and the programs for `done` completed, is a cut run of
/// the whole plan.
proof fn lemma_program_cut(
    a: Addressing,
    cmds: Seq<Seq<u8>>,
    done: Seq<(int, Seq<u8>)>,
    c: (int, Seq<u8>),
    rest: Seq<(int, Seq<u8>)>,
    lb: Seq<Txn>,
    l: Seq<Txn>,
)
    requires
        ran(cmds + program_cmds(a, done), lb),
        lb.len() <= l.len(),
        l.subrange(0, lb.len() as int) == lb,
        step_cut(crate::spi::program_command(a, c.0 as u32, c.1), l.subrange(lb.len() as int, l.len() as int)),
    ensures
        ran_cut(cmds + program_cmds(a, done + seq![c] + rest), l),
{
    let all = cmds + program_cmds(a, done + seq![c] + rest);
    let j = cmds.len() + done.len();
    assert(all.subrange(0, j as int) =~= cmds + program_cmds(a, done));
    assert(all[j as int] == crate::spi::program_command(a, c.0 as u32, c.1));
    lemma_cut_at(all, l, j as int, lb.len() as int);
}

/// A write whose page program for `c` was cut short while waiting is a
/// cut run of the whole plan.
proof fn lemma_program_cut_wait(
    a: Addressing,
    cmds: Seq<Seq<u8>>,
    done: Seq<(int, Seq<u8>)>,
    c: (int, Seq<u8>),
    rest: Seq<(int, Seq<u8>)>,
    l: Seq<Txn>,
)
    requires
        ran_cut((cmds + program_cmds(a, done)).push(crate::spi::program_command(a, c.0 as u32, c.1)), l),
    ensures
        ran_cut(cmds + program_cmds(a, done + seq![c] + rest), l),
{
    let head = (cmds + program_cmds(a, done)).push(crate::spi::program_command(a, c.0 as u32, c.1));
    assert(cmds + program_cmds(a, done + seq![c] + rest) =~= head + program_cmds(a, rest));
    lemma_cut_append(head, program_cmds(a, rest), l);
}

/// The progress updates of a write from `base`: after each page
/// program, the bytes written so far.
pub open spec fn program_updates(chunks: Seq<(int, Seq<u8>)>, base: int) -> Seq<Progress> {
    chunks.map_values(|c: (int, Seq<u8>)| Progress::Update((c.0 + c.1.len() - base) as u64))
}

/// What [`write`] reports when it runs to the end: the range erase's
/// run when asked for, the programming run, then the read-back's run
/// when asked for.
pub open spec fn write_progress(chip: Chip, start: u32, data: Seq<u8>, erase: bool, verify_after: bool) -> Seq<Progress> {
    let s = chip.sector_size as int;
    let n = data.len() as u64;
    let e = round_up(data.len() as int, s);
    (if erase {
        reported(e as u64, erase_updates(erase_ops(start as int, start + e, s), start as int, s))
    } else {
        Seq::empty()
    }) + reported(n, program_updates(program_chunks(start as int, data, chip.page_size as int), start as int)) + (if verify_after {
        reported(n, read_updates(read_chunks(start as int, start + data.len(), READ_CHUNK as int), start as int))
    } else {
        Seq::empty()
    })
}

/// `after` is `before` followed by whole runs: what was added begins
/// with a start and ends with a finish.
pub open spec fn finished_runs(before: Seq<Progress>, after: Seq<Progress>) -> bool {
    &&& after.len() >= before.len() + 2
    &&& after.subrange(0, before.len() as int) == before
    &&& after[before.len() as int] is Start
    &&& after.last() is Finish
}

/// Runs that follow runs (or nothing) are whole runs.
proof fn lemma_finished_runs(before: Seq<Progress>, extra: Seq<Progress>, total: u64, ups: Seq<Progress>)
    requires
        extra.len() == 0 || extra[0] is Start,
    ensures
        finished_runs(before, before + extra + reported(total, ups)),
{
    let after = before + extra + reported(total, ups);
    assert(after.subrange(0, before.len() as int) =~= before);
    if extra.len() == 0 {
        assert(after[before.len() as int] == reported(total, ups)[0]);
    } else {
        assert(after[before.len() as int] == extra[0]);
    }
}

/// Number of read transactions a read-back of `data` at `start` takes.
pub open spec fn readback_len(start: u32, data: Seq<u8>) -> int {
    read_chunks(start as int, start + data.len(), READ_CHUNK as int).len() as int
}

/// Program `data` at `start` page by page, never crossing a page
/// boundary, waiting for each program to finish. With `erase`, the
/// range is first erased (rounded up to whole sectors; `start` must be
/// sector-aligned). With `verify_after`, the range is read back and any
/// difference fails with [`Error::VerifyFailed`]. The range must fit
/// the chip.
#[verifier::spinoff_prover]
#[verifier::rlimit(50)]
pub fn write<T: SpiTransport, P: ProgressSink>(
    spi: &mut T,
    chip: &Chip,
    data: &[u8],
    start: u32,
    erase: bool,
    verify_after: bool,
    progress: &mut P,
) -> (r: Result<()>)
    requires
        data@.len() <= u32::MAX,
        data@.len() + 5 <= usize::MAX,
        in_range(start, data@.len() as int, chip.size_kb) && data@.len() > 0 ==> chip.page_size > 0,
        in_range(start, data@.len() as int, chip.size_kb) && erase ==> chip.sector_size > 0,
        in_range(start, data@.len() as int, chip.size_kb) && erase && chip.sector_size > 0 && start % chip.sector_size == 0
            ==> start + round_up(data@.len() as int, chip.sector_size as int) <= u32::MAX,
    ensures
        !in_range(start, data@.len() as int, chip.size_kb) ==> r == Err::<(), Error>(
            Error::AddressOutOfRange { addr: start, len: data@.len() as u32, chip_size: chip_bytes(chip.size_kb) as u32 },
        ) && final(spi).spi_log() == old(spi).spi_log() && final(progress).progress() == old(progress).progress(),
        in_range(start, data@.len() as int, chip.size_kb) && erase && start % chip.sector_size != 0 ==> r == Err::<(), Error>(
            Error::UnalignedErase { addr: start, sector_size: chip.sector_size },
        ) && final(spi).spi_log() == old(spi).spi_log() && final(progress).progress() == old(progress).progress(),
        in_range(start, data@.len() as int, chip.size_kb) && (erase ==> start % chip.sector_size == 0) ==> {
            let cmds = write_cmds(*chip, start, data@, erase);
            let reads = read_cmds(addressing_spec(chip.size_kb), read_chunks(start as int, start + data@.len(), READ_CHUNK as int));
            &&& steps_answered(old(spi).spi_upcoming(), cmds) && (verify_after ==> answers(
                old(spi).spi_upcoming().skip(3 * cmds.len() as int),
                reads,
            )) ==> r is Ok || r->Err_0 is VerifyFailed
            &&& (match r {
                Ok(_) => final(progress).progress() == old(progress).progress() + write_progress(*chip, start, data@, erase, verify_after),
                Err(Error::VerifyFailed { .. }) => final(progress).progress() == old(progress).progress() + write_progress(
                    *chip,
                    start,
                    data@,
                    erase,
                    verify_after,
                ),
                Err(_) => finished_runs(old(progress).progress(), final(progress).progress()),
            })
        },
        in_range(start, data@.len() as int, chip.size_kb) && (erase ==> start % chip.sector_size == 0) ==> {
            let l = added(old(spi).spi_log(), final(spi).spi_log());
            let a = addressing_spec(chip.size_kb);
            let k = if verify_after { readback_len(start, data@) } else { 0 };
            let back = l.subrange(l.len() - k, l.len() as int);
            let done_ok = k <= l.len() && ran(write_cmds(*chip, start, data@, erase), l.subrange(0, l.len() - k))
                && (verify_after ==> chunked_reads(a, read_chunks(start as int, start + data@.len(), READ_CHUNK as int), back));
            &&& extends(old(spi).spi_log(), final(spi).spi_log())
            &&& (match r {
                Ok(_) => done_ok && (verify_after ==> payloads(back, a.header_len() as int) == data@),
                Err(Error::VerifyFailed { addr, expected, actual }) => verify_after && done_ok
                    && payloads(back, a.header_len() as int) != data@ && (first_mismatch(
                    data@,
                    payloads(back, a.header_len() as int),
                    data@.len() as int,
                ) matches Some(i) && addr == (start + i) as u32 && expected == data@[i] && actual == payloads(
                    back,
                    a.header_len() as int,
                )[i]),
                Err(e) => (bus_error(e) || e is Timeout) && data@.len() > 0 && (ran_cut(write_cmds(*chip, start, data@, erase), l)
                    || (verify_after && exists|m: int|
                        0 <= m <= l.len() && #[trigger] ran(write_cmds(*chip, start, data@, erase), l.subrange(0, m))
                            && l.len() - m < read_chunks(start as int, start + data@.len(), READ_CHUNK as int).len()
                            && chunked_reads(
                                a,
                                read_chunks(start as int, start + data@.len(), READ_CHUNK as int).subrange(0, l.len() - m),
                                l.subrange(m, l.len() as int),
                            ))),
            })
        },
{
    let chip_size = chip_size_of(chip);
    if start as u64 + data.len() as u64 > chip_size as u64 {
        return Err(Error::AddressOutOfRange { addr: start, len: data.len() as u32, chip_size });
    }
    let a = addressing_for(chip);
    let ghost l0 = spi.spi_log();
    let ghost p0 = progress.progress();
    let ghost u0 = spi.spi_upcoming();
    let ghost all_cmds = write_cmds(*chip, start, data@, erase);
    let ghost ecmds: Seq<Seq<u8>> = if erase {
        erase_cmds(a, erase_ops(start as int, start + round_up(data@.len() as int, chip.sector_size as int), chip.sector_size as int))
    } else {
        Seq::empty()
    };
    let ghost pcmds = program_cmds(a, program_chunks(start as int, data@, chip.page_size as int));
    proof {
        assert(all_cmds == ecmds + pcmds);
        if steps_answered(u0, all_cmds) {
            lemma_steps_split(u0, ecmds, pcmds);
        }
    }
    let ghost mut cmds: Seq<Seq<u8>> = Seq::empty();
    let ghost s = chip.sector_size as int;
    let ghost erase_part: Seq<Progress> = if erase {
        reported(
            round_up(data@.len() as int, s) as u64,
            erase_updates(erase_ops(start as int, start + round_up(data@.len() as int, s), s), start as int, s),
        )
    } else {
        Seq::empty()
    };
    proof {
        lemma_extends_refl(l0);
        lemma_ran_empty(added(l0, l0));
    }
    if erase {
        let n = match erase_range(spi, chip, start, data.len() as u32, progress) {
            Ok(n) => n,
            Err(e) => {
                proof {
                    if start % chip.sector_size == 0 {
                        let j = choose|j: int|
                            0 <= j < erase_ops(start as int, start + round_up(data@.len() as int, s), s).len()
                                && progress.progress() == p0 + reported(
                                    round_up(data@.len() as int, s) as u64,
                                    #[trigger] erase_updates(erase_ops(start as int, start + round_up(data@.len() as int, s), s).subrange(0, j), start as int, s),
                                );
                        lemma_finished_runs(
                            p0,
                            Seq::empty(),
                            round_up(data@.len() as int, s) as u64,
                            erase_updates(erase_ops(start as int, start + round_up(data@.len() as int, s), s).subrange(0, j), start as int, s),
                        );
                        assert(p0 + Seq::<Progress>::empty() =~= p0);
                        lemma_cut_append(
                            erase_cmds(a, erase_ops(start as int, start + round_up(data@.len() as int, chip.sector_size as int), chip.sector_size as int)),
                            program_cmds(a, program_chunks(start as int, data@, chip.page_size as int)),
                            added(l0, spi.spi_log()),
                        );
                    }
                }
                return Err(e);
            },
        };
        proof {
            cmds = erase_cmds(a, erase_ops(start as int, start + n, chip.sector_size as int));
        }
    }
    assert(cmds == (if erase {
        erase_cmds(a, erase_ops(start as int, start + round_up(data@.len() as int, chip.sector_size as int), chip.sector_size as int))
    } else {
        Seq::<Seq<u8>>::empty()
    }));
    let ghost pe = progress.progress();
    assert(pe == p0 + erase_part);
    proof {
        if !erase {
            assert(u0.skip(0) =~= u0);
        }
        assert(data@.skip(0) =~= data@);
    }
    progress.start(data.len() as u64);
    let page = chip.page_size;
    let mut written: usize = 0;
    let ghost mut done: Seq<(int, Seq<u8>)> = Seq::empty();
    proof {
        assert(cmds + program_cmds(a, done) =~= cmds);
        assert(data@.skip(0) =~= data@);
        assert(done + program_chunks(start as int, data@, page as int) =~= program_chunks(start as int, data@, page as int));
        assert(progress.progress() =~= pe.push(Progress::Start(data@.len() as u64)) + program_updates(done, start as int));
    }
    while written < data.len()
        invariant
            l0 == old(spi).spi_log(),
            p0 == old(progress).progress(),
            pe == p0 + erase_part,
            u0 == old(spi).spi_upcoming(),
            all_cmds == write_cmds(*chip, start, data@, erase),
            all_cmds == cmds + pcmds,
            pcmds == program_cmds(a, program_chunks(start as int, data@, page as int)),
            steps_answered(u0, all_cmds) ==> {
                &&& steps_answered(spi.spi_upcoming(), program_cmds(a, program_chunks(start + written, data@.skip(written as int), page as int)))
                &&& 3 * (cmds.len() + done.len()) <= u0.len()
                &&& spi.spi_upcoming() == u0.skip(3 * (cmds.len() + done.len()) as int)
            },
            erase_part.len() == 0 || erase_part[0] is Start,
            progress.progress() == pe.push(Progress::Start(data@.len() as u64)) + program_updates(done, start as int),
            a == addressing_spec(chip.size_kb),
            in_range(start, data@.len() as int, chip.size_kb),
            erase ==> start % chip.sector_size == 0,
            cmds == (if erase {
                erase_cmds(a, erase_ops(start as int, start + round_up(data@.len() as int, chip.sector_size as int), chip.sector_size as int))
            } else {
                Seq::<Seq<u8>>::empty()
            }),
            data@.len() + 5 <= usize::MAX,
            page == chip.page_size,
            data@.len() > 0 ==> page > 0,
            start + data@.len() <= u32::MAX,
            written <= data@.len(),
            extends(l0, spi.spi_log()),
            ran(cmds + program_cmds(a, done), added(l0, spi.spi_log())),
            done + program_chunks(start + written, data@.skip(written as int), page as int) == program_chunks(
                start as int,
                data@,
                page as int,
            ),
        decreases data@.len() - written,
    {
        let addr: u32 = start + written as u32;
        let room: u32 = page - addr % page;
        let rest: usize = data.len() - written;
        let chunk_len: usize = if rest < room as usize { rest } else { room as usize };
        let chunk = vstd::slice::slice_subrange(data, written, written + chunk_len);
        let ghost la = spi.spi_log();
        let ghost c = (addr as int, chunk@);
        let ghost rest = program_chunks(addr + chunk_len, data@.skip(written + chunk_len), page as int);
        proof {
            let rest_s = data@.skip(written as int);
            assert(rest_s.take(chunk_len as int) =~= chunk@);
            assert(rest_s.skip(chunk_len as int) =~= data@.skip(written + chunk_len));
            assert(done + seq![c] + rest =~= done + program_chunks(start + written, rest_s, page as int));
            assert(cmds + program_cmds(a, done + seq![c] + rest) == write_cmds(*chip, start, data@, erase));
            assert(program_chunks(start + written, rest_s, page as int) =~= seq![c] + rest);
            assert(program_cmds(a, seq![c] + rest) =~= seq![crate::spi::program_command(a, addr, chunk@)] + program_cmds(a, rest));
            if steps_answered(u0, all_cmds) {
                lemma_steps_first(spi.spi_upcoming(), program_cmds(a, seq![c] + rest));
                assert((seq![crate::spi::program_command(a, addr, chunk@)] + program_cmds(a, rest)).drop_first() =~= program_cmds(a, rest));
            }
        }
        match crate::spi::page_program(spi, a, addr, chunk, page) {
            Ok(_) => {},
            Err(e) => {
                proof {
                    lemma_chain(l0, la, spi.spi_log());
                    let l = added(l0, spi.spi_log());
                    assert(l.subrange(0, added(l0, la).len() as int) =~= added(l0, la));
                    assert(l.subrange(added(l0, la).len() as int, l.len() as int) =~= added(la, spi.spi_log()));
                    lemma_program_cut(a, cmds, done, c, rest, added(l0, la), l);
                }
                progress.finish();
                proof {
                    assert(progress.progress() =~= p0 + erase_part + reported(data@.len() as u64, program_updates(done, start as int)));
                    lemma_finished_runs(p0, erase_part, data@.len() as u64, program_updates(done, start as int));
                }
                return Err(e);
            },
        }
        match wait_step(
            spi,
            PAGE_PROGRAM_TIMEOUT_MS,
            Ghost(l0),
            Ghost(la),
            Ghost(cmds + program_cmds(a, done)),
            Ghost(crate::spi::program_command(a, addr, chunk@)),
        ) {
            Ok(_) => {},
            Err(e) => {
                proof {
                    lemma_program_cut_wait(a, cmds, done, c, rest, added(l0, spi.spi_log()));
                }
                progress.finish();
                proof {
                    assert(progress.progress() =~= p0 + erase_part + reported(data@.len() as u64, program_updates(done, start as int)));
                    lemma_finished_runs(p0, erase_part, data@.len() as u64, program_updates(done, start as int));
                }
                return Err(e);
            },
        }
        proof {
            let rest_s = data@.skip(written as int);
            assert(rest_s.take(chunk_len as int) =~= chunk@);
            assert(rest_s.skip(chunk_len as int) =~= data@.skip(written + chunk_len));
            assert(done.push(c) + program_chunks(addr + chunk_len, data@.skip(written + chunk_len), page as int)
                =~= done + program_chunks(start + written, rest_s, page as int));
            assert(program_cmds(a, done.push(c)) =~= program_cmds(a, done).push(crate::spi::program_command(a, addr, chunk@)));
            assert((cmds + program_cmds(a, done)).push(crate::spi::program_command(a, addr, chunk@)) =~= cmds + program_cmds(a, done.push(c)));
            done = done.push(c);
        }
        proof {
            if steps_answered(u0, all_cmds) {
                assert(u0.skip(3 * (cmds.len() + done.len() - 1) as int).skip(3) =~= u0.skip(3 * (cmds.len() + done.len()) as int));
            }
        }
        written = written + chunk_len;
        progress.update(written as u64);
        proof {
            assert(program_updates(done, start as int) =~= program_updates(done.drop_last(), start as int).push(
                Progress::Update(written as u64),
            ));
        }
    }
    proof {
        assert(data@.skip(written as int).len() == 0);
        assert(done + program_chunks(start + written, data@.skip(written as int), page as int) =~= done);
        assert(cmds + program_cmds(a, done) == write_cmds(*chip, start, data@, erase));
    }
    progress.finish();
    let ghost pw = progress.progress();
    proof {
        assert(done =~= program_chunks(start as int, data@, page as int));
        assert(pw =~= p0 + erase_part + reported(data@.len() as u64, program_updates(done, start as int)));
        lemma_finished_runs(p0, erase_part, data@.len() as u64, program_updates(done, start as int));
        if !verify_after {
            assert(write_progress(*chip, start, data@, erase, verify_after) =~= erase_part + reported(
                data@.len() as u64,
                program_updates(done, start as int),
            ));
        }
    }
    let ghost lw = spi.spi_log();
    proof {
        assert(added(l0, lw).subrange(0, added(l0, lw).len() as int) =~= added(l0, lw));
    }
    if verify_after {
        let rep = match verify_report(spi, chip, data, start, progress) {
            Ok(rep) => rep,
            Err(e) => {
                proof {
                    let lv = spi.spi_log();
                    lemma_chain(l0, lw, lv);
                    let l = added(l0, lv);
                    let m = added(l0, lw).len() as int;
                    assert(l.subrange(0, m) =~= added(l0, lw));
                    assert(l.subrange(m, l.len() as int) =~= added(lw, lv));
                    assert(ran(write_cmds(*chip, start, data@, erase), l.subrange(0, m)));
                    let ups = read_updates(
                        read_chunks(start as int, start + data@.len(), READ_CHUNK as int).subrange(0, added(lw, lv).len() as int),
                        start as int,
                    );
                    assert(progress.progress() =~= p0 + (erase_part + reported(data@.len() as u64, program_updates(done, start as int)))
                        + reported(data@.len() as u64, ups));
                    lemma_finished_runs(
                        p0,
                        erase_part + reported(data@.len() as u64, program_updates(done, start as int)),
                        data@.len() as u64,
                        ups,
                    );
                }
                return Err(e);
            },
        };
        proof {
            let lv = spi.spi_log();
            lemma_chain(l0, lw, lv);
            let l = added(l0, lv);
            let k = added(lw, lv).len() as int;
            assert(k == readback_len(start, data@));
            assert(l.subrange(0, l.len() - k) =~= added(l0, lw));
            assert(l.subrange(l.len() - k, l.len() as int) =~= added(lw, lv));
            lemma_self_no_mismatch(data@, data@.len() as int);
            lemma_first_none(data@, payloads(added(lw, lv), a.header_len() as int), data@.len() as int);
            lemma_first_some(data@, payloads(added(lw, lv), a.header_len() as int), data@.len() as int);
            if rep.first is None {
                lemma_no_mismatch(data@, payloads(added(lw, lv), a.header_len() as int), data@.len() as int);
                assert(payloads(added(lw, lv), a.header_len() as int) =~= data@);
            }
            let rc = read_chunks(start as int, start + data@.len(), READ_CHUNK as int);
            assert(rc.subrange(0, added(lw, lv).len() as int) =~= rc);
            assert(progress.progress() =~= p0 + write_progress(*chip, start, data@, erase, verify_after));
        }
        match rep.first {
            Some((addr, expected, actual)) => {
                return Err(Error::VerifyFailed { addr, expected, actual });
            },
            None => {},
        }
    }
    Ok(())
}

// ---------------------------------------------------------------
// Laws of the operation plans
// ---------------------------------------------------------------

/// The data of a list of pieces, concatenated in order.
pub open spec fn joined(chunks: Seq<(int, Seq<u8>)>) -> Seq<u8>
    decreases chunks.len(),
{
    if chunks.len() == 0 {
        Seq::empty()
    } else {
        chunks[0].1 + joined(chunks.drop_first())
    }
}

/// A write never programs across a page boundary and programs exactly
/// the data it was given: its page programs are non-empty, each stays
/// inside one page, they follow each other without gap from `addr`,
/// and their data, concatenated, is `data`.
pub proof fn lemma_program_chunks(addr: int, data: Seq<u8>, page: int)
    requires
        page > 0,
    ensures
        joined(program_chunks(addr, data, page)) == data,
        program_chunks(addr, data, page).len() > 0 ==> program_chunks(addr, data, page)[0].0 == addr,
        forall|i: int|
            0 <= i < program_chunks(addr, data, page).len() ==> (#[trigger] program_chunks(addr, data, page)[i]).1.len() > 0
                && program_chunks(addr, data, page)[i].0 % page + program_chunks(addr, data, page)[i].1.len() <= page,
        forall|i: int|
            0 < i < program_chunks(addr, data, page).len() ==> (#[trigger] program_chunks(addr, data, page)[i]).0
                == program_chunks(addr, data, page)[i - 1].0 + program_chunks(addr, data, page)[i - 1].1.len(),
    decreases data.len(),
{
    let cs = program_chunks(addr, data, page);
    if data.len() > 0 {
        let room = page - addr % page;
        let n = if data.len() < room { data.len() as int } else { room };
        let rest = program_chunks(addr + n, data.skip(n), page);
        lemma_program_chunks(addr + n, data.skip(n), page);
        assert(cs == seq![(addr, data.take(n))] + rest);
        assert(cs.drop_first() =~= rest);
        assert(data.take(n) + data.skip(n) =~= data);
        assert forall|i: int| 0 < i < cs.len() implies (#[trigger] cs[i]).0 == cs[i - 1].0 + cs[i - 1].1.len() by {
            assert(cs[i] == rest[i - 1]);
            if i > 1 {
                assert(cs[i - 1] == rest[i - 2]);
            }
        }
        assert forall|i: int| 0 <= i < cs.len() implies (#[trigger] cs[i]).1.len() > 0 && cs[i].0 % page + cs[i].1.len() <= page by {
            if i > 0 {
                assert(cs[i] == rest[i - 1]);
            }
        }
    } else {
        assert(joined(cs) =~= data);
    }
}

/// A range erase covers what it was asked to, in order and without
/// gaps: its erases start at `addr`, each begins where the previous one
/// ended and before `end`, the last reaches `end` or beyond, and a 64 KB
/// block erase is used exactly where the address is 64 KB-aligned and at
/// least 64 KB remain.
pub proof fn lemma_erase_ops_cover(addr: int, end: int, sector: int)
    requires
        sector > 0,
    ensures
        addr < end ==> erase_ops(addr, end, sector).len() > 0 && erase_ops(addr, end, sector)[0].0 == addr
            && erase_ops(addr, end, sector).last().0 + op_len(erase_ops(addr, end, sector).last(), sector) >= end,
        addr >= end ==> erase_ops(addr, end, sector).len() == 0,
        forall|i: int|
            0 <= i < erase_ops(addr, end, sector).len() ==> addr <= (#[trigger] erase_ops(addr, end, sector)[i]).0 < end
                && (erase_ops(addr, end, sector)[i].1 <==> (erase_ops(addr, end, sector)[i].0 % 0x10000 == 0
                    && end - erase_ops(addr, end, sector)[i].0 >= 0x10000)),
        forall|i: int|
            0 < i < erase_ops(addr, end, sector).len() ==> (#[trigger] erase_ops(addr, end, sector)[i]).0
                == erase_ops(addr, end, sector)[i - 1].0 + op_len(erase_ops(addr, end, sector)[i - 1], sector),
    decreases gap(addr, end),
{
    let ops = erase_ops(addr, end, sector);
    if addr < end {
        let blk = addr % 0x10000 == 0 && end - addr >= 0x10000;
        let step = if blk { 0x10000 } else { sector };
        let rest = erase_ops(addr + step, end, sector);
        lemma_erase_ops_cover(addr + step, end, sector);
        assert(ops == seq![(addr, blk)] + rest);
        assert forall|i: int| 0 < i < ops.len() implies (#[trigger] ops[i]).0 == ops[i - 1].0 + op_len(ops[i - 1], sector) by {
            assert(ops[i] == rest[i - 1]);
            if i > 1 {
                assert(ops[i - 1] == rest[i - 2]);
            }
        }
        assert forall|i: int| 0 <= i < ops.len() implies addr <= (#[trigger] ops[i]).0 < end && (ops[i].1 <==> (
        ops[i].0 % 0x10000 == 0 && end - ops[i].0 >= 0x10000)) by {
            if i > 0 {
                assert(ops[i] == rest[i - 1]);
            }
        }
        if rest.len() > 0 {
            assert(ops.last() == rest.last());
        }
    }
}

/// A chunked read asks for exactly its range: pieces of at most `chunk`
/// bytes, none empty, starting at `addr`, each beginning where the
/// previous one ended, the last ending at `end`.
pub proof fn lemma_read_chunks_cover(addr: int, end: int, chunk: int)
    requires
        chunk > 0,
    ensures
        addr < end ==> read_chunks(addr, end, chunk).len() > 0 && read_chunks(addr, end, chunk)[0].0 == addr
            && read_chunks(addr, end, chunk).last().0 + read_chunks(addr, end, chunk).last().1 == end,
        addr >= end ==> read_chunks(addr, end, chunk).len() == 0,
        forall|i: int|
            0 <= i < read_chunks(addr, end, chunk).len() ==> 0 < (#[trigger] read_chunks(addr, end, chunk)[i]).1 <= chunk,
        forall|i: int|
            0 < i < read_chunks(addr, end, chunk).len() ==> (#[trigger] read_chunks(addr, end, chunk)[i]).0
                == read_chunks(addr, end, chunk)[i - 1].0 + read_chunks(addr, end, chunk)[i - 1].1,
    decreases gap(addr, end),
{
    let cs = read_chunks(addr, end, chunk);
    if addr < end {
        let n = if end - addr < chunk { end - addr } else { chunk };
        let rest = read_chunks(addr + n, end, chunk);
        lemma_read_chunks_cover(addr + n, end, chunk);
        assert(cs == seq![(addr, n)] + rest);
        assert forall|i: int| 0 < i < cs.len() implies (#[trigger] cs[i]).0 == cs[i - 1].0 + cs[i - 1].1 by {
            assert(cs[i] == rest[i - 1]);
            if i > 1 {
                assert(cs[i - 1] == rest[i - 2]);
            }
        }
        assert forall|i: int| 0 <= i < cs.len() implies 0 < (#[trigger] cs[i]).1 <= chunk by {
            if i > 0 {
                assert(cs[i] == rest[i - 1]);
            }
        }
        if rest.len() > 0 {
            assert(cs.last() == rest.last());
        }
    }
}

// ---------------------------------------------------------------
// Small formatting helpers for reports
// ---------------------------------------------------------------

/// `'1'` for a set bit, `'0'` for a clear one.
pub fn bit(b: bool) -> (r: char)
    ensures
        r == (if b { '1' } else { '0' }),
{
    if b { '1' } else { '0' }
}

/// A byte count in the largest whole binary unit: `"<n> MB"` from 1 MiB,
/// `"<n> KB"` from 1 KiB, else `"<n> B"` (rounded down).
pub open spec fn human_size_spec(n: nat) -> Seq<char> {
    if n >= 1048576 {
        crate::text::dec(n / 1048576) + " MB"@
    } else if n >= 1024 {
        crate::text::dec(n / 1024) + " KB"@
    } else {
        crate::text::dec(n) + " B"@
    }
}

/// Render a byte count as `"<n> MB"`, `"<n> KB"` or `"<n> B"`.
pub fn human_size(n: u64) -> (r: String)
    ensures
        r@ == human_size_spec(n as nat),
{
    let mut s = if n >= 1048576 {
        crate::text::dec_string(n / 1048576)
    } else if n >= 1024 {
        crate::text::dec_string(n / 1024)
    } else {
        crate::text::dec_string(n)
    };
    if n >= 1048576 {
        s.append(" MB");
    } else if n >= 1024 {
        s.append(" KB");
    } else {
        s.append(" B");
    }
    s
}

} // verus!
