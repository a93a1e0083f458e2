//! High-level I²C EEPROM operations: chip resolution, bus scan, read,
//! write, verify, blank check and erase. Reads go in 256-byte blocks,
//! each split by [`crate::i2c::read`] into bus-sized pieces.
use crate::chipdb::{same_i2c_chip, I2cChip, I2cChipDb};
use crate::error::{bus_error, Error, Result};
use crate::i2c::{
    addressable, fits, gained, gap, grows, i2c_answers, lemma_grows_chain, lemma_grows_refl, pieces, read_back, read_plan,
    reads_of, write_plan, KnownTransfer,
    write_events, write_pieces, joined, I2cEvent, I2cTransport, MAX_READ_CHUNK, MAX_WRITE_DATA_PER_TXN,
};
use crate::ops::{mismatches, read_updates, reported, Progress, ProgressSink};
use crate::text::eq_ignore_case;
use vstd::prelude::*;
use vstd::string::*;

verus! {

/// Bytes per read block.
pub const READ_CHUNK_BYTES: u32 = 256;

/// The bus pieces a read of `[addr, end)` uses: 256-byte blocks, each
/// split into [`MAX_READ_CHUNK`]-byte transactions.
pub open spec fn block_pieces(addr: int, end: int) -> Seq<(int, int)>
    decreases gap(addr, end),
{
    if addr >= end {
        Seq::empty()
    } else {
        let n = if end - addr < 256 { end - addr } else { 256 };
        pieces(addr, addr + n, MAX_READ_CHUNK as int) + block_pieces(addr + n, end)
    }
}

/// The 256-byte blocks of a read of `[addr, end)`, as (address, length).
pub open spec fn blocks(addr: int, end: int) -> Seq<(int, int)> {
    pieces(addr, end, READ_CHUNK_BYTES as int)
}

/// The progress updates after the first `k` blocks of a read of
/// `[addr, end)`: the bytes done after each.
pub open spec fn block_updates(addr: int, end: int, k: int) -> Seq<Progress> {
    read_updates(blocks(addr, end).subrange(0, k), addr)
}

/// Known answers for a read of `done + block + rest` cover the `block`
/// part once the `done` part is handled.
proof fn lemma_plan_middle(
    up: Seq<KnownTransfer>,
    chip: I2cChip,
    pin_straps: u8,
    done: Seq<(int, int)>,
    block: Seq<(int, int)>,
    rest: Seq<(int, int)>,
)
    requires
        i2c_answers(up, read_plan(chip, pin_straps, done + block + rest)),
    ensures
        done.len() + block.len() <= up.len(),
        i2c_answers(up.skip(done.len() as int), read_plan(chip, pin_straps, block)),
{
    let pd = read_plan(chip, pin_straps, done);
    let pb = read_plan(chip, pin_straps, block);
    let pr = read_plan(chip, pin_straps, rest);
    assert(read_plan(chip, pin_straps, done + block + rest) =~= pd + (pb + pr));
    crate::i2c::lemma_i2c_answers_split(up, pd, pb + pr);
    crate::i2c::lemma_i2c_answers_split(up.skip(done.len() as int), pb, pr);
}

/// Runs of read events concatenate.
pub proof fn lemma_reads_concat(
    chip: I2cChip,
    pin_straps: u8,
    p1: Seq<(int, int)>,
    l1: Seq<I2cEvent>,
    p2: Seq<(int, int)>,
    l2: Seq<I2cEvent>,
)
    requires
        reads_of(chip, pin_straps, p1, l1),
        reads_of(chip, pin_straps, p2, l2),
    ensures
        reads_of(chip, pin_straps, p1 + p2, l1 + l2),
        read_back(l1 + l2) == read_back(l1) + read_back(l2),
    decreases l2.len(),
{
    assert forall|i: int| 0 <= i < (l1 + l2).len() implies crate::i2c::read_event(chip, pin_straps, (p1 + p2)[i], #[trigger] (l1 + l2)[i]) by {
        if i < l1.len() {
            assert((l1 + l2)[i] == l1[i]);
            assert((p1 + p2)[i] == p1[i]);
        } else {
            assert((l1 + l2)[i] == l2[i - l1.len()]);
            assert((p1 + p2)[i] == p2[i - p1.len()]);
        }
    }
    if l2.len() == 0 {
        assert(l1 + l2 =~= l1);
        assert(read_back(l2) =~= Seq::<u8>::empty());
        assert(read_back(l1) + read_back(l2) =~= read_back(l1));
    } else {
        let p2d = p2.drop_last();
        let l2d = l2.drop_last();
        assert forall|i: int| 0 <= i < l2d.len() implies crate::i2c::read_event(chip, pin_straps, p2d[i], #[trigger] l2d[i]) by {
            assert(l2d[i] == l2[i]);
        }
        lemma_reads_concat(chip, pin_straps, p1, l1, p2d, l2d);
        assert((l1 + l2).drop_last() =~= l1 + l2d);
        assert((l1 + l2).last() == l2.last());
    }
}

/// Look up an I²C chip by name (ASCII case ignored); there is no id to
/// probe on I²C, so the choice is always explicit.
pub fn resolve_chip(db: &I2cChipDb, name: &str) -> (r: Result<I2cChip>)
    ensures
        (match r {
            Ok(c) => exists|i: int| 0 <= i < db.entries().len() && same_i2c_chip(c, db.entries()[i])
                && eq_ignore_case(db.entries()[i].name@, name@)
                && forall|j: int| 0 <= j < i ==> !eq_ignore_case(#[trigger] db.entries()[j].name@, name@),
            Err(e) => (forall|i: int| 0 <= i < db.entries().len() ==> !eq_ignore_case(#[trigger] db.entries()[i].name@, name@))
                && (e matches Error::ChipNotRecognized(s) && s@ == name@),
        }),
{
    match db.find_by_name(name) {
        Some(c) => Ok(c.clone_chip()),
        None => Err(Error::ChipNotRecognized(String::from_str(name))),
    }
}

/// Probe the whole non-reserved 7-bit range, 0x08 to 0x77, and return
/// the addresses that acknowledged.
pub fn scan<T: I2cTransport>(bus: &mut T) -> (r: Result<Vec<u8>>)
    ensures
        grows(old(bus).i2c_log(), final(bus).i2c_log()),
        ({
            let l = gained(old(bus).i2c_log(), final(bus).i2c_log());
            &&& forall|i: int| 0 <= i < l.len() ==> crate::i2c::probe_of(#[trigger] l[i], 0x08 + i)
            &&& (match r {
                Ok(hits) => l.len() == 0x70 && hits@ == crate::i2c::acked(l),
                Err(e) => bus_error(e) && l.len() < 0x70,
            })
        }),
        old(bus).i2c_probes_answered() ==> r is Ok,
{
    crate::i2c::scan(bus, 0x08, 0x77)
}

/// Read `[mem_addr, mem_addr + len)` block by block, appending to `out`.
fn read_blocks<T: I2cTransport, P: ProgressSink>(
    bus: &mut T,
    chip: &I2cChip,
    mem_addr: u32,
    len: u32,
    pin_straps: u8,
    out: &mut Vec<u8>,
    progress: &mut P,
) -> (r: Result<()>)
    requires
        fits(mem_addr, len as int, *chip),
        len > 0 ==> addressable(*chip),
    ensures
        ({
            let l = gained(old(bus).i2c_log(), final(bus).i2c_log());
            let all = block_pieces(mem_addr as int, mem_addr + len);
            &&& grows(old(bus).i2c_log(), final(bus).i2c_log())
            &&& l.len() <= all.len()
            &&& reads_of(*chip, pin_straps, all.subrange(0, l.len() as int), l)
            &&& (match r {
                Ok(_) => l.len() == all.len() && final(out)@ == old(out)@ + read_back(l) && final(out)@.len() == old(out)@.len() + len,
                Err(e) => bus_error(e) && len > 0 && l.len() < all.len(),
            })
        }),
        r is Ok ==> final(progress).progress() == old(progress).progress() + block_updates(
            mem_addr as int,
            mem_addr + len,
            blocks(mem_addr as int, mem_addr + len).len() as int,
        ),
        i2c_answers(old(bus).i2c_upcoming(), read_plan(*chip, pin_straps, block_pieces(mem_addr as int, mem_addr + len))) ==> r is Ok
            && final(bus).i2c_upcoming() == old(bus).i2c_upcoming().skip(block_pieces(mem_addr as int, mem_addr + len).len() as int),
        final(bus).i2c_probes_answered() == old(bus).i2c_probes_answered(),
        r is Err ==> exists|k: int|
            0 <= k < blocks(mem_addr as int, mem_addr + len).len() && final(progress).progress() == old(progress).progress()
                + #[trigger] block_updates(mem_addr as int, mem_addr + len, k),
{
    let end: u32 = mem_addr + len;
    let ghost p0 = progress.progress();
    let ghost bl = blocks(mem_addr as int, end as int);
    let ghost mut bdone: Seq<(int, int)> = Seq::empty();
    let ghost l0 = bus.i2c_log();
    let ghost o0 = out@;
    let ghost all = block_pieces(mem_addr as int, end as int);
    let ghost u0 = bus.i2c_upcoming();
    let ghost mut done: Seq<(int, int)> = Seq::empty();
    proof {
        lemma_grows_refl(l0);
        assert(done + all =~= all);
        assert(out@ =~= o0 + read_back(gained(l0, l0)));
        assert(all.subrange(0, 0) =~= done);
        assert(u0.skip(0) =~= u0);
        assert(bdone + bl =~= bl);
        assert(progress.progress() =~= p0 + read_updates(bdone, mem_addr as int));
    }
    let mut addr: u32 = mem_addr;
    while addr < end
        invariant
            l0 == old(bus).i2c_log(),
            p0 == old(progress).progress(),
            bl == blocks(mem_addr as int, end as int),
            bdone + pieces(addr as int, end as int, 256) == bl,
            progress.progress() == p0 + read_updates(bdone, mem_addr as int),
            o0 == old(out)@,
            all == block_pieces(mem_addr as int, end as int),
            fits(mem_addr, len as int, *chip),
            len > 0 ==> addressable(*chip),
            mem_addr <= addr <= end,
            end == mem_addr + len,
            grows(l0, bus.i2c_log()),
            reads_of(*chip, pin_straps, done, gained(l0, bus.i2c_log())),
            done + block_pieces(addr as int, end as int) == all,
            out@ == o0 + read_back(gained(l0, bus.i2c_log())),
            out@.len() == o0.len() + (addr - mem_addr),
            u0 == old(bus).i2c_upcoming(),
            bus.i2c_probes_answered() == old(bus).i2c_probes_answered(),
            i2c_answers(u0, read_plan(*chip, pin_straps, all)) ==> done.len() <= u0.len() && bus.i2c_upcoming() == u0.skip(
                done.len() as int,
            ),
        decreases end - addr,
    {
        let n: u32 = if end - addr < READ_CHUNK_BYTES { end - addr } else { READ_CHUNK_BYTES };
        let ghost la = bus.i2c_log();
        let ghost block = pieces(addr as int, addr + n, 20);
        proof {
            assert(done + block + block_pieces(addr + n, end as int) =~= done + block_pieces(addr as int, end as int));
            if i2c_answers(u0, read_plan(*chip, pin_straps, all)) {
                lemma_plan_middle(u0, *chip, pin_straps, done, block, block_pieces(addr + n, end as int));
            }
        }
        let res = crate::i2c::read(bus, chip, addr, n, pin_straps);
        proof {
            let lb = bus.i2c_log();
            let lblk = gained(la, lb);
            lemma_grows_chain(l0, la, lb);
            assert(block.subrange(0, lblk.len() as int).len() == lblk.len());
            lemma_reads_concat(*chip, pin_straps, done, gained(l0, la), block.subrange(0, lblk.len() as int), lblk);
            assert(all.subrange(0, (done + block.subrange(0, lblk.len() as int)).len() as int) =~= done + block.subrange(0, lblk.len() as int));
        }
        match res {
            Ok(data) => {
                proof {
                    assert(block.subrange(0, block.len() as int) =~= block);
                    if i2c_answers(u0, read_plan(*chip, pin_straps, all)) {
                        assert(u0.skip(done.len() as int).skip(block.len() as int) =~= u0.skip((done + block).len() as int));
                    }
                    done = done + block;
                }
                crate::bytes::push_all(out, data.as_slice());
            },
            Err(e) => {
                proof {
                    assert(all.subrange(0, gained(l0, bus.i2c_log()).len() as int) =~= done + block.subrange(0, gained(la, bus.i2c_log()).len() as int));
                    assert(bl.subrange(0, bdone.len() as int) =~= bdone);
                    assert(block_updates(mem_addr as int, end as int, bdone.len() as int) == read_updates(bdone, mem_addr as int));
                }
                return Err(e);
            },
        }
        let ghost bc = (addr as int, n as int);
        proof {
            assert(bdone.push(bc) + pieces(addr + n, end as int, 256) =~= bdone + pieces(addr as int, end as int, 256));
            bdone = bdone.push(bc);
        }
        addr = addr + n;
        progress.update((addr - mem_addr) as u64);
        proof {
            assert(read_updates(bdone, mem_addr as int) =~= read_updates(bdone.drop_last(), mem_addr as int).push(
                Progress::Update((addr - mem_addr) as u64),
            ));
        }
    }
    proof {
        assert(done + block_pieces(addr as int, end as int) =~= done);
        assert(all.subrange(0, done.len() as int) =~= all);
        assert(bdone + pieces(addr as int, end as int, 256) =~= bdone);
        assert(bl.subrange(0, bl.len() as int) =~= bl);
    }
    Ok(())
}

/// A block read splits into its first 256-byte block and the rest: the
/// events of reading `[addr, end)` are those [`crate::i2c::read`] logs
/// for the block at `addr`, then those of reading the rest, and the bytes
/// read back are the block's bytes followed by the rest's. So the data
/// [`read_bytes`] returns is the blocks' reads, concatenated in order.
pub proof fn lemma_read_bytes_blocks(chip: I2cChip, pin_straps: u8, addr: int, end: int, l: Seq<I2cEvent>)
    requires
        addr < end,
        reads_of(chip, pin_straps, block_pieces(addr, end), l),
    ensures
        ({
            let n = if end - addr < 256 { end - addr } else { 256 };
            let k = pieces(addr, addr + n, MAX_READ_CHUNK as int).len() as int;
            &&& k <= l.len()
            &&& reads_of(chip, pin_straps, pieces(addr, addr + n, MAX_READ_CHUNK as int), l.take(k))
            &&& reads_of(chip, pin_straps, block_pieces(addr + n, end), l.skip(k))
            &&& read_back(l) == read_back(l.take(k)) + read_back(l.skip(k))
        }),
{
    let n = if end - addr < 256 { end - addr } else { 256 };
    let b = pieces(addr, addr + n, MAX_READ_CHUNK as int);
    let rest = block_pieces(addr + n, end);
    let k = b.len() as int;
    assert(block_pieces(addr, end) == b + rest);
    let l1 = l.take(k);
    let l2 = l.skip(k);
    assert forall|i: int| 0 <= i < l1.len() implies crate::i2c::read_event(chip, pin_straps, b[i], #[trigger] l1[i]) by {
        assert(l1[i] == l[i]);
        assert((b + rest)[i] == b[i]);
    }
    assert forall|i: int| 0 <= i < l2.len() implies crate::i2c::read_event(chip, pin_straps, rest[i], #[trigger] l2[i]) by {
        assert(l2[i] == l[k + i]);
        assert((b + rest)[k + i] == rest[i]);
    }
    lemma_reads_concat(chip, pin_straps, b, l1, rest, l2);
    assert(l1 + l2 =~= l);
}

/// Read `len` bytes at `mem_addr` into memory. The range must fit the
/// chip.
pub fn read_bytes<T: I2cTransport, P: ProgressSink>(
    bus: &mut T,
    chip: &I2cChip,
    mem_addr: u32,
    len: u32,
    pin_straps: u8,
    progress: &mut P,
) -> (r: Result<Vec<u8>>)
    requires
        fits(mem_addr, len as int, *chip) && len > 0 ==> addressable(*chip),
    ensures
        !fits(mem_addr, len as int, *chip) ==> r == Err::<Vec<u8>, Error>(
            Error::AddressOutOfRange { addr: mem_addr, len, chip_size: chip.size_bytes },
        ) && final(bus).i2c_log() == old(bus).i2c_log() && final(progress).progress() == old(progress).progress(),
        fits(mem_addr, len as int, *chip) ==> {
            let l = gained(old(bus).i2c_log(), final(bus).i2c_log());
            let all = block_pieces(mem_addr as int, mem_addr + len);
            &&& grows(old(bus).i2c_log(), final(bus).i2c_log())
            &&& i2c_answers(old(bus).i2c_upcoming(), read_plan(*chip, pin_straps, all)) ==> r is Ok
            &&& r is Ok ==> final(progress).progress() == old(progress).progress() + reported(
                len as u64,
                block_updates(mem_addr as int, mem_addr + len, blocks(mem_addr as int, mem_addr + len).len() as int),
            )
            &&& r is Err ==> exists|k: int|
                0 <= k < blocks(mem_addr as int, mem_addr + len).len() && final(progress).progress() == old(progress).progress() + reported(
                    len as u64,
                    #[trigger] block_updates(mem_addr as int, mem_addr + len, k),
                )
            &&& l.len() <= all.len()
            &&& reads_of(*chip, pin_straps, all.subrange(0, l.len() as int), l)
            &&& (match r {
                Ok(data) => l.len() == all.len() && data@ == read_back(l) && data@.len() == len,
                Err(e) => bus_error(e) && len > 0 && l.len() < all.len(),
            })
        },
{
    if mem_addr as u64 + len as u64 > chip.size_bytes as u64 {
        return Err(Error::AddressOutOfRange { addr: mem_addr, len, chip_size: chip.size_bytes });
    }
    progress.start(len as u64);
    let mut buf: Vec<u8> = Vec::new();
    let res = read_blocks(bus, chip, mem_addr, len, pin_straps, &mut buf, progress);
    progress.finish();
    res?;
    assert(buf@ =~= read_back(gained(old(bus).i2c_log(), bus.i2c_log())));
    Ok(buf)
}

/// What a write of `data` at `mem_addr` through [`write`] does, given
/// the bus log before (`log0`) and after (`log1`), what the bus was known
/// to answer (`up0`), and the progress record before (`p0`) and after
/// (`p1`): a range past the chip is refused before anything is sent;
/// otherwise the page writes and their waits go out in order, all of
/// them on success and a first part of them on a bus error, the call
/// succeeds when the bus answers them all, and the progress channel
/// gets a start, an update to the full length on success, and a finish.
pub open spec fn write_outcome(
    chip: I2cChip,
    mem_addr: u32,
    data: Seq<u8>,
    pin_straps: u8,
    log0: Seq<I2cEvent>,
    log1: Seq<I2cEvent>,
    up0: Seq<KnownTransfer>,
    p0: Seq<Progress>,
    p1: Seq<Progress>,
    r: Result<()>,
) -> bool {
    let ps = write_pieces(mem_addr as int, data, chip.page_size as int);
    let full = write_events(chip, pin_straps, ps);
    let l = gained(log0, log1);
    &&& !fits(mem_addr, data.len() as int, chip) ==> r == Err::<(), Error>(
        Error::AddressOutOfRange { addr: mem_addr, len: data.len() as u32, chip_size: chip.size_bytes },
    ) && log1 == log0
    &&& fits(mem_addr, data.len() as int, chip) ==> {
        &&& grows(log0, log1)
        &&& i2c_answers(up0, write_plan(chip, pin_straps, ps)) ==> r is Ok
        &&& (match r {
            Ok(_) => l == full,
            Err(e) => bus_error(e) && data.len() > 0 && l.len() < full.len() && l == full.subrange(0, l.len() as int),
        })
    }
    &&& r is Ok ==> p1 == p0 + reported(data.len() as u64, seq![Progress::Update(data.len() as u64)])
    &&& r is Err ==> p1 == p0 + reported(data.len() as u64, Seq::empty())
}

/// `n` bytes of 0xFF, the contents of an erased EEPROM.
pub open spec fn blank(n: nat) -> Seq<u8> {
    Seq::new(n, |_i: int| 0xFFu8)
}

/// Erasing an EEPROM writes 0xFF and nothing else: every byte of every
/// page write of blank data is 0xFF, the page writes start at the start
/// address and follow each other without gap, and together they carry
/// exactly as many bytes as were asked for.
pub proof fn lemma_blank_pieces(addr: int, n: nat, page: int)
    requires
        page > 0,
    ensures
        forall|i: int, j: int|
            0 <= i < write_pieces(addr, blank(n), page).len() && 0 <= j < write_pieces(addr, blank(n), page)[i].1.len()
                ==> #[trigger] write_pieces(addr, blank(n), page)[i].1[j] == 0xFFu8,
        write_pieces(addr, blank(n), page).len() > 0 ==> write_pieces(addr, blank(n), page)[0].0 == addr,
        forall|i: int|
            0 < i < write_pieces(addr, blank(n), page).len() ==> (#[trigger] write_pieces(addr, blank(n), page)[i]).0
                == write_pieces(addr, blank(n), page)[i - 1].0 + write_pieces(addr, blank(n), page)[i - 1].1.len(),
        joined(write_pieces(addr, blank(n), page)).len() == n,
    decreases n,
{
    crate::i2c::lemma_write_pieces(addr, blank(n), page);
    let ps = write_pieces(addr, blank(n), page);
    if n > 0 {
        let d = blank(n);
        let room = page - addr % page;
        let a = if d.len() < room { d.len() as int } else { room };
        let k = if a < MAX_WRITE_DATA_PER_TXN { a } else { MAX_WRITE_DATA_PER_TXN as int };
        assert(d.skip(k) =~= blank((n - k) as nat));
        lemma_blank_pieces(addr + k, (n - k) as nat, page);
        let rest = write_pieces(addr + k, blank((n - k) as nat), page);
        assert(ps == seq![(addr, d.take(k))] + rest);
        assert forall|i: int, j: int| 0 <= i < ps.len() && 0 <= j < ps[i].1.len() implies #[trigger] ps[i].1[j] == 0xFFu8 by {
            if i > 0 {
                assert(ps[i] == rest[i - 1]);
            }
        }
    }
}

/// Write `data` at `mem_addr` (see [`crate::i2c::write`] for how it is
/// split and paced), reporting progress.
pub fn write<T: I2cTransport, P: ProgressSink>(
    bus: &mut T,
    chip: &I2cChip,
    mem_addr: u32,
    data: &[u8],
    pin_straps: u8,
    progress: &mut P,
) -> (r: Result<()>)
    requires
        data@.len() <= u32::MAX,
        fits(mem_addr, data@.len() as int, *chip) && data@.len() > 0 ==> addressable(*chip) && chip.page_size > 0,
    ensures
        write_outcome(
            *chip,
            mem_addr,
            data@,
            pin_straps,
            old(bus).i2c_log(),
            final(bus).i2c_log(),
            old(bus).i2c_upcoming(),
            old(progress).progress(),
            final(progress).progress(),
            r,
        ),
{
    let ghost p0 = progress.progress();
    progress.start(data.len() as u64);
    match crate::i2c::write(bus, chip, mem_addr, data, pin_straps) {
        Ok(_) => {},
        Err(e) => {
            progress.finish();
            assert(progress.progress() =~= p0 + reported(data@.len() as u64, Seq::empty()));
            return Err(e);
        },
    }
    progress.update(data.len() as u64);
    progress.finish();
    assert(progress.progress() =~= p0 + reported(data@.len() as u64, seq![Progress::Update(data@.len() as u64)]));
    Ok(())
}

/// Outcome of an EEPROM read-back comparison: how many bytes differ and
/// the first (up to) five of them as (address, expected, read).
pub struct I2cVerifyReport {
    pub mismatches: u32,
    pub samples: Vec<(u32, u8, u8)>,
}

/// The first `k` differing positions below `n`, ascending.
pub open spec fn mismatch_positions(a: Seq<u8>, b: Seq<u8>, n: int) -> Seq<int>
    decreases n,
{
    if n <= 0 {
        Seq::empty()
    } else if a[n - 1] != b[n - 1] {
        mismatch_positions(a, b, n - 1).push(n - 1)
    } else {
        mismatch_positions(a, b, n - 1)
    }
}

/// Differing positions and the count agree.
proof fn lemma_positions_len(a: Seq<u8>, b: Seq<u8>, n: int)
    ensures
        mismatch_positions(a, b, n).len() == mismatches(a, b, n),
    decreases n,
{
    if n > 0 {
        lemma_positions_len(a, b, n - 1);
    }
}

/// Read back the range covered by `expected` at `mem_addr` and compare.
/// The range must fit the chip.
pub fn verify_report<T: I2cTransport, P: ProgressSink>(
    bus: &mut T,
    chip: &I2cChip,
    expected: &[u8],
    mem_addr: u32,
    pin_straps: u8,
    progress: &mut P,
) -> (r: Result<I2cVerifyReport>)
    requires
        expected@.len() <= u32::MAX,
        fits(mem_addr, expected@.len() as int, *chip) && expected@.len() > 0 ==> addressable(*chip),
    ensures
        !fits(mem_addr, expected@.len() as int, *chip) ==> r == Err::<I2cVerifyReport, Error>(
            Error::AddressOutOfRange { addr: mem_addr, len: expected@.len() as u32, chip_size: chip.size_bytes },
        ) && final(bus).i2c_log() == old(bus).i2c_log() && final(progress).progress() == old(progress).progress(),
        fits(mem_addr, expected@.len() as int, *chip) ==> {
            let l = gained(old(bus).i2c_log(), final(bus).i2c_log());
            let all = block_pieces(mem_addr as int, mem_addr + expected@.len());
            let n = expected@.len() as int;
            let got = read_back(l);
            let pos = mismatch_positions(expected@, got, n);
            &&& grows(old(bus).i2c_log(), final(bus).i2c_log())
            &&& i2c_answers(old(bus).i2c_upcoming(), read_plan(*chip, pin_straps, all)) ==> r is Ok
            &&& r is Ok ==> final(progress).progress() == old(progress).progress() + reported(
                n as u64,
                block_updates(mem_addr as int, mem_addr + n, blocks(mem_addr as int, mem_addr + n).len() as int),
            )
            &&& r is Err ==> exists|k: int|
                0 <= k < blocks(mem_addr as int, mem_addr + n).len() && final(progress).progress() == old(progress).progress() + reported(
                    n as u64,
                    #[trigger] block_updates(mem_addr as int, mem_addr + n, k),
                )
            &&& l.len() <= all.len()
            &&& reads_of(*chip, pin_straps, all.subrange(0, l.len() as int), l)
            &&& (match r {
                Ok(rep) => l.len() == all.len() && got.len() == n && rep.mismatches == mismatches(expected@, got, n)
                    && rep.samples@.len() == (if pos.len() < 5 { pos.len() } else { 5 })
                    && forall|k: int| 0 <= k < rep.samples@.len() ==> #[trigger] rep.samples@[k] == (
                        (mem_addr + pos[k]) as u32,
                        expected@[pos[k]],
                        got[pos[k]],
                    ),
                Err(e) => bus_error(e) && n > 0 && l.len() < all.len(),
            })
        },
{
    let len = expected.len() as u32;
    if mem_addr as u64 + len as u64 > chip.size_bytes as u64 {
        return Err(Error::AddressOutOfRange { addr: mem_addr, len, chip_size: chip.size_bytes });
    }
    progress.start(len as u64);
    let mut got: Vec<u8> = Vec::new();
    let res = read_blocks(bus, chip, mem_addr, len, pin_straps, &mut got, progress);
    if res.is_err() {
        progress.finish();
    }
    res?;
    assert(got@ =~= read_back(gained(old(bus).i2c_log(), bus.i2c_log())));
    let mut count: u32 = 0;
    let mut samples: Vec<(u32, u8, u8)> = Vec::new();
    let mut i: usize = 0;
    while i < expected.len()
        invariant
            i <= expected@.len(),
            got@.len() == expected@.len(),
            mem_addr + expected@.len() <= u32::MAX,
            expected@.len() <= u32::MAX,
            count == mismatches(expected@, got@, i as int),
            count <= i,
            samples@.len() == (if mismatch_positions(expected@, got@, i as int).len() < 5 {
                mismatch_positions(expected@, got@, i as int).len()
            } else {
                5
            }),
            forall|k: int| 0 <= k < samples@.len() ==> #[trigger] samples@[k] == (
                (mem_addr + mismatch_positions(expected@, got@, i as int)[k]) as u32,
                expected@[mismatch_positions(expected@, got@, i as int)[k]],
                got@[mismatch_positions(expected@, got@, i as int)[k]],
            ),
        decreases expected@.len() - i,
    {
        proof {
            lemma_positions_len(expected@, got@, i as int);
            lemma_positions_len(expected@, got@, i as int + 1);
        }
        if expected[i] != got[i] {
            count = count + 1;
            if samples.len() < 5 {
                samples.push((mem_addr + i as u32, expected[i], got[i]));
            }
        }
        proof {
            let p0 = mismatch_positions(expected@, got@, i as int);
            let p1 = mismatch_positions(expected@, got@, i as int + 1);
            assert forall|k: int| 0 <= k < p0.len() implies p1[k] == p0[k] by {
            }
        }
        i = i + 1;
    }
    progress.finish();
    Ok(I2cVerifyReport { mismatches: count, samples })
}

/// Read back the range covered by `expected` and count the bytes that
/// differ (0 means a clean verify).
pub fn verify<T: I2cTransport, P: ProgressSink>(
    bus: &mut T,
    chip: &I2cChip,
    expected: &[u8],
    mem_addr: u32,
    pin_straps: u8,
    progress: &mut P,
) -> (r: Result<u32>)
    requires
        expected@.len() <= u32::MAX,
        fits(mem_addr, expected@.len() as int, *chip) && expected@.len() > 0 ==> addressable(*chip),
    ensures
        !fits(mem_addr, expected@.len() as int, *chip) ==> r == Err::<u32, Error>(
            Error::AddressOutOfRange { addr: mem_addr, len: expected@.len() as u32, chip_size: chip.size_bytes },
        ) && final(bus).i2c_log() == old(bus).i2c_log() && final(progress).progress() == old(progress).progress(),
        fits(mem_addr, expected@.len() as int, *chip) ==> {
            let l = gained(old(bus).i2c_log(), final(bus).i2c_log());
            let all = block_pieces(mem_addr as int, mem_addr + expected@.len());
            &&& grows(old(bus).i2c_log(), final(bus).i2c_log())
            &&& i2c_answers(old(bus).i2c_upcoming(), read_plan(*chip, pin_straps, all)) ==> r is Ok
            &&& r is Ok ==> final(progress).progress() == old(progress).progress() + reported(
                expected@.len() as u64,
                block_updates(mem_addr as int, mem_addr + expected@.len(), blocks(mem_addr as int, mem_addr + expected@.len()).len() as int),
            )
            &&& r is Err ==> exists|k: int|
                0 <= k < blocks(mem_addr as int, mem_addr + expected@.len()).len() && final(progress).progress() == old(progress).progress() + reported(
                    expected@.len() as u64,
                    #[trigger] block_updates(mem_addr as int, mem_addr + expected@.len(), k),
                )
            &&& l.len() <= all.len()
            &&& reads_of(*chip, pin_straps, all.subrange(0, l.len() as int), l)
            &&& (match r {
                Ok(count) => l.len() == all.len() && count == mismatches(expected@, read_back(l), expected@.len() as int),
                Err(e) => bus_error(e) && expected@.len() > 0 && l.len() < all.len(),
            })
        },
{
    match verify_report(bus, chip, expected, mem_addr, pin_straps, progress) {
        Ok(rep) => Ok(rep.mismatches),
        Err(e) => Err(e),
    }
}

/// Every byte below `k` is 0xFF.
pub open spec fn all_erased(d: Seq<u8>, k: int) -> bool {
    forall|i: int| 0 <= i < k ==> d[i] == 0xFFu8
}

/// Read the whole EEPROM block by block and check that every byte is
/// 0xFF, stopping at the first block holding one that is not
/// ([`Error::NotBlank`] with its address and value).
pub fn blank_check<T: I2cTransport, P: ProgressSink>(bus: &mut T, chip: &I2cChip, pin_straps: u8, progress: &mut P) -> (r: Result<()>)
    requires
        chip.size_bytes > 0 ==> addressable(*chip),
    ensures
        ({
            let l = gained(old(bus).i2c_log(), final(bus).i2c_log());
            let all = block_pieces(0, chip.size_bytes as int);
            let d = read_back(l);
            &&& grows(old(bus).i2c_log(), final(bus).i2c_log())
            &&& i2c_answers(old(bus).i2c_upcoming(), read_plan(*chip, pin_straps, all)) ==> r is Ok || r->Err_0 is NotBlank
            &&& l.len() <= all.len()
            &&& reads_of(*chip, pin_straps, all.subrange(0, l.len() as int), l)
            &&& (match r {
                Ok(_) => l.len() == all.len() && d.len() == chip.size_bytes && all_erased(d, d.len() as int),
                Err(Error::NotBlank { addr, value }) => addr < d.len() && d[addr as int] == value && value != 0xFFu8
                    && all_erased(d, addr as int) && d.len() - (addr as int) <= READ_CHUNK_BYTES,
                Err(e) => bus_error(e) && l.len() < all.len(),
            })
        }),
        r is Ok ==> final(progress).progress() == old(progress).progress() + reported(
            chip.size_bytes as u64,
            block_updates(0, chip.size_bytes as int, blocks(0, chip.size_bytes as int).len() as int),
        ),
        r is Err ==> exists|k: int|
            0 <= k < blocks(0, chip.size_bytes as int).len() && final(progress).progress() == old(progress).progress() + reported(
                chip.size_bytes as u64,
                #[trigger] block_updates(0, chip.size_bytes as int, k),
            ),
{
    let size = chip.size_bytes;
    let ghost p0 = progress.progress();
    let ghost bl = blocks(0, size as int);
    let ghost mut bdone: Seq<(int, int)> = Seq::empty();
    progress.start(size as u64);
    let ghost l0 = bus.i2c_log();
    let ghost all = block_pieces(0, size as int);
    let ghost u0 = bus.i2c_upcoming();
    let ghost mut done: Seq<(int, int)> = Seq::empty();
    proof {
        lemma_grows_refl(l0);
        assert(done + all =~= all);
        assert(all.subrange(0, 0) =~= done);
        assert(read_back(gained(l0, l0)) =~= Seq::<u8>::empty());
        assert(u0.skip(0) =~= u0);
        assert(bdone + bl =~= bl);
        assert(progress.progress() =~= p0.push(Progress::Start(size as u64)) + read_updates(bdone, 0));
    }
    let mut addr: u32 = 0;
    while addr < size
        invariant
            l0 == old(bus).i2c_log(),
            all == block_pieces(0, size as int),
            size == chip.size_bytes,
            size > 0 ==> addressable(*chip),
            addr <= size,
            grows(l0, bus.i2c_log()),
            reads_of(*chip, pin_straps, done, gained(l0, bus.i2c_log())),
            done + block_pieces(addr as int, size as int) == all,
            read_back(gained(l0, bus.i2c_log())).len() == addr,
            all_erased(read_back(gained(l0, bus.i2c_log())), addr as int),
            p0 == old(progress).progress(),
            bl == blocks(0, size as int),
            bdone + pieces(addr as int, size as int, 256) == bl,
            progress.progress() == p0.push(Progress::Start(size as u64)) + read_updates(bdone, 0),
            u0 == old(bus).i2c_upcoming(),
            i2c_answers(u0, read_plan(*chip, pin_straps, all)) ==> done.len() <= u0.len() && bus.i2c_upcoming() == u0.skip(
                done.len() as int,
            ),
        decreases size - addr,
    {
        let n: u32 = if size - addr < READ_CHUNK_BYTES { size - addr } else { READ_CHUNK_BYTES };
        let ghost la = bus.i2c_log();
        let ghost block = pieces(addr as int, addr + n, 20);
        proof {
            assert(done + block + block_pieces(addr + n, size as int) =~= done + block_pieces(addr as int, size as int));
            if i2c_answers(u0, read_plan(*chip, pin_straps, all)) {
                lemma_plan_middle(u0, *chip, pin_straps, done, block, block_pieces(addr + n, size as int));
            }
        }
        let res = crate::i2c::read(bus, chip, addr, n, pin_straps);
        proof {
            let lb = bus.i2c_log();
            let lblk = gained(la, lb);
            lemma_grows_chain(l0, la, lb);
            lemma_reads_concat(*chip, pin_straps, done, gained(l0, la), block.subrange(0, lblk.len() as int), lblk);
            assert(all.subrange(0, (done + block.subrange(0, lblk.len() as int)).len() as int) =~= done + block.subrange(0, lblk.len() as int));
        }
        let data = match res {
            Ok(data) => data,
            Err(e) => {
                progress.finish();
                proof {
                    assert(bl.subrange(0, bdone.len() as int) =~= bdone);
                    assert(progress.progress() =~= p0 + reported(size as u64, block_updates(0, size as int, bdone.len() as int)));
                }
                return Err(e);
            },
        };
        proof {
            assert(block.subrange(0, block.len() as int) =~= block);
            if i2c_answers(u0, read_plan(*chip, pin_straps, all)) {
                assert(u0.skip(done.len() as int).skip(block.len() as int) =~= u0.skip((done + block).len() as int));
            }
            done = done + block;
        }
        let mut i: usize = 0;
        while i < data.len()
            invariant
                l0 == old(bus).i2c_log(),
                all == block_pieces(0, size as int),
                size == chip.size_bytes,
                grows(l0, bus.i2c_log()),
                reads_of(*chip, pin_straps, done, gained(l0, bus.i2c_log())),
                all.subrange(0, done.len() as int) == done,
                done.len() <= all.len(),
                n <= 256,
                i <= data@.len(),
                data@.len() == n,
                addr + n <= size,
                read_back(gained(l0, bus.i2c_log())) == read_back(gained(l0, la)) + data@,
                read_back(gained(l0, la)).len() == addr,
                all_erased(read_back(gained(l0, la)), addr as int),
                forall|j: int| 0 <= j < i ==> data@[j] == 0xFFu8,
                p0 == old(progress).progress(),
                bl == blocks(0, size as int),
                bdone + pieces(addr as int, size as int, 256) == bl,
                addr < size,
                progress.progress() == p0.push(Progress::Start(size as u64)) + read_updates(bdone, 0),
                u0 == old(bus).i2c_upcoming(),
                i2c_answers(u0, read_plan(*chip, pin_straps, all)) ==> done.len() <= u0.len() && bus.i2c_upcoming() == u0.skip(
                    done.len() as int,
                ),
            decreases data@.len() - i,
        {
            if data[i] != 0xFF {
                let ghost d = read_back(gained(l0, bus.i2c_log()));
                assert(d[addr + i] == data@[i as int]);
                assert(all_erased(d, addr + i)) by {
                    assert forall|j: int| 0 <= j < addr + i implies d[j] == 0xFFu8 by {
                        if j >= addr {
                            assert(d[j] == data@[j - addr]);
                        }
                    }
                }
                progress.finish();
                proof {
                    assert(bl.subrange(0, bdone.len() as int) =~= bdone);
                    assert(progress.progress() =~= p0 + reported(size as u64, block_updates(0, size as int, bdone.len() as int)));
                }
                return Err(Error::NotBlank { addr: addr + i as u32, value: data[i] });
            }
            i = i + 1;
        }
        proof {
            let d = read_back(gained(l0, bus.i2c_log()));
            assert forall|j: int| 0 <= j < addr + n implies d[j] == 0xFFu8 by {
                if j >= addr {
                    assert(d[j] == data@[j - addr]);
                }
            }
        }
        let ghost bc = (addr as int, n as int);
        proof {
            assert(bdone.push(bc) + pieces(addr + n, size as int, 256) =~= bdone + pieces(addr as int, size as int, 256));
            bdone = bdone.push(bc);
        }
        addr = addr + n;
        progress.update(addr as u64);
        proof {
            assert(read_updates(bdone, 0) =~= read_updates(bdone.drop_last(), 0).push(Progress::Update(addr as u64)));
        }
    }
    proof {
        assert(done + block_pieces(addr as int, size as int) =~= done);
        assert(all.subrange(0, done.len() as int) =~= done);
        assert(bdone + pieces(addr as int, size as int, 256) =~= bdone);
        assert(bl.subrange(0, bl.len() as int) =~= bl);
    }
    progress.finish();
    assert(progress.progress() =~= p0 + reported(size as u64, block_updates(0, size as int, bl.len() as int)));
    Ok(())
}

/// "Erase" the EEPROM by writing 0xFF to every byte (EEPROMs have no
/// erase command).
pub fn erase<T: I2cTransport, P: ProgressSink>(bus: &mut T, chip: &I2cChip, pin_straps: u8, progress: &mut P) -> (r: Result<()>)
    requires
        chip.size_bytes > 0 ==> addressable(*chip) && chip.page_size > 0,
        chip.size_bytes <= usize::MAX,
    ensures
        write_outcome(
            *chip,
            0,
            blank(chip.size_bytes as nat),
            pin_straps,
            old(bus).i2c_log(),
            final(bus).i2c_log(),
            old(bus).i2c_upcoming(),
            old(progress).progress(),
            final(progress).progress(),
            r,
        ),
{
    let mut buf: Vec<u8> = Vec::new();
    let mut k: u32 = 0;
    while k < chip.size_bytes
        invariant
            k <= chip.size_bytes,
            buf@ == blank(k as nat),
        decreases chip.size_bytes - k,
    {
        buf.push(0xFF);
        k = k + 1;
        assert(buf@ =~= blank(k as nat));
    }
    write(bus, chip, 0, buf.as_slice(), pin_straps, progress)
}

} // verus!
