//! I²C serial-EEPROM protocol (24Cxx family).
//!
//! The transport (the CH341A or a scripted bus) implements
//! [`I2cTransport`]; this module only knows I²C bus mechanics and the
//! 24Cxx addressing convention: a 7-bit base address `0b1010_AAA` whose
//! low bits are the A0/A1/A2 pin straps, except on 24C04/08/16 where the
//! high memory-address bits take their place (see [`compute_slave`]).
use crate::bytes::{bytes_eq, push_all, to_vec};
use crate::chipdb::I2cChip;
use crate::error::{bus_error, failures_of, Error, Result};
use vstd::prelude::*;

verus! {

/// 7-bit base address shared by every 24Cxx EEPROM.
pub const EEPROM_BASE_ADDR: u8 = 0x50;

/// Most bytes read in one I²C transaction (one CH341 USB packet).
pub const MAX_READ_CHUNK: usize = 20;

/// Most data bytes (address excluded) written in one I²C transaction.
/// Common 24C04/08/16 pages are 16 bytes too.
pub const MAX_WRITE_DATA_PER_TXN: usize = 16;

/// Most bytes a transport is asked to write after the slave address in
/// one transaction (the stream's 5-bit length field holds 31, the slave
/// byte included).
pub const MAX_TX_BYTES: usize = 30;

/// Most bytes a transport is asked to read in one transaction (the
/// stream's 5-bit length field).
pub const MAX_RX_BYTES: usize = 31;

/// One event on an I²C bus.
pub enum I2cEvent {
    /// A transaction: `tx` written after slave|W, then `rx` read back
    /// after a repeated start with slave|R (empty for a pure write).
    Transfer { slave: u8, tx: Seq<u8>, rx: Seq<u8> },
    /// An address probe and whether the device acknowledged.
    Probe { slave: u8, ack: bool },
    /// A wait of at least `ms` milliseconds with the bus idle.
    Pause { ms: u64 },
}

/// An I²C master. Implementors keep the log of bus events that the
/// contracts of this module and of `i2c_ops` speak of.
pub trait I2cTransport {
    /// Completed bus events, oldest first.
    spec fn i2c_log(&self) -> Seq<I2cEvent>;

    /// Transfers this bus is known to handle next, in order: what a
    /// scripted bus has left to answer. Real hardware promises none.
    spec fn i2c_upcoming(&self) -> Seq<KnownTransfer>;

    /// Every probe is known to be answered (a scripted bus); real
    /// hardware promises nothing.
    spec fn i2c_probes_answered(&self) -> bool;

    /// The errors transfers and probes returned, oldest first.
    spec fn i2c_failures(&self) -> Seq<Error>;

    /// START, slave|W, `tx`; then, when `rx_len > 0`, a repeated START,
    /// slave|R and `rx_len` bytes read; STOP.
    fn i2c_transfer(&mut self, slave_7bit: u8, tx: &[u8], rx_len: usize) -> (r: Result<Vec<u8>>)
        requires
            tx@.len() <= MAX_TX_BYTES,
            rx_len <= MAX_RX_BYTES,
        ensures
            (match r {
                Ok(rx) => rx@.len() == rx_len && final(self).i2c_log() == old(self).i2c_log().push(
                    I2cEvent::Transfer { slave: slave_7bit, tx: tx@, rx: rx@ },
                ),
                Err(e) => bus_error(e) && final(self).i2c_log() == old(self).i2c_log(),
            }),
            (match r {
                Ok(_) => final(self).i2c_failures() == old(self).i2c_failures(),
                Err(e) => final(self).i2c_failures() == old(self).i2c_failures().push(e),
            }),
            final(self).i2c_probes_answered() == old(self).i2c_probes_answered(),
            i2c_answers(old(self).i2c_upcoming(), seq![(slave_7bit, tx@, rx_len as nat)]) ==> (r matches Ok(rx) && rx@
                == old(self).i2c_upcoming()[0].2 && final(self).i2c_upcoming() == old(self).i2c_upcoming().drop_first()),
    ;

    /// Address `slave_7bit` with an empty write and report whether it
    /// acknowledged.
    fn i2c_probe(&mut self, slave_7bit: u8) -> (r: Result<bool>)
        ensures
            (match r {
                Ok(ack) => final(self).i2c_log() == old(self).i2c_log().push(I2cEvent::Probe { slave: slave_7bit, ack }),
                Err(e) => bus_error(e) && final(self).i2c_log() == old(self).i2c_log(),
            }),
            (match r {
                Ok(_) => final(self).i2c_failures() == old(self).i2c_failures(),
                Err(e) => final(self).i2c_failures() == old(self).i2c_failures().push(e),
            }),
            final(self).i2c_probes_answered() == old(self).i2c_probes_answered(),
            old(self).i2c_probes_answered() ==> r is Ok && final(self).i2c_upcoming() == old(self).i2c_upcoming(),
    ;

    /// Leave the bus idle for at least `ms` milliseconds.
    fn pause_ms(&mut self, ms: u64)
        ensures
            final(self).i2c_log() == old(self).i2c_log().push(I2cEvent::Pause { ms }),
            final(self).i2c_upcoming() == old(self).i2c_upcoming(),
            final(self).i2c_probes_answered() == old(self).i2c_probes_answered(),
            final(self).i2c_failures() == old(self).i2c_failures(),
    ;
}

/// A transfer a bus is known to handle: the slave address, the bytes
/// written, the bytes it reads back, and whether it fails instead.
pub type KnownTransfer = (u8, Seq<u8>, Seq<u8>, bool);

/// `up` begins with one accepted transfer for each of `xs`, in order:
/// the same slave and bytes written, as many bytes read back as asked.
pub open spec fn i2c_answers(up: Seq<KnownTransfer>, xs: Seq<(u8, Seq<u8>, nat)>) -> bool {
    &&& xs.len() <= up.len()
    &&& forall|i: int|
        0 <= i < xs.len() ==> (#[trigger] up[i]).0 == xs[i].0 && up[i].1 == xs[i].1 && up[i].2.len() == xs[i].2 && !up[i].3
}

/// Known answers for `x + y` are known answers for `x`, then for `y`
/// after them.
pub proof fn lemma_i2c_answers_split(up: Seq<KnownTransfer>, x: Seq<(u8, Seq<u8>, nat)>, y: Seq<(u8, Seq<u8>, nat)>)
    requires
        i2c_answers(up, x + y),
    ensures
        i2c_answers(up, x),
        i2c_answers(up.skip(x.len() as int), y),
{
    assert forall|i: int| 0 <= i < x.len() implies (#[trigger] up[i]).0 == x[i].0 && up[i].1 == x[i].1 && up[i].2.len() == x[i].2
        && !up[i].3 by {
        assert((x + y)[i] == x[i]);
    }
    assert forall|i: int| 0 <= i < y.len() implies (#[trigger] up.skip(x.len() as int)[i]).0 == y[i].0 && up.skip(
        x.len() as int,
    )[i].1 == y[i].1 && up.skip(x.len() as int)[i].2.len() == y[i].2 && !up.skip(x.len() as int)[i].3 by {
        assert((x + y)[x.len() + i] == y[i]);
        assert(up.skip(x.len() as int)[i] == up[x.len() + i]);
    }
}

/// Known answers for `xs` include one for transfer `k` once the first
/// `k` are handled.
pub proof fn lemma_i2c_answers_at(up: Seq<KnownTransfer>, xs: Seq<(u8, Seq<u8>, nat)>, k: int)
    requires
        i2c_answers(up, xs),
        0 <= k < xs.len(),
    ensures
        i2c_answers(up.skip(k), seq![xs[k]]),
{
    assert(up.skip(k)[0] == up[k]);
}

/// The low-bit mask of the `bits` memory-address bits a chip carries in
/// its slave address.
pub open spec fn stolen_mask(bits: u8) -> u8 {
    ((1u8 << bits) - 1) as u8
}

/// The 7-bit slave address a transaction for `mem_addr` uses: the base
/// plus pin straps, with the top memory-address bits of 24C04/08/16
/// taking the place of the strap bits they cover.
pub open spec fn slave_for(chip: I2cChip, mem_addr: u32, pin_straps: u8) -> u8 {
    if chip.slave_addr_bits == 0 {
        EEPROM_BASE_ADDR | (pin_straps & 7u8)
    } else {
        let mask = stolen_mask(chip.slave_addr_bits);
        let high = ((mem_addr >> (chip.addr_width as u32 * 8)) as u8) & mask;
        EEPROM_BASE_ADDR | ((pin_straps & !mask) & 7u8) | high
    }
}

/// The slave address can be computed: the stolen bits fit a byte and
/// the address shift stays inside 32 bits.
pub open spec fn slave_computable(chip: I2cChip) -> bool {
    chip.slave_addr_bits != 0 ==> chip.slave_addr_bits < 8 && chip.addr_width <= 3
}

/// Compose the 7-bit slave address for a transaction at `mem_addr`.
/// `pin_straps` is the A0/A1/A2 wiring (usually 0).
pub fn compute_slave(chip: &I2cChip, mem_addr: u32, pin_straps: u8) -> (r: u8)
    requires
        slave_computable(*chip),
    ensures
        r == slave_for(*chip, mem_addr, pin_straps),
{
    if chip.slave_addr_bits == 0 {
        return EEPROM_BASE_ADDR | (pin_straps & 0x07);
    }
    let bits = chip.slave_addr_bits;
    assert(1u8 << bits >= 1) by (bit_vector)
        requires
            bits < 8,
    ;
    let mask: u8 = (1u8 << bits) - 1;
    let high = ((mem_addr >> (chip.addr_width as u32 * 8)) as u8) & mask;
    let strap_keep = (pin_straps & !mask) & 0x07;
    EEPROM_BASE_ADDR | strap_keep | high
}

/// The memory-address bytes on the wire: one byte (the low 8 bits) or
/// two, big-endian.
pub open spec fn wire_addr(chip: I2cChip, mem_addr: u32) -> Seq<u8> {
    if chip.addr_width == 1 {
        seq![mem_addr as u8]
    } else {
        seq![(mem_addr >> 8u32) as u8, mem_addr as u8]
    }
}

/// Encode the on-bus memory address bytes for `chip`. Higher bits that
/// do not fit belong in the slave address ([`compute_slave`]).
pub fn addr_bytes(chip: &I2cChip, mem_addr: u32) -> (r: Vec<u8>)
    requires
        chip.addr_width == 1 || chip.addr_width == 2,
    ensures
        r@ == wire_addr(*chip, mem_addr),
{
    if chip.addr_width == 1 {
        let r = vec![mem_addr as u8];
        assert(r@ =~= wire_addr(*chip, mem_addr));
        r
    } else {
        let r = vec![(mem_addr >> 8) as u8, mem_addr as u8];
        assert(r@ =~= wire_addr(*chip, mem_addr));
        r
    }
}

/// The chip can be addressed by this module: a 1- or 2-byte address
/// and a computable slave address.
pub open spec fn addressable(chip: I2cChip) -> bool {
    (chip.addr_width == 1 || chip.addr_width == 2) && slave_computable(chip)
}

/// Distance left from `addr` to `end`.
pub open spec fn gap(addr: int, end: int) -> int {
    if addr < end {
        end - addr
    } else {
        0
    }
}

/// The `(address, length)` pieces `[addr, end)` is read in: at most
/// `chunk` bytes each.
pub open spec fn pieces(addr: int, end: int, chunk: int) -> Seq<(int, int)>
    decreases gap(addr, end),
{
    if addr >= end || chunk <= 0 {
        Seq::empty()
    } else {
        let n = if end - addr < chunk { end - addr } else { chunk };
        seq![(addr, n)] + pieces(addr + n, end, chunk)
    }
}

/// `e` is the read transaction for piece `c` of `chip`.
pub open spec fn read_event(chip: I2cChip, pin_straps: u8, c: (int, int), e: I2cEvent) -> bool {
    e matches I2cEvent::Transfer { slave, tx, rx } && slave == slave_for(chip, c.0 as u32, pin_straps)
        && tx == wire_addr(chip, c.0 as u32) && rx.len() == c.1
}

/// `log` is exactly one read transaction per piece, in order.
pub open spec fn reads_of(chip: I2cChip, pin_straps: u8, ps: Seq<(int, int)>, log: Seq<I2cEvent>) -> bool {
    &&& log.len() == ps.len()
    &&& forall|i: int| 0 <= i < log.len() ==> read_event(chip, pin_straps, ps[i], #[trigger] log[i])
}

/// The bytes a run of transfers read back, concatenated.
pub open spec fn read_back(log: Seq<I2cEvent>) -> Seq<u8>
    decreases log.len(),
{
    if log.len() == 0 {
        Seq::empty()
    } else {
        read_back(log.drop_last()) + match log.last() {
            I2cEvent::Transfer { rx, .. } => rx,
            _ => Seq::empty(),
        }
    }
}

/// The events a log gained.
pub open spec fn gained(before: Seq<I2cEvent>, after: Seq<I2cEvent>) -> Seq<I2cEvent> {
    after.subrange(before.len() as int, after.len() as int)
}

/// `after` is `before` with events appended.
pub open spec fn grows(before: Seq<I2cEvent>, after: Seq<I2cEvent>) -> bool {
    before.len() <= after.len() && after.subrange(0, before.len() as int) == before
}

/// A log grows into itself, gaining nothing.
pub proof fn lemma_grows_refl(a: Seq<I2cEvent>)
    ensures
        grows(a, a),
        gained(a, a).len() == 0,
{
    assert(a.subrange(0, a.len() as int) =~= a);
}

/// Growth composes.
pub proof fn lemma_grows_chain(a: Seq<I2cEvent>, b: Seq<I2cEvent>, c: Seq<I2cEvent>)
    requires
        grows(a, b),
        grows(b, c),
    ensures
        grows(a, c),
        gained(a, c) == gained(a, b) + gained(b, c),
{
    assert(c.subrange(0, a.len() as int) =~= b.subrange(0, a.len() as int));
    assert(gained(a, c) =~= gained(a, b) + gained(b, c));
}

/// Growth by one event.
pub proof fn lemma_grows_push(a: Seq<I2cEvent>, b: Seq<I2cEvent>, e: I2cEvent)
    requires
        grows(a, b),
    ensures
        grows(a, b.push(e)),
        gained(a, b.push(e)) == gained(a, b).push(e),
{
    assert(b.push(e).subrange(0, a.len() as int) =~= b.subrange(0, a.len() as int));
    assert(gained(a, b.push(e)) =~= gained(a, b).push(e));
}

/// One more read event extends the run and its data.
proof fn lemma_reads_push(chip: I2cChip, pin_straps: u8, ps: Seq<(int, int)>, log: Seq<I2cEvent>, c: (int, int), e: I2cEvent)
    requires
        reads_of(chip, pin_straps, ps, log),
        read_event(chip, pin_straps, c, e),
    ensures
        reads_of(chip, pin_straps, ps.push(c), log.push(e)),
        read_back(log.push(e)) == read_back(log) + (match e {
            I2cEvent::Transfer { rx, .. } => rx,
            _ => Seq::empty(),
        }),
{
    assert(log.push(e).drop_last() =~= log);
    assert forall|i: int| 0 <= i < log.push(e).len() implies read_event(chip, pin_straps, ps.push(c)[i], #[trigger] log.push(e)[i]) by {
        if i < log.len() {
            assert(log.push(e)[i] == log[i]);
        }
    }
}

/// The transfers a read of pieces `ps` makes: per piece, its address
/// bytes written to its slave address and the piece read back.
pub open spec fn read_plan(chip: I2cChip, pin_straps: u8, ps: Seq<(int, int)>) -> Seq<(u8, Seq<u8>, nat)> {
    ps.map_values(|c: (int, int)| (slave_for(chip, c.0 as u32, pin_straps), wire_addr(chip, c.0 as u32), c.1 as nat))
}

/// The transfers a write of pieces `ps` makes: per piece, its address
/// bytes and data written to its slave address, nothing read back.
pub open spec fn write_plan(chip: I2cChip, pin_straps: u8, ps: Seq<(int, Seq<u8>)>) -> Seq<(u8, Seq<u8>, nat)> {
    ps.map_values(|c: (int, Seq<u8>)| (slave_for(chip, c.0 as u32, pin_straps), wire_addr(chip, c.0 as u32) + c.1, 0nat))
}

/// `mem_addr .. mem_addr + len` fits the chip.
pub open spec fn fits(mem_addr: u32, len: int, chip: I2cChip) -> bool {
    mem_addr + len <= chip.size_bytes
}

/// Read `len` bytes from `mem_addr`: one "dummy write" of the memory
/// address then a repeated-start read per piece of at most
/// [`MAX_READ_CHUNK`] bytes.
pub fn read<T: I2cTransport>(bus: &mut T, chip: &I2cChip, mem_addr: u32, len: u32, pin_straps: u8) -> (r: Result<Vec<u8>>)
    requires
        fits(mem_addr, len as int, *chip) && len > 0 ==> addressable(*chip),
    ensures
        !fits(mem_addr, len as int, *chip) ==> r == Err::<Vec<u8>, Error>(
            Error::AddressOutOfRange { addr: mem_addr, len, chip_size: chip.size_bytes },
        ) && final(bus).i2c_log() == old(bus).i2c_log(),
        fits(mem_addr, len as int, *chip) ==> {
            let l = gained(old(bus).i2c_log(), final(bus).i2c_log());
            let ps = pieces(mem_addr as int, mem_addr + len, MAX_READ_CHUNK as int);
            &&& grows(old(bus).i2c_log(), final(bus).i2c_log())
            &&& l.len() <= ps.len()
            &&& reads_of(*chip, pin_straps, ps.subrange(0, l.len() as int), l)
            &&& (match r {
                Ok(data) => l.len() == ps.len() && data@ == read_back(l) && data@.len() == len,
                Err(e) => bus_error(e) && len > 0 && l.len() < ps.len(),
            })
            &&& i2c_answers(old(bus).i2c_upcoming(), read_plan(*chip, pin_straps, ps)) ==> r is Ok && final(bus).i2c_upcoming()
                == old(bus).i2c_upcoming().skip(ps.len() as int)
        },
        final(bus).i2c_probes_answered() == old(bus).i2c_probes_answered(),
{
    if mem_addr as u64 + len as u64 > chip.size_bytes as u64 {
        return Err(Error::AddressOutOfRange { addr: mem_addr, len, chip_size: chip.size_bytes });
    }
    let end: u32 = mem_addr + len;
    let ghost l0 = bus.i2c_log();
    let ghost all = pieces(mem_addr as int, end as int, 20);
    let ghost u0 = bus.i2c_upcoming();
    let ghost plan = read_plan(*chip, pin_straps, all);
    let ghost mut done: Seq<(int, int)> = Seq::empty();
    let mut out: Vec<u8> = Vec::new();
    proof {
        lemma_grows_refl(l0);
        assert(u0.skip(0) =~= u0);
        assert(done + all =~= all);
        assert(out@ =~= read_back(gained(l0, l0)));
    }
    let mut addr: u32 = mem_addr;
    while addr < end
        invariant
            l0 == old(bus).i2c_log(),
            all == pieces(mem_addr as int, end as int, 20),
            fits(mem_addr, len as int, *chip),
            mem_addr <= addr <= end,
            end == mem_addr + len,
            len > 0 ==> addressable(*chip),
            grows(l0, bus.i2c_log()),
            reads_of(*chip, pin_straps, done, gained(l0, bus.i2c_log())),
            done + pieces(addr as int, end as int, 20) == all,
            out@ == read_back(gained(l0, bus.i2c_log())),
            out@.len() == addr - mem_addr,
            u0 == old(bus).i2c_upcoming(),
            plan == read_plan(*chip, pin_straps, all),
            bus.i2c_probes_answered() == old(bus).i2c_probes_answered(),
            i2c_answers(u0, plan) ==> done.len() <= u0.len() && bus.i2c_upcoming() == u0.skip(done.len() as int),
        decreases end - addr,
    {
        let n: u32 = if end - addr < 20 { end - addr } else { 20 };
        let slave = compute_slave(chip, addr, pin_straps);
        let wire = addr_bytes(chip, addr);
        let ghost la = bus.i2c_log();
        proof {
            assert(all.subrange(0, done.len() as int) =~= done);
            if i2c_answers(u0, plan) {
                assert(all[done.len() as int] == (addr as int, n as int)) by {
                    assert((done + pieces(addr as int, end as int, 20))[done.len() as int] == pieces(addr as int, end as int, 20)[0]);
                }
                lemma_i2c_answers_at(u0, plan, done.len() as int);
            }
        }
        let chunk = match bus.i2c_transfer(slave, wire.as_slice(), n as usize) {
            Ok(c) => c,
            Err(e) => {
                return Err(e);
            },
        };
        let ghost c = (addr as int, n as int);
        proof {
            let ev = I2cEvent::Transfer { slave, tx: wire@, rx: chunk@ };
            lemma_grows_push(l0, la, ev);
            lemma_reads_push(*chip, pin_straps, done, gained(l0, la), c, ev);
            assert(done.push(c) + pieces(addr + n, end as int, 20) =~= done + pieces(addr as int, end as int, 20));
            if i2c_answers(u0, plan) {
                assert(u0.skip(done.len() as int).drop_first() =~= u0.skip(done.len() + 1 as int));
            }
            done = done.push(c);
        }
        push_all(&mut out, chunk.as_slice());
        addr = addr + n;
    }
    proof {
        assert(done + pieces(addr as int, end as int, 20) =~= done);
        assert(all.subrange(0, done.len() as int) =~= all);
    }
    Ok(out)
}

/// The pieces a write of `data` at `addr` is split into: each runs to
/// the next `page` boundary, [`MAX_WRITE_DATA_PER_TXN`] bytes, or the end
/// of the data, whichever is nearest.
pub open spec fn write_pieces(addr: int, data: Seq<u8>, page: int) -> Seq<(int, Seq<u8>)>
    decreases data.len(),
{
    if data.len() == 0 || page <= 0 {
        Seq::empty()
    } else {
        let room = page - addr % page;
        let a = if data.len() < room { data.len() as int } else { room };
        let n = if a < MAX_WRITE_DATA_PER_TXN { a } else { MAX_WRITE_DATA_PER_TXN as int };
        seq![(addr, data.take(n))] + write_pieces(addr + n, data.skip(n), page)
    }
}

/// The wait after each page write: twice the chip's write-cycle time,
/// at least 2 ms.
pub open spec fn settle_ms(chip: I2cChip) -> u64 {
    ((if chip.write_cycle_ms == 0 { 1 } else { chip.write_cycle_ms as int }) * 2) as u64
}

/// The bus events of writing pieces `ps`: per piece, a pure write of the
/// address bytes and data, then the write-cycle wait.
pub open spec fn write_events(chip: I2cChip, pin_straps: u8, ps: Seq<(int, Seq<u8>)>) -> Seq<I2cEvent>
    decreases ps.len(),
{
    if ps.len() == 0 {
        Seq::empty()
    } else {
        let c = ps.last();
        write_events(chip, pin_straps, ps.drop_last()) + seq![
            I2cEvent::Transfer { slave: slave_for(chip, c.0 as u32, pin_straps), tx: wire_addr(chip, c.0 as u32) + c.1, rx: Seq::empty() },
            I2cEvent::Pause { ms: settle_ms(chip) },
        ]
    }
}

/// Write `data` at `mem_addr`, split at page boundaries and at
/// [`MAX_WRITE_DATA_PER_TXN`] bytes, leaving the bus idle for twice the
/// write-cycle time after each piece.
pub fn write<T: I2cTransport>(bus: &mut T, chip: &I2cChip, mem_addr: u32, data: &[u8], pin_straps: u8) -> (r: Result<()>)
    requires
        data@.len() <= u32::MAX,
        fits(mem_addr, data@.len() as int, *chip) && data@.len() > 0 ==> addressable(*chip) && chip.page_size > 0,
    ensures
        !fits(mem_addr, data@.len() as int, *chip) ==> r == Err::<(), Error>(
            Error::AddressOutOfRange { addr: mem_addr, len: data@.len() as u32, chip_size: chip.size_bytes },
        ) && final(bus).i2c_log() == old(bus).i2c_log(),
        fits(mem_addr, data@.len() as int, *chip) ==> {
            let l = gained(old(bus).i2c_log(), final(bus).i2c_log());
            let ps = write_pieces(mem_addr as int, data@, chip.page_size as int);
            let full = write_events(*chip, pin_straps, write_pieces(mem_addr as int, data@, chip.page_size as int));
            &&& grows(old(bus).i2c_log(), final(bus).i2c_log())
            &&& (match r {
                Ok(_) => l == full,
                Err(e) => bus_error(e) && data@.len() > 0 && l.len() < full.len() && l == full.subrange(0, l.len() as int),
            })
            &&& i2c_answers(old(bus).i2c_upcoming(), write_plan(*chip, pin_straps, ps)) ==> r is Ok && final(bus).i2c_upcoming()
                == old(bus).i2c_upcoming().skip(ps.len() as int)
        },
        final(bus).i2c_probes_answered() == old(bus).i2c_probes_answered(),
{
    if mem_addr as u64 + data.len() as u64 > chip.size_bytes as u64 {
        return Err(Error::AddressOutOfRange { addr: mem_addr, len: data.len() as u32, chip_size: chip.size_bytes });
    }
    let ghost l0 = bus.i2c_log();
    let ghost full = write_events(*chip, pin_straps, write_pieces(mem_addr as int, data@, chip.page_size as int));
    let ghost u0 = bus.i2c_upcoming();
    let ghost wplan = write_plan(*chip, pin_straps, write_pieces(mem_addr as int, data@, chip.page_size as int));
    let ghost mut done: Seq<(int, Seq<u8>)> = Seq::empty();
    let page = chip.page_size;
    let settle: u64 = if chip.write_cycle_ms == 0 { 2 } else { chip.write_cycle_ms as u64 * 2 };
    proof {
        lemma_grows_refl(l0);
        assert(data@.skip(0) =~= data@);
        assert(done + write_pieces(mem_addr as int, data@, page as int) =~= write_pieces(mem_addr as int, data@, page as int));
        assert(gained(l0, l0) =~= write_events(*chip, pin_straps, done));
    }
    let mut offset: usize = 0;
    while offset < data.len()
        invariant
            l0 == old(bus).i2c_log(),
            full == write_events(*chip, pin_straps, write_pieces(mem_addr as int, data@, page as int)),
            page == chip.page_size,
            fits(mem_addr, data@.len() as int, *chip),
            settle == settle_ms(*chip),
            data@.len() > 0 ==> addressable(*chip) && page > 0,
            mem_addr + data@.len() <= u32::MAX,
            offset <= data@.len(),
            grows(l0, bus.i2c_log()),
            gained(l0, bus.i2c_log()) == write_events(*chip, pin_straps, done),
            done + write_pieces(mem_addr + offset, data@.skip(offset as int), page as int) == write_pieces(mem_addr as int, data@, page as int),
            u0 == old(bus).i2c_upcoming(),
            wplan == write_plan(*chip, pin_straps, write_pieces(mem_addr as int, data@, page as int)),
            bus.i2c_probes_answered() == old(bus).i2c_probes_answered(),
            i2c_answers(u0, wplan) ==> done.len() <= u0.len() && bus.i2c_upcoming() == u0.skip(done.len() as int),
        decreases data@.len() - offset,
    {
        let addr: u32 = mem_addr + offset as u32;
        let to_page_end: u32 = page - addr % page;
        let rest: usize = data.len() - offset;
        let mut chunk_size: usize = if rest < to_page_end as usize { rest } else { to_page_end as usize };
        if chunk_size > MAX_WRITE_DATA_PER_TXN {
            chunk_size = MAX_WRITE_DATA_PER_TXN;
        }
        let chunk = vstd::slice::slice_subrange(data, offset, offset + chunk_size);
        let mut tx = addr_bytes(chip, addr);
        push_all(&mut tx, chunk);
        let slave = compute_slave(chip, addr, pin_straps);
        let ghost c = (addr as int, chunk@);
        let ghost la = bus.i2c_log();
        proof {
            let rest_s = data@.skip(offset as int);
            assert(rest_s.take(chunk_size as int) =~= chunk@);
            assert(rest_s.skip(chunk_size as int) =~= data@.skip(offset + chunk_size));
            assert(done.push(c) + write_pieces(addr + chunk_size, data@.skip(offset + chunk_size), page as int)
                =~= done + write_pieces(mem_addr + offset, rest_s, page as int));
            let ps = write_pieces(mem_addr as int, data@, page as int);
            lemma_events_prefix(*chip, pin_straps, ps, done.len() as int);
            assert(ps.subrange(0, done.len() as int) =~= done);
            assert(ps.subrange(0, done.len() as int + 1) =~= done.push(c));
            assert(done.push(c).drop_last() =~= done);
            if i2c_answers(u0, wplan) {
                assert(ps[done.len() as int] == c);
                lemma_i2c_answers_at(u0, wplan, done.len() as int);
            }
        }
        match bus.i2c_transfer(slave, tx.as_slice(), 0) {
            Ok(rx) => {
                proof {
                    assert(rx@ =~= Seq::<u8>::empty());
                }
            },
            Err(e) => {
                proof {
                    let ps = write_pieces(mem_addr as int, data@, page as int);
                    lemma_events_prefix(*chip, pin_straps, ps, done.len() as int);
                    assert(ps.subrange(0, done.len() as int) =~= done);
                }
                return Err(e);
            },
        }
        let ghost lb = bus.i2c_log();
        proof {
            lemma_grows_push(l0, la, lb.last());
            let ps = write_pieces(mem_addr as int, data@, page as int);
            lemma_events_prefix(*chip, pin_straps, ps, done.len() as int + 1);
            lemma_events_len(*chip, pin_straps, done);
            assert(write_events(*chip, pin_straps, done.push(c)).subrange(0, gained(l0, lb).len() as int) =~= gained(l0, lb));
        }
        bus.pause_ms(settle);
        proof {
            lemma_grows_push(l0, lb, bus.i2c_log().last());
            assert(gained(l0, bus.i2c_log()) =~= write_events(*chip, pin_straps, done.push(c)));
            if i2c_answers(u0, wplan) {
                assert(u0.skip(done.len() as int).drop_first() =~= u0.skip(done.len() + 1 as int));
            }
            done = done.push(c);
        }
        offset = offset + chunk_size;
    }
    proof {
        assert(data@.skip(offset as int).len() == 0);
        assert(done + write_pieces(mem_addr + offset, data@.skip(offset as int), page as int) =~= done);
    }
    Ok(())
}

/// The events of the first `k` pieces are a prefix of all the events.
proof fn lemma_events_prefix(chip: I2cChip, pin_straps: u8, ps: Seq<(int, Seq<u8>)>, k: int)
    requires
        0 <= k <= ps.len(),
    ensures
        write_events(chip, pin_straps, ps.subrange(0, k)).len() == 2 * k,
        write_events(chip, pin_straps, ps).len() == 2 * ps.len(),
        write_events(chip, pin_straps, ps.subrange(0, k)) == write_events(chip, pin_straps, ps).subrange(0, 2 * k),
    decreases ps.len(),
{
    lemma_events_len(chip, pin_straps, ps);
    lemma_events_len(chip, pin_straps, ps.subrange(0, k));
    if k < ps.len() {
        let p2 = ps.drop_last();
        assert(p2.subrange(0, k) =~= ps.subrange(0, k));
        lemma_events_prefix(chip, pin_straps, p2, k);
        lemma_events_len(chip, pin_straps, p2);
        assert(write_events(chip, pin_straps, ps).subrange(0, 2 * k) =~= write_events(chip, pin_straps, p2).subrange(0, 2 * k));
    } else {
        assert(ps.subrange(0, k) =~= ps);
        assert(write_events(chip, pin_straps, ps).subrange(0, 2 * k) =~= write_events(chip, pin_straps, ps));
    }
}

/// Two events per piece.
proof fn lemma_events_len(chip: I2cChip, pin_straps: u8, ps: Seq<(int, Seq<u8>)>)
    ensures
        write_events(chip, pin_straps, ps).len() == 2 * ps.len(),
    decreases ps.len(),
{
    if ps.len() > 0 {
        lemma_events_len(chip, pin_straps, ps.drop_last());
    }
}

/// `e` is a probe of address `a`.
pub open spec fn probe_of(e: I2cEvent, a: int) -> bool {
    e matches I2cEvent::Probe { slave, .. } && slave == a
}

/// Probe every 7-bit address from `first` to `last` (inclusive) and
/// return those that acknowledged, ascending.
pub fn scan<T: I2cTransport>(bus: &mut T, first: u8, last: u8) -> (r: Result<Vec<u8>>)
    ensures
        final(bus).i2c_failures() == failures_of(old(bus).i2c_failures(), r),
        grows(old(bus).i2c_log(), final(bus).i2c_log()),
        ({
            let l = gained(old(bus).i2c_log(), final(bus).i2c_log());
            &&& forall|i: int| 0 <= i < l.len() ==> probe_of(#[trigger] l[i], first + i)
            &&& (match r {
                Ok(hits) => (first <= last ==> l.len() == last - first + 1) && (first > last ==> l.len() == 0)
                    && hits@ == acked(l),
                Err(e) => bus_error(e) && first + l.len() <= last,
            })
        }),
        old(bus).i2c_probes_answered() ==> r is Ok && final(bus).i2c_upcoming() == old(bus).i2c_upcoming(),
{
    let ghost l0 = bus.i2c_log();
    proof {
        lemma_grows_refl(l0);
    }
    let mut hits: Vec<u8> = Vec::new();
    if first > last {
        return Ok(hits);
    }
    let mut addr: u8 = first;
    loop
        invariant
            l0 == old(bus).i2c_log(),
            first <= addr <= last,
            grows(l0, bus.i2c_log()),
            gained(l0, bus.i2c_log()).len() == addr - first,
            forall|i: int| 0 <= i < gained(l0, bus.i2c_log()).len() ==> probe_of(#[trigger] gained(l0, bus.i2c_log())[i], first + i),
            hits@ == acked(gained(l0, bus.i2c_log())),
            bus.i2c_probes_answered() == old(bus).i2c_probes_answered(),
            old(bus).i2c_probes_answered() ==> bus.i2c_upcoming() == old(bus).i2c_upcoming(),
            bus.i2c_failures() == old(bus).i2c_failures(),
        decreases last - addr,
    {
        let ghost la = bus.i2c_log();
        let ack = match bus.i2c_probe(addr) {
            Ok(a) => a,
            Err(e) => {
                return Err(e);
            },
        };
        proof {
            let ev = I2cEvent::Probe { slave: addr, ack };
            lemma_grows_push(l0, la, ev);
            assert(gained(l0, la).push(ev).drop_last() =~= gained(l0, la));
        }
        if ack {
            hits.push(addr);
        }
        if addr == last {
            return Ok(hits);
        }
        addr = addr + 1;
    }
}

/// The addresses that acknowledged in a run of probes, in order.
pub open spec fn acked(log: Seq<I2cEvent>) -> Seq<u8>
    decreases log.len(),
{
    if log.len() == 0 {
        Seq::empty()
    } else {
        acked(log.drop_last()) + match log.last() {
            I2cEvent::Probe { slave, ack } => if ack { seq![slave] } else { Seq::empty() },
            _ => Seq::empty(),
        }
    }
}

/// One scripted I²C transaction: the slave, the bytes expected to be
/// written, how many bytes are read, what they read back as, and
/// whether the device refuses to acknowledge.
pub struct Step {
    pub slave: u8,
    pub tx: Vec<u8>,
    pub rx_len: usize,
    pub read_back: Vec<u8>,
    pub nack: bool,
}

/// A scripted I²C bus: each transfer must match the next step exactly
/// and gets its scripted reply ([`Error::I2cNack`] for a refusing step,
/// [`Error::ScriptMismatch`] for an unexpected transfer). Every probe is
/// acknowledged.
pub struct MockI2c {
    steps: Vec<Step>,
    next: usize,
    log: Ghost<Seq<I2cEvent>>,
    failed: Ghost<Seq<Error>>,
}

/// A script as known transfers: a refusing step, or one whose reply is
/// not as long as the read it expects, is not answered with data.
pub open spec fn known_of(steps: Seq<Step>) -> Seq<KnownTransfer> {
    steps.map_values(|st: Step| (st.slave, st.tx@, st.read_back@, st.nack || st.read_back@.len() != st.rx_len))
}

/// `st` is a step for a transfer of `tx` to `slave` reading `rx_len` bytes.
pub open spec fn step_matches(st: Step, slave: u8, tx: Seq<u8>, rx_len: usize) -> bool {
    st.slave == slave && st.tx@ == tx && st.rx_len == rx_len
}

impl MockI2c {
    /// The script, in order.
    pub closed spec fn script(&self) -> Seq<Step> {
        self.steps@
    }

    /// Steps consumed so far.
    pub closed spec fn consumed(&self) -> nat {
        self.next as nat
    }

    /// The script's length.
    pub closed spec fn script_len(&self) -> nat {
        self.steps@.len()
    }

    /// A bus that will answer `steps` in order.
    pub fn new(steps: Vec<Step>) -> (r: Self)
        ensures
            r.i2c_log() == Seq::<I2cEvent>::empty(),
            r.consumed() == 0,
            r.script_len() == steps@.len(),
            r.script() == steps@,
            r.i2c_upcoming() == known_of(steps@),
    {
        MockI2c { steps, next: 0, log: Ghost(Seq::empty()), failed: Ghost(Seq::empty()) }
    }

    /// Whether every scripted step has been consumed.
    pub fn is_drained(&self) -> (r: bool)
        ensures
            r == (self.consumed() >= self.script_len()),
    {
        self.next >= self.steps.len()
    }
}

impl I2cTransport for MockI2c {
    closed spec fn i2c_log(&self) -> Seq<I2cEvent> {
        self.log@
    }

    closed spec fn i2c_failures(&self) -> Seq<Error> {
        self.failed@
    }

    /// What is left of the script.
    open spec fn i2c_upcoming(&self) -> Seq<KnownTransfer> {
        if self.consumed() <= self.script().len() {
            known_of(self.script().skip(self.consumed() as int))
        } else {
            Seq::empty()
        }
    }

    /// Every probe is acknowledged.
    open spec fn i2c_probes_answered(&self) -> bool {
        true
    }

    /// A matching refusing step answers [`Error::I2cNack`]; a matching
    /// step with a reply of `rx_len` bytes answers it; anything else is a
    /// mismatch at the current step, and consumes nothing.
    fn i2c_transfer(&mut self, slave_7bit: u8, tx: &[u8], rx_len: usize) -> (r: Result<Vec<u8>>)
        ensures
            final(self).script() == old(self).script(),
            ({
                let k = old(self).consumed() as int;
                let st = old(self).script()[k];
                let hit = k < old(self).script().len() && step_matches(st, slave_7bit, tx@, rx_len);
                &&& hit && st.nack ==> r == Err::<Vec<u8>, Error>(Error::I2cNack { slave_7bit })
                    && final(self).consumed() == k + 1
                &&& hit && !st.nack && st.read_back@.len() == rx_len ==> (r matches Ok(rx) && rx@ == st.read_back@
                    && final(self).consumed() == k + 1)
                &&& !(hit && (st.nack || st.read_back@.len() == rx_len)) ==> (r matches Err(Error::ScriptMismatch { step })
                    && step == k && final(self).consumed() == k)
            }),
    {
        if self.next < self.steps.len() {
            let step = &self.steps[self.next];
            if step.slave == slave_7bit && bytes_eq(step.tx.as_slice(), tx) && step.rx_len == rx_len {
                if step.nack {
                    proof {
                        let up = self.i2c_upcoming();
                        if i2c_answers(up, seq![(slave_7bit, tx@, rx_len as nat)]) {
                            assert(up[0] == known_of(self.script().skip(self.consumed() as int))[0]);
                            assert(self.script().skip(self.consumed() as int)[0] == self.steps@[self.next as int]);
                        }
                    }
                    self.next = self.next + 1;
                    let e = Error::I2cNack { slave_7bit };
                    self.failed = Ghost(self.failed@.push(e));
                    return Err(e);
                }
            }
            if step.slave == slave_7bit && bytes_eq(step.tx.as_slice(), tx) && step.rx_len == rx_len
                && step.read_back.len() == rx_len {
                let out = to_vec(step.read_back.as_slice());
                let ghost up0 = self.i2c_upcoming();
                self.next = self.next + 1;
                self.log = Ghost(self.log@.push(I2cEvent::Transfer { slave: slave_7bit, tx: tx@, rx: out@ }));
                proof {
                    assert(up0.drop_first() =~= self.i2c_upcoming());
                }
                return Ok(out);
            }
        }
        proof {
            if i2c_answers(self.i2c_upcoming(), seq![(slave_7bit, tx@, rx_len as nat)]) {
                assert(self.consumed() < self.script().len());
                assert(self.i2c_upcoming()[0] == known_of(self.script().skip(self.consumed() as int))[0]);
                assert(self.script().skip(self.consumed() as int)[0] == self.steps@[self.next as int]);
                assert(seq![(slave_7bit, tx@, rx_len as nat)][0] == (slave_7bit, tx@, rx_len as nat));
            }
        }
        let e = Error::ScriptMismatch { step: self.next };
        self.failed = Ghost(self.failed@.push(e));
        Err(e)
    }

    /// Every probe is acknowledged.
    fn i2c_probe(&mut self, slave_7bit: u8) -> (r: Result<bool>)
        ensures
            r == Ok::<bool, Error>(true),
            final(self).script() == old(self).script(),
            final(self).consumed() == old(self).consumed(),
    {
        self.log = Ghost(self.log@.push(I2cEvent::Probe { slave: slave_7bit, ack: true }));
        Ok(true)
    }

    /// The wait is recorded; the script is untouched.
    fn pause_ms(&mut self, ms: u64)
        ensures
            final(self).script() == old(self).script(),
            final(self).consumed() == old(self).consumed(),
    {
        self.log = Ghost(self.log@.push(I2cEvent::Pause { ms }));
    }
}

/// The memory address a 24Cxx decodes from a transaction: the stolen
/// slave-address bits above the on-wire address bytes.
pub open spec fn decoded_addr(chip: I2cChip, slave: u8, wire: Seq<u8>) -> int {
    let low: int = if chip.addr_width == 1 { wire[0] as int } else { wire[0] as int * 256 + wire[1] as int };
    let high: int = if chip.slave_addr_bits == 0 { 0 } else { (slave & stolen_mask(chip.slave_addr_bits)) as int };
    high * (if chip.addr_width == 1 { 256int } else { 65536int }) + low
}

/// The slave address and the address bytes together carry the memory
/// address: for any address the chip holds (a 24Cxx steals at most
/// three slave bits), the chip decodes exactly `mem_addr`, whatever the
/// pin straps.
pub proof fn lemma_address_round_trip(chip: I2cChip, mem_addr: u32, pin_straps: u8)
    requires
        chip.addr_width == 1 || chip.addr_width == 2,
        chip.slave_addr_bits <= 3,
        mem_addr < (if chip.addr_width == 1 { 256u32 } else { 65536u32 }) << chip.slave_addr_bits,
    ensures
        decoded_addr(chip, slave_for(chip, mem_addr, pin_straps), wire_addr(chip, mem_addr)) == mem_addr,
{
    let b = chip.slave_addr_bits;
    let m = mem_addr;
    let s = pin_straps;
    let w = wire_addr(chip, m);
    if chip.addr_width == 1 {
        if b == 0 {
            assert(((m as u8) as u32) == m) by (bit_vector)
                requires
                    m < (256u32 << 0u8),
            ;
        } else {
            let mask = stolen_mask(b);
            let h = ((m >> 8u32) as u8) & mask;
            assert(((0x50u8 | ((s & !mask) & 7u8) | h) & mask) == h && (h as u32) * 256 + ((m as u8) as u32) == m)
                by (bit_vector)
                requires
                    1 <= b <= 3,
                    mask == ((1u8 << b) - 1) as u8,
                    h == ((m >> 8u32) as u8) & mask,
                    m < (256u32 << b),
            ;
            assert(slave_for(chip, m, s) == (0x50u8 | ((s & !mask) & 7u8) | h));
        }
    } else {
        if b == 0 {
            assert(((m >> 8u32) as u8) as u32 * 256 + ((m as u8) as u32) == m) by (bit_vector)
                requires
                    m < (65536u32 << 0u8),
            ;
        } else {
            let mask = stolen_mask(b);
            let h = ((m >> 16u32) as u8) & mask;
            assert(((0x50u8 | ((s & !mask) & 7u8) | h) & mask) == h
                && (h as u32) * 65536 + (((m >> 8u32) as u8) as u32) * 256 + ((m as u8) as u32) == m)
                by (bit_vector)
                requires
                    1 <= b <= 3,
                    mask == ((1u8 << b) - 1) as u8,
                    h == ((m >> 16u32) as u8) & mask,
                    m < (65536u32 << b),
            ;
            assert(slave_for(chip, m, s) == (0x50u8 | ((s & !mask) & 7u8) | h));
        }
    }
}

/// The data of a list of write pieces, concatenated in order.
pub open spec fn joined(ps: Seq<(int, Seq<u8>)>) -> Seq<u8>
    decreases ps.len(),
{
    if ps.len() == 0 {
        Seq::empty()
    } else {
        ps[0].1 + joined(ps.drop_first())
    }
}

/// An EEPROM write never spans two pages or overfills a transaction,
/// and writes exactly its data: the pieces are non-empty, at most
/// [`MAX_WRITE_DATA_PER_TXN`] bytes, each inside one page, they follow
/// each other without gap from `addr`, and their data concatenated is
/// `data`.
pub proof fn lemma_write_pieces(addr: int, data: Seq<u8>, page: int)
    requires
        page > 0,
    ensures
        joined(write_pieces(addr, data, page)) == data,
        write_pieces(addr, data, page).len() > 0 ==> write_pieces(addr, data, page)[0].0 == addr,
        forall|i: int|
            0 <= i < write_pieces(addr, data, page).len() ==> 0 < (#[trigger] write_pieces(addr, data, page)[i]).1.len()
                <= MAX_WRITE_DATA_PER_TXN && write_pieces(addr, data, page)[i].0 % page + write_pieces(addr, data, page)[i].1.len()
                <= page,
        forall|i: int|
            0 < i < write_pieces(addr, data, page).len() ==> (#[trigger] write_pieces(addr, data, page)[i]).0
                == write_pieces(addr, data, page)[i - 1].0 + write_pieces(addr, data, page)[i - 1].1.len(),
    decreases data.len(),
{
    let ps = write_pieces(addr, data, page);
    if data.len() > 0 {
        let room = page - addr % page;
        let a = if data.len() < room { data.len() as int } else { room };
        let n = if a < MAX_WRITE_DATA_PER_TXN { a } else { MAX_WRITE_DATA_PER_TXN as int };
        let rest = write_pieces(addr + n, data.skip(n), page);
        lemma_write_pieces(addr + n, data.skip(n), page);
        assert(ps == seq![(addr, data.take(n))] + rest);
        assert(ps.drop_first() =~= rest);
        assert(data.take(n) + data.skip(n) =~= data);
        assert forall|i: int| 0 < i < ps.len() implies (#[trigger] ps[i]).0 == ps[i - 1].0 + ps[i - 1].1.len() by {
            assert(ps[i] == rest[i - 1]);
            if i > 1 {
                assert(ps[i - 1] == rest[i - 2]);
            }
        }
        assert forall|i: int| 0 <= i < ps.len() implies 0 < (#[trigger] ps[i]).1.len() <= MAX_WRITE_DATA_PER_TXN
            && ps[i].0 % page + ps[i].1.len() <= page by {
            if i > 0 {
                assert(ps[i] == rest[i - 1]);
            }
        }
    } else {
        assert(joined(ps) =~= data);
    }
}

/// An EEPROM read asks for exactly its range in pieces of at most
/// `chunk` bytes: none empty, starting at `addr`, each beginning where
/// the previous one ended, the last ending at `end`.
pub proof fn lemma_pieces_cover(addr: int, end: int, chunk: int)
    requires
        chunk > 0,
    ensures
        addr < end ==> pieces(addr, end, chunk).len() > 0 && pieces(addr, end, chunk)[0].0 == addr
            && pieces(addr, end, chunk).last().0 + pieces(addr, end, chunk).last().1 == end,
        addr >= end ==> pieces(addr, end, chunk).len() == 0,
        forall|i: int| 0 <= i < pieces(addr, end, chunk).len() ==> 0 < (#[trigger] pieces(addr, end, chunk)[i]).1 <= chunk,
        forall|i: int|
            0 < i < pieces(addr, end, chunk).len() ==> (#[trigger] pieces(addr, end, chunk)[i]).0 == pieces(addr, end, chunk)[i
                - 1].0 + pieces(addr, end, chunk)[i - 1].1,
    decreases gap(addr, end),
{
    let cs = pieces(addr, end, chunk);
    if addr < end {
        let n = if end - addr < chunk { end - addr } else { chunk };
        let rest = pieces(addr + n, end, chunk);
        lemma_pieces_cover(addr + n, end, chunk);
        assert(cs == seq![(addr, n)] + rest);
        assert forall|i: int| 0 < i < cs.len() implies (#[trigger] cs[i]).0 == cs[i - 1].0 + cs[i - 1].1 by {
            assert(cs[i] == rest[i - 1]);
            if i > 1 {
                assert(cs[i - 1] == rest[i - 2]);
            }
        }
        assert forall|i: int| 0 <= i < cs.len() implies 0 < (#[trigger] cs[i]).1 <= chunk by {
            if i > 0 {
                assert(cs[i] == rest[i - 1]);
            }
        }
        if rest.len() > 0 {
            assert(cs.last() == rest.last());
        }
    }
}

} // verus!
