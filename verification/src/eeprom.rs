//! A model of a 24Cxx I²C EEPROM and what a write leaves in it.
//!
//! The chip holds `m: Seq<u8>` and is the one EEPROM on the bus. It
//! reads the memory address from the slave address's stolen bits and
//! the address bytes of each transfer. A pure write transfer loads its
//! data into the page from the address's offset (wrapping at the page
//! end, a later byte replacing an earlier one) and stores those bytes;
//! a transfer that reads answers with the memory from the address on.
//! Probes and pauses change nothing.
use crate::chipdb::I2cChip;
use crate::flash::page_buffer;
use crate::i2c::{
    decoded_addr, gap, lemma_address_round_trip, pieces, read_back, read_event, reads_of, slave_for, wire_addr, write_events,
    write_pieces, addressable, fits, I2cEvent, MAX_WRITE_DATA_PER_TXN,
};
use vstd::arithmetic::div_mod::{lemma_mod_bound, lemma_small_mod};
use vstd::prelude::*;

verus! {

/// `m` after the bytes `d` are written at `addr` of a chip with
/// `page`-byte pages.
pub open spec fn page_written(m: Seq<u8>, addr: int, d: Seq<u8>, page: int) -> Seq<u8> {
    let off = addr % page;
    let base = addr - off;
    let buf = page_buffer(off, d, page);
    Seq::new(m.len(), |x: int| if base <= x < base + page && buf[x - base] is Some { buf[x - base].unwrap() } else { m[x] })
}

/// The contents after the chip sees one bus event.
pub open spec fn eeprom_step(chip: I2cChip, m: Seq<u8>, e: I2cEvent) -> Seq<u8> {
    let w = chip.addr_width as int;
    match e {
        I2cEvent::Transfer { slave, tx, rx } => if rx.len() == 0 && tx.len() > w {
            page_written(m, decoded_addr(chip, slave, tx.take(w)), tx.skip(w), chip.page_size as int)
        } else {
            m
        },
        _ => m,
    }
}

/// The contents after the chip sees `events` in order.
pub open spec fn eeprom_run(chip: I2cChip, m: Seq<u8>, events: Seq<I2cEvent>) -> Seq<u8>
    decreases events.len(),
{
    if events.len() == 0 {
        m
    } else {
        eeprom_step(chip, eeprom_run(chip, m, events.drop_last()), events.last())
    }
}

/// The chip answers a transfer that reads with its contents from the
/// transfer's address on.
pub open spec fn answers(chip: I2cChip, m: Seq<u8>, e: I2cEvent) -> bool {
    match e {
        I2cEvent::Transfer { slave, tx, rx } => tx.len() == chip.addr_width && rx.len() > 0 ==> {
            let a = decoded_addr(chip, slave, tx);
            rx == m.subrange(a, a + rx.len())
        },
        _ => true,
    }
}

/// The most bytes a chip's slave and address bytes can reach.
pub open spec fn capacity(chip: I2cChip) -> int {
    (if chip.addr_width == 1 { 256int } else { 65536int }) * (if chip.slave_addr_bits == 0 {
        1int
    } else if chip.slave_addr_bits == 1 {
        2int
    } else if chip.slave_addr_bits == 2 {
        4int
    } else {
        8int
    })
}

/// `(256 or 65536) << bits` is the capacity.
proof fn lemma_capacity(chip: I2cChip)
    requires
        chip.addr_width == 1 || chip.addr_width == 2,
        chip.slave_addr_bits <= 3,
    ensures
        ((if chip.addr_width == 1 { 256u32 } else { 65536u32 }) << chip.slave_addr_bits) == capacity(chip),
{
    let b = chip.slave_addr_bits;
    if chip.addr_width == 1 {
        assert((256u32 << 0u8) == 256 && (256u32 << 1u8) == 512 && (256u32 << 2u8) == 1024 && (256u32 << 3u8) == 2048)
            by (bit_vector);
    } else {
        assert((65536u32 << 0u8) == 65536 && (65536u32 << 1u8) == 131072 && (65536u32 << 2u8) == 262144 && (65536u32
            << 3u8) == 524288) by (bit_vector);
    }
}

/// Running two event lists one after the other is running them joined.
proof fn lemma_run_concat(chip: I2cChip, m: Seq<u8>, s1: Seq<I2cEvent>, s2: Seq<I2cEvent>)
    ensures
        eeprom_run(chip, m, s1 + s2) == eeprom_run(chip, eeprom_run(chip, m, s1), s2),
    decreases s2.len(),
{
    if s2.len() == 0 {
        assert(s1 + s2 =~= s1);
    } else {
        lemma_run_concat(chip, m, s1, s2.drop_last());
        assert((s1 + s2).drop_last() =~= s1 + s2.drop_last());
        assert((s1 + s2).last() == s2.last());
    }
}

/// The events of a first piece then more are that piece's events then
/// the rest's.
proof fn lemma_events_cons(chip: I2cChip, straps: u8, c: (int, Seq<u8>), rest: Seq<(int, Seq<u8>)>)
    ensures
        write_events(chip, straps, seq![c] + rest) == write_events(chip, straps, seq![c]) + write_events(chip, straps, rest),
    decreases rest.len(),
{
    if rest.len() == 0 {
        assert(seq![c] + rest =~= seq![c]);
        assert(write_events(chip, straps, rest) =~= Seq::<I2cEvent>::empty());
        assert(write_events(chip, straps, seq![c]) + write_events(chip, straps, rest) =~= write_events(chip, straps, seq![c]));
    } else {
        lemma_events_cons(chip, straps, c, rest.drop_last());
        assert((seq![c] + rest).drop_last() =~= seq![c] + rest.drop_last());
        assert((seq![c] + rest).last() == rest.last());
    }
}

/// Bytes written inside one page land at their addresses and nothing
/// else changes.
proof fn lemma_page_written(m: Seq<u8>, addr: int, d: Seq<u8>, page: int)
    requires
        page > 0,
        0 <= addr,
        addr % page + d.len() <= page,
    ensures
        page_written(m, addr, d, page).len() == m.len(),
        forall|x: int|
            0 <= x < m.len() ==> #[trigger] page_written(m, addr, d, page)[x] == (if addr <= x < addr + d.len() {
                d[x - addr]
            } else {
                m[x]
            }),
{
    lemma_mod_bound(addr, page);
    crate::flash::lemma_page_buffer(addr % page, d, page);
}

/// The pieces of a write, addressed and paced as the library sends them,
/// leave the data in the chip and everything else as it was.
proof fn lemma_write_phase(chip: I2cChip, straps: u8, m: Seq<u8>, addr: int, data: Seq<u8>)
    requires
        chip.addr_width == 1 || chip.addr_width == 2,
        chip.slave_addr_bits <= 3,
        chip.page_size > 0,
        0 <= addr,
        addr + data.len() <= m.len(),
        addr + data.len() <= capacity(chip),
    ensures
        eeprom_run(chip, m, write_events(chip, straps, write_pieces(addr, data, chip.page_size as int))).len() == m.len(),
        forall|x: int|
            0 <= x < m.len() ==> #[trigger] eeprom_run(chip, m, write_events(chip, straps, write_pieces(addr, data, chip.page_size as int)))[x]
                == (if addr <= x < addr + data.len() {
                data[x - addr]
            } else {
                m[x]
            }),
    decreases data.len(),
{
    let page = chip.page_size as int;
    let ps = write_pieces(addr, data, page);
    if data.len() > 0 {
        lemma_mod_bound(addr, page);
        let room = page - addr % page;
        let a = if data.len() < room { data.len() as int } else { room };
        let n = if a < MAX_WRITE_DATA_PER_TXN { a } else { MAX_WRITE_DATA_PER_TXN as int };
        let c = (addr, data.take(n));
        let rest = write_pieces(addr + n, data.skip(n), page);
        assert(ps == seq![c] + rest);
        lemma_events_cons(chip, straps, c, rest);
        let slave = slave_for(chip, addr as u32, straps);
        let w = wire_addr(chip, addr as u32);
        let tx = w + c.1;
        let first = write_events(chip, straps, seq![c]);
        assert(seq![c].drop_last() =~= Seq::<(int, Seq<u8>)>::empty());
        assert(write_events(chip, straps, Seq::<(int, Seq<u8>)>::empty()) == Seq::<I2cEvent>::empty());
        assert(first =~= seq![
            I2cEvent::Transfer { slave, tx, rx: Seq::empty() },
            I2cEvent::Pause { ms: crate::i2c::settle_ms(chip) },
        ]);
        lemma_capacity(chip);
        lemma_address_round_trip(chip, addr as u32, straps);
        assert(tx.take(chip.addr_width as int) =~= w);
        assert(tx.skip(chip.addr_width as int) =~= c.1);
        let m1 = eeprom_step(chip, m, first[0]);
        assert(m1 == page_written(m, addr, c.1, page));
        lemma_page_written(m, addr, c.1, page);
        let m2 = eeprom_step(chip, m1, first[1]);
        assert(m2 == m1);
        assert(first.drop_last() =~= seq![first[0]]);
        assert(seq![first[0]].drop_last() =~= Seq::<I2cEvent>::empty());
        assert(eeprom_run(chip, m, Seq::<I2cEvent>::empty()) == m);
        assert(seq![first[0]].last() == first[0]);
        assert(eeprom_run(chip, m, seq![first[0]]) == m1);
        assert(eeprom_run(chip, m, first) == m2);
        lemma_write_phase(chip, straps, m2, addr + n, data.skip(n));
        lemma_run_concat(chip, m, first, write_events(chip, straps, rest));
        let r = eeprom_run(chip, m, write_events(chip, straps, ps));
        assert forall|x: int| 0 <= x < m.len() implies #[trigger] r[x] == (if addr <= x < addr + data.len() {
            data[x - addr]
        } else {
            m[x]
        }) by {
            if addr <= x < addr + n {
                assert(c.1[x - addr] == data[x - addr]);
            } else if addr + n <= x < addr + data.len() {
                assert(data.skip(n)[x - (addr + n)] == data[x - addr]);
            }
        }
    } else {
        assert(write_events(chip, straps, ps) =~= Seq::<I2cEvent>::empty());
    }
}

/// The bytes read back by a first transfer and then more are its bytes
/// followed by the rest's.
proof fn lemma_read_back_cons(e: I2cEvent, log: Seq<I2cEvent>)
    ensures
        read_back(seq![e] + log) == read_back(seq![e]) + read_back(log),
    decreases log.len(),
{
    if log.len() == 0 {
        assert(seq![e] + log =~= seq![e]);
        assert(read_back(log) =~= Seq::<u8>::empty());
        assert(read_back(seq![e]) + read_back(log) =~= read_back(seq![e]));
    } else {
        lemma_read_back_cons(e, log.drop_last());
        assert((seq![e] + log).drop_last() =~= seq![e] + log.drop_last());
        assert((seq![e] + log).last() == log.last());
    }
}

/// Piecewise reads of `[addr, end)` from a chip that answers them from
/// its contents read back exactly those contents.
proof fn lemma_reads_phase(chip: I2cChip, straps: u8, m: Seq<u8>, addr: int, end: int, chunk: int, log: Seq<I2cEvent>)
    requires
        chip.addr_width == 1 || chip.addr_width == 2,
        chip.slave_addr_bits <= 3,
        0 <= addr <= end <= m.len(),
        end <= capacity(chip),
        chunk > 0,
        reads_of(chip, straps, pieces(addr, end, chunk), log),
        forall|i: int| 0 <= i < log.len() ==> answers(chip, m, #[trigger] log[i]),
    ensures
        read_back(log) == m.subrange(addr, end),
    decreases gap(addr, end),
{
    let ps = pieces(addr, end, chunk);
    if addr < end {
        let n = if end - addr < chunk { end - addr } else { chunk };
        let rest = pieces(addr + n, end, chunk);
        assert(ps == seq![(addr, n)] + rest);
        let e = log[0];
        let tail = log.drop_first();
        assert(read_event(chip, straps, ps[0], e));
        assert(reads_of(chip, straps, rest, tail)) by {
            assert forall|i: int| 0 <= i < tail.len() implies read_event(chip, straps, rest[i], #[trigger] tail[i]) by {
                assert(tail[i] == log[i + 1]);
                assert(rest[i] == ps[i + 1]);
            }
        }
        assert forall|i: int| 0 <= i < tail.len() implies answers(chip, m, #[trigger] tail[i]) by {
            assert(tail[i] == log[i + 1]);
        }
        lemma_reads_phase(chip, straps, m, addr + n, end, chunk, tail);
        lemma_capacity(chip);
        lemma_address_round_trip(chip, addr as u32, straps);
        assert(answers(chip, m, e));
        assert(log =~= seq![e] + tail);
        lemma_read_back_cons(e, tail);
        assert(seq![e].drop_last() =~= Seq::<I2cEvent>::empty());
        assert(read_back(Seq::<I2cEvent>::empty()) == Seq::<u8>::empty());
        assert(m.subrange(addr, addr + n) + m.subrange(addr + n, end) =~= m.subrange(addr, end));
    } else {
        assert(log.len() == 0);
        assert(read_back(log) =~= m.subrange(addr, end));
    }
}

/// What a read gives back of a write: after the write events of data at
/// `addr` on the one EEPROM on the bus, piecewise reads of the same range
/// answered by the chip read back exactly the data. (The chip's size must
/// be within what its address bytes and stolen slave bits can reach.)
pub proof fn lemma_read_after_write(
    chip: I2cChip,
    straps: u8,
    addr: u32,
    data: Seq<u8>,
    m: Seq<u8>,
    chunk: int,
    log: Seq<I2cEvent>,
)
    requires
        addressable(chip),
        chip.slave_addr_bits <= 3,
        chip.page_size > 0,
        fits(addr, data.len() as int, chip),
        m.len() == chip.size_bytes,
        chip.size_bytes <= capacity(chip),
        chunk > 0,
        reads_of(chip, straps, pieces(addr as int, addr + data.len(), chunk), log),
        forall|i: int|
            0 <= i < log.len() ==> answers(
                chip,
                eeprom_run(chip, m, write_events(chip, straps, write_pieces(addr as int, data, chip.page_size as int))),
                #[trigger] log[i],
            ),
    ensures
        read_back(log) == data,
{
    let m2 = eeprom_run(chip, m, write_events(chip, straps, write_pieces(addr as int, data, chip.page_size as int)));
    lemma_write_phase(chip, straps, m, addr as int, data);
    lemma_reads_phase(chip, straps, m2, addr as int, addr + data.len(), chunk, log);
    assert(m2.subrange(addr as int, addr + data.len()) =~= data);
}


/// An EEPROM erase (0xFF written over the whole chip) leaves every byte
/// 0xFF, so a blank check afterwards passes.
pub proof fn lemma_erase_blanks(chip: I2cChip, straps: u8, m: Seq<u8>)
    requires
        addressable(chip),
        chip.slave_addr_bits <= 3,
        chip.page_size > 0,
        m.len() == chip.size_bytes,
        chip.size_bytes <= capacity(chip),
    ensures
        ({
            let ff = Seq::new(chip.size_bytes as nat, |_i: int| 0xFFu8);
            let r = eeprom_run(chip, m, write_events(chip, straps, write_pieces(0, ff, chip.page_size as int)));
            &&& r.len() == m.len()
            &&& forall|x: int| 0 <= x < r.len() ==> #[trigger] r[x] == 0xFFu8
        }),
{
    let ff = Seq::new(chip.size_bytes as nat, |_i: int| 0xFFu8);
    lemma_write_phase(chip, straps, m, 0, ff);
}

} // verus!
