//! A model of a SPI NOR flash chip and what the write path leaves in it.
//!
//! The chip holds `m: Seq<u8>` (one byte per address) and reacts to the
//! commands of one address width as NOR flash datasheets describe them:
//! a 4 KB sector erase or 64 KB block erase sets the aligned sector or
//! block containing the address to 0xFF, a chip erase sets everything
//! to 0xFF, and a page program loads its data into the page buffer from
//! the address's offset (wrapping at the page end, a later byte
//! replacing an earlier one at the same offset) and then clears, in each
//! loaded byte, the bits that are clear in the data (programming can
//! only turn 1s into 0s). Every other command leaves the contents alone.
use crate::chipdb::Chip;
use crate::ops::{
    addressing_spec, chip_bytes, chunked_reads, erase_cmd, erase_cmds, erase_ops, gap, in_range, payloads, program_chunks,
    program_cmds, read_chunks, round_up, write_cmds, READ_CHUNK,
};
use crate::spi::{program_command, read_command, Addressing, Txn, CHIP_ERASE};
use vstd::arithmetic::div_mod::{lemma_fundamental_div_mod, lemma_mod_add_multiples_vanish, lemma_mod_bound, lemma_mod_multiples_vanish, lemma_small_mod};
use vstd::prelude::*;

verus! {

/// The address a command of width `a` carries after its opcode.
pub open spec fn cmd_addr(a: Addressing, cmd: Seq<u8>) -> int {
    match a {
        Addressing::ThreeByte => cmd[1] as int * 0x10000 + cmd[2] as int * 0x100 + cmd[3] as int,
        Addressing::FourByte => cmd[1] as int * 0x1000000 + cmd[2] as int * 0x10000 + cmd[3] as int * 0x100 + cmd[4] as int,
    }
}

/// `m` with the `n` bytes from `from` set to 0xFF.
pub open spec fn erased(m: Seq<u8>, from: int, n: int) -> Seq<u8> {
    Seq::new(m.len(), |x: int| if from <= x < from + n { 0xFFu8 } else { m[x] })
}

/// The page buffer after loading `d` from offset `off`: each byte goes
/// to the next offset, wrapping at `page`, replacing what was there.
pub open spec fn page_buffer(off: int, d: Seq<u8>, page: int) -> Seq<Option<u8>>
    decreases d.len(),
{
    if d.len() == 0 {
        Seq::new(page as nat, |_o: int| None::<u8>)
    } else {
        page_buffer(off, d.drop_last(), page).update((off + d.len() - 1) % page, Some(d.last()))
    }
}

/// `m` after programming `d` at `addr` into a chip with `page`-byte pages.
pub open spec fn programmed(m: Seq<u8>, addr: int, d: Seq<u8>, page: int) -> Seq<u8> {
    let off = addr % page;
    let base = addr - off;
    let buf = page_buffer(off, d, page);
    Seq::new(
        m.len(),
        |x: int|
            if base <= x < base + page && buf[x - base] is Some {
                m[x] & buf[x - base].unwrap()
            } else {
                m[x]
            },
    )
}

/// The contents after the chip executes one command of width `a`.
pub open spec fn nor_exec(m: Seq<u8>, a: Addressing, page: int, cmd: Seq<u8>) -> Seq<u8> {
    let h = a.header_len() as int;
    if cmd.len() == 1 && cmd[0] == CHIP_ERASE {
        erased(m, 0, m.len() as int)
    } else if cmd.len() == h && cmd[0] == a.sector_erase_op() {
        let x = cmd_addr(a, cmd);
        erased(m, x - x % 0x1000, 0x1000)
    } else if cmd.len() == h && cmd[0] == a.block_erase_op() {
        let x = cmd_addr(a, cmd);
        erased(m, x - x % 0x10000, 0x10000)
    } else if cmd.len() > h && cmd[0] == a.page_program_op() {
        programmed(m, cmd_addr(a, cmd), cmd.skip(h), page)
    } else {
        m
    }
}

/// The contents after the chip executes `cmds` in order.
pub open spec fn nor_run(m: Seq<u8>, a: Addressing, page: int, cmds: Seq<Seq<u8>>) -> Seq<u8>
    decreases cmds.len(),
{
    if cmds.len() == 0 {
        m
    } else {
        nor_exec(nor_run(m, a, page, cmds.drop_last()), a, page, cmds.last())
    }
}

/// The highest address a command of width `a` can carry, plus one.
pub open spec fn addr_limit(a: Addressing) -> int {
    match a {
        Addressing::ThreeByte => 0x1000000,
        Addressing::FourByte => 0x1_0000_0000,
    }
}

/// The chip reads back the address a command was built with.
proof fn lemma_decode(a: Addressing, op: u8, addr: u32, rest: Seq<u8>)
    requires
        addr < addr_limit(a),
    ensures
        cmd_addr(a, seq![op] + a.addr_seq(addr) + rest) == addr,
        (seq![op] + a.addr_seq(addr) + rest).len() == a.header_len() + rest.len(),
        (seq![op] + a.addr_seq(addr) + rest)[0] == op,
        (seq![op] + a.addr_seq(addr) + rest).skip(a.header_len() as int) == rest,
{
    let c = seq![op] + a.addr_seq(addr) + rest;
    match a {
        Addressing::ThreeByte => {
            assert(c[1] == (addr >> 16u32) as u8 && c[2] == (addr >> 8u32) as u8 && c[3] == addr as u8);
            assert(((addr >> 16u32) as u8) as int * 0x10000 + ((addr >> 8u32) as u8) as int * 0x100 + (addr as u8) as int
                == addr as int) by (bit_vector)
                requires
                    addr < 0x1000000u32,
            ;
        },
        Addressing::FourByte => {
            assert(c[1] == (addr >> 24u32) as u8 && c[2] == (addr >> 16u32) as u8 && c[3] == (addr >> 8u32) as u8 && c[4]
                == addr as u8);
            assert(((addr >> 24u32) as u8) as int * 0x1000000 + ((addr >> 16u32) as u8) as int * 0x10000 + ((addr
                >> 8u32) as u8) as int * 0x100 + (addr as u8) as int == addr as int) by (bit_vector);
        },
    }
    assert(c.skip(a.header_len() as int) =~= rest);
}

/// Running two command lists one after the other is running their
/// concatenation.
pub proof fn lemma_run_concat(m: Seq<u8>, a: Addressing, page: int, s1: Seq<Seq<u8>>, s2: Seq<Seq<u8>>)
    ensures
        nor_run(m, a, page, s1 + s2) == nor_run(nor_run(m, a, page, s1), a, page, s2),
    decreases s2.len(),
{
    if s2.len() == 0 {
        assert(s1 + s2 =~= s1);
    } else {
        lemma_run_concat(m, a, page, s1, s2.drop_last());
        assert((s1 + s2).drop_last() =~= s1 + s2.drop_last());
        assert((s1 + s2).last() == s2.last());
    }
}

/// Running one command, then a list, is running the list with that
/// command in front.
proof fn lemma_run_cons(m: Seq<u8>, a: Addressing, page: int, c: Seq<u8>, rest: Seq<Seq<u8>>)
    ensures
        nor_run(m, a, page, seq![c] + rest) == nor_run(nor_exec(m, a, page, c), a, page, rest),
{
    lemma_run_concat(m, a, page, seq![c], rest);
    assert(seq![c].drop_last() =~= Seq::<Seq<u8>>::empty());
    assert(nor_run(m, a, page, seq![c].drop_last()) == m);
    assert(nor_run(m, a, page, seq![c]) == nor_exec(m, a, page, c));
}

/// Two multiples of 4096, the first below the second, are at least
/// 4096 apart.
proof fn lemma_aligned_gap(x: int, y: int)
    requires
        x % 0x1000 == 0,
        y % 0x1000 == 0,
        x < y,
    ensures
        x + 0x1000 <= y,
{
    lemma_fundamental_div_mod(x, 0x1000);
    lemma_fundamental_div_mod(y, 0x1000);
    let qx = x / 0x1000;
    let qy = y / 0x1000;
    assert(qx < qy) by (nonlinear_arith)
        requires
            x == 0x1000 * qx,
            y == 0x1000 * qy,
            x < y,
    ;
    assert(x + 0x1000 <= y) by (nonlinear_arith)
        requires
            x == 0x1000 * qx,
            y == 0x1000 * qy,
            qx + 1 <= qy,
    ;
}


/// A range erase of `[addr, end)`, both 4096-aligned and addressable,
/// leaves exactly that range 0xFF and everything else as it was.
proof fn lemma_erase_phase(m: Seq<u8>, a: Addressing, page: int, addr: int, end: int)
    requires
        0 <= addr,
        addr % 0x1000 == 0,
        end % 0x1000 == 0,
        end <= addr_limit(a),
    ensures
        nor_run(m, a, page, erase_cmds(a, erase_ops(addr, end, 0x1000))).len() == m.len(),
        forall|x: int|
            0 <= x < m.len() ==> #[trigger] nor_run(m, a, page, erase_cmds(a, erase_ops(addr, end, 0x1000)))[x] == (if addr
                <= x < end {
                0xFFu8
            } else {
                m[x]
            }),
    decreases gap(addr, end),
{
    let ops = erase_ops(addr, end, 0x1000);
    if addr < end {
        let blk = addr % 0x10000 == 0 && end - addr >= 0x10000;
        let step: int = if blk { 0x10000 } else { 0x1000 };
        let op = (addr, blk);
        let rest = erase_ops(addr + step, end, 0x1000);
        assert(ops == seq![op] + rest);
        assert(erase_cmds(a, ops) =~= seq![erase_cmd(a, op)] + erase_cmds(a, rest));
        if !blk {
            lemma_aligned_gap(addr, end);
        }
        let c = erase_cmd(a, op);
        let code = if blk { a.block_erase_op() } else { a.sector_erase_op() };
        lemma_decode(a, code, addr as u32, Seq::empty());
        assert(c =~= seq![code] + a.addr_seq(addr as u32) + Seq::<u8>::empty());
        let m1 = nor_exec(m, a, page, c);
        assert(m1 =~= erased(m, addr, step));
        if blk {
            lemma_mod_multiples_vanish(16, addr, 0x1000);
            assert(0x1000 * 16 + addr == addr + step);
        } else {
            lemma_mod_add_multiples_vanish(addr, 0x1000);
        }
        lemma_erase_phase(m1, a, page, addr + step, end);
        lemma_run_cons(m, a, page, c, erase_cmds(a, rest));
    } else {
        assert(erase_cmds(a, ops) =~= Seq::<Seq<u8>>::empty());
    }
}

/// Loading `d` from offset `off` without reaching the page end fills
/// exactly the offsets `off .. off + d.len()`, in order.
pub proof fn lemma_page_buffer(off: int, d: Seq<u8>, page: int)
    requires
        0 <= off,
        off + d.len() <= page,
    ensures
        page_buffer(off, d, page).len() == page,
        forall|o: int|
            0 <= o < page ==> #[trigger] page_buffer(off, d, page)[o] == (if off <= o < off + d.len() {
                Some(d[o - off])
            } else {
                None
            }),
    decreases d.len(),
{
    if d.len() > 0 {
        lemma_page_buffer(off, d.drop_last(), page);
        lemma_small_mod((off + d.len() - 1) as nat, page as nat);
    }
}

/// A page program that stays inside one page clears, at each address
/// it covers, the bits clear in the data, and touches nothing else.
proof fn lemma_programmed(m: Seq<u8>, addr: int, d: Seq<u8>, page: int)
    requires
        page > 0,
        0 <= addr,
        addr % page + d.len() <= page,
    ensures
        programmed(m, addr, d, page).len() == m.len(),
        forall|x: int|
            0 <= x < m.len() ==> #[trigger] programmed(m, addr, d, page)[x] == (if addr <= x < addr + d.len() {
                m[x] & d[x - addr]
            } else {
                m[x]
            }),
{
    lemma_mod_bound(addr, page);
    lemma_page_buffer(addr % page, d, page);
}

/// Page programs of `data` from `addr` over bytes that are 0xFF leave
/// `data` there and everything else as it was.
proof fn lemma_program_phase(m: Seq<u8>, a: Addressing, page: int, addr: int, data: Seq<u8>)
    requires
        page > 0,
        0 <= addr,
        addr + data.len() <= m.len(),
        addr + data.len() <= addr_limit(a),
        forall|x: int| addr <= x < addr + data.len() ==> m[x] == 0xFFu8,
    ensures
        nor_run(m, a, page, program_cmds(a, program_chunks(addr, data, page))).len() == m.len(),
        forall|x: int|
            0 <= x < m.len() ==> #[trigger] nor_run(m, a, page, program_cmds(a, program_chunks(addr, data, page)))[x] == (if addr
                <= x < addr + data.len() {
                data[x - addr]
            } else {
                m[x]
            }),
    decreases data.len(),
{
    let cs = program_chunks(addr, data, page);
    if data.len() > 0 {
        lemma_mod_bound(addr, page);
        let room = page - addr % page;
        let n = if data.len() < room { data.len() as int } else { room };
        let chunk = data.take(n);
        let rest = program_chunks(addr + n, data.skip(n), page);
        assert(cs == seq![(addr, chunk)] + rest);
        let c = program_command(a, addr as u32, chunk);
        assert(program_cmds(a, cs) =~= seq![c] + program_cmds(a, rest));
        lemma_decode(a, a.page_program_op(), addr as u32, chunk);
        let m1 = nor_exec(m, a, page, c);
        assert(m1 == programmed(m, addr, chunk, page));
        lemma_programmed(m, addr, chunk, page);
        assert(forall|b: u8| #[trigger] (0xFFu8 & b) == b) by (bit_vector);
        assert forall|x: int| addr + n <= x < addr + data.len() implies m1[x] == 0xFFu8 by {}
        lemma_program_phase(m1, a, page, addr + n, data.skip(n));
        lemma_run_cons(m, a, page, c, program_cmds(a, rest));
        let r = nor_run(m, a, page, program_cmds(a, cs));
        assert forall|x: int| 0 <= x < m.len() implies #[trigger] r[x] == (if addr <= x < addr + data.len() {
            data[x - addr]
        } else {
            m[x]
        }) by {
            if addr <= x < addr + n {
                assert(chunk[x - addr] == data[x - addr]);
            } else if addr + n <= x < addr + data.len() {
                assert(data.skip(n)[x - (addr + n)] == data[x - addr]);
            }
        }
    } else {
        assert(program_cmds(a, cs) =~= Seq::<Seq<u8>>::empty());
    }
}

/// A length rounded up to whole 4 KB sectors is a multiple of 4096, not
/// shorter than the length, and less than a sector longer.
proof fn lemma_round_up(len: int)
    requires
        0 <= len,
    ensures
        round_up(len, 0x1000) % 0x1000 == 0,
        len <= round_up(len, 0x1000) < len + 0x1000,
        len % 0x1000 != 0 ==> round_up(len, 0x1000) == len - len % 0x1000 + 0x1000,
{
    lemma_mod_bound(len, 0x1000);
    lemma_fundamental_div_mod(len, 0x1000);
    if len % 0x1000 != 0 {
        let q = len / 0x1000;
        lemma_mod_multiples_vanish(q + 1, 0, 0x1000);
        assert(0x1000 * (q + 1) == len - len % 0x1000 + 0x1000) by (nonlinear_arith)
            requires
                len == 0x1000 * q + len % 0x1000,
        ;
    }
}

/// Addresses below the end of a range rounded up to 4 KB stay inside
/// what a command of the chip's width can carry.
proof fn lemma_write_addressable(size_kb: u32, start: u32, len: int)
    requires
        0 <= len,
        start % 0x1000 == 0,
        in_range(start, len, size_kb),
        start + round_up(len, 0x1000) <= u32::MAX,
    ensures
        (start + round_up(len, 0x1000)) % 0x1000 == 0,
        start + round_up(len, 0x1000) <= addr_limit(addressing_spec(size_kb)),
{
    lemma_round_up(len);
    let e = start + round_up(len, 0x1000);
    lemma_fundamental_div_mod(start as int, 0x1000);
    lemma_fundamental_div_mod(round_up(len, 0x1000), 0x1000);
    let qs = start as int / 0x1000;
    let qr = round_up(len, 0x1000) / 0x1000;
    lemma_mod_multiples_vanish(qs + qr, 0, 0x1000);
    assert(0x1000 * (qs + qr) + 0 == e) by (nonlinear_arith)
        requires
            start == 0x1000 * qs,
            round_up(len, 0x1000) == 0x1000 * qr,
            e == start + round_up(len, 0x1000),
    ;
    if addressing_spec(size_kb) is ThreeByte && e > 0x1000000 {
        assert(0x1000000int % 0x1000 == 0);
        lemma_aligned_gap(0x1000000, e);
    }
}

/// A write with erase, on a chip that behaves as modelled, leaves the
/// chip holding exactly the data at its address, and changes nothing
/// outside the 4 KB sectors the range touches. (The chip must erase in
/// 4 KB sectors: the range erase steps by the catalogue's sector size
/// but sends the 4 KB sector-erase opcode.)
pub proof fn lemma_write_stores_data(chip: Chip, start: u32, data: Seq<u8>, m: Seq<u8>)
    requires
        chip.sector_size == 0x1000,
        chip.page_size > 0,
        in_range(start, data.len() as int, chip.size_kb),
        start % 0x1000 == 0,
        start + round_up(data.len() as int, 0x1000) <= u32::MAX,
        m.len() == chip_bytes(chip.size_kb),
    ensures
        ({
            let r = nor_run(m, addressing_spec(chip.size_kb), chip.page_size as int, write_cmds(chip, start, data, true));
            &&& r.len() == m.len()
            &&& r.subrange(start as int, start + data.len()) == data
            &&& forall|x: int|
                0 <= x < m.len() && !(start <= x < start + round_up(data.len() as int, 0x1000)) ==> #[trigger] r[x] == m[x]
        }),
{
    let a = addressing_spec(chip.size_kb);
    let page = chip.page_size as int;
    let end = start + round_up(data.len() as int, 0x1000);
    lemma_round_up(data.len() as int);
    lemma_write_addressable(chip.size_kb, start, data.len() as int);
    let e = erase_cmds(a, erase_ops(start as int, end, 0x1000));
    let p = program_cmds(a, program_chunks(start as int, data, page));
    assert(write_cmds(chip, start, data, true) == e + p);
    lemma_run_concat(m, a, page, e, p);
    lemma_erase_phase(m, a, page, start as int, end);
    let m1 = nor_run(m, a, page, e);
    lemma_program_phase(m1, a, page, start as int, data);
    let r = nor_run(m1, a, page, p);
    assert(r.subrange(start as int, start + data.len()) =~= data);
}

/// A write without erase over bytes that are all 0xFF leaves the chip
/// holding exactly the data at its address and changes nothing else.
pub proof fn lemma_write_on_blank(chip: Chip, start: u32, data: Seq<u8>, m: Seq<u8>)
    requires
        chip.page_size > 0,
        in_range(start, data.len() as int, chip.size_kb),
        m.len() == chip_bytes(chip.size_kb),
        forall|x: int| start <= x < start + data.len() ==> m[x] == 0xFFu8,
    ensures
        ({
            let r = nor_run(m, addressing_spec(chip.size_kb), chip.page_size as int, write_cmds(chip, start, data, false));
            &&& r.len() == m.len()
            &&& r.subrange(start as int, start + data.len()) == data
            &&& forall|x: int| 0 <= x < m.len() && !(start <= x < start + data.len()) ==> #[trigger] r[x] == m[x]
        }),
{
    let a = addressing_spec(chip.size_kb);
    let page = chip.page_size as int;
    let p = program_cmds(a, program_chunks(start as int, data, page));
    assert(write_cmds(chip, start, data, false) =~= p);
    lemma_program_phase(m, a, page, start as int, data);
    let r = nor_run(m, a, page, p);
    assert(r.subrange(start as int, start + data.len()) =~= data);
}

/// The chip answers a read-data command of width `a` with its contents
/// from the command's address on, one byte per filler byte clocked.
pub open spec fn answers_read(m: Seq<u8>, a: Addressing, t: Txn) -> bool {
    let h = a.header_len() as int;
    t.0.len() >= h && t.0[0] == a.read_op() ==> t.1.len() == t.0.len() && t.1.subrange(h, t.1.len() as int)
        == m.subrange(cmd_addr(a, t.0), cmd_addr(a, t.0) + t.0.len() - h)
}

/// The data of read transactions in front of more is their data first.
proof fn lemma_payloads_cons(t: Txn, log: Seq<Txn>, h: int)
    ensures
        payloads(seq![t] + log, h) == t.1.subrange(h, t.1.len() as int) + payloads(log, h),
    decreases log.len(),
{
    if log.len() == 0 {
        assert(seq![t] + log =~= seq![t]);
        assert(seq![t].drop_last() =~= Seq::<Txn>::empty());
        assert(payloads(Seq::<Txn>::empty(), h) == Seq::<u8>::empty());
        assert(payloads(seq![t], h) =~= t.1.subrange(h, t.1.len() as int));
    } else {
        lemma_payloads_cons(t, log.drop_last(), h);
        assert((seq![t] + log).drop_last() =~= seq![t] + log.drop_last());
        assert((seq![t] + log).last() == log.last());
    }
}

/// A read transaction for `(addr, n)` answered by the chip carries the
/// `n` bytes of its contents from `addr`.
proof fn lemma_one_read(m: Seq<u8>, a: Addressing, addr: int, n: int, t: Txn)
    requires
        0 <= addr,
        0 < n,
        addr + n <= m.len(),
        addr + n <= addr_limit(a),
        crate::ops::read_txn(a, (addr, n), t),
        answers_read(m, a, t),
    ensures
        t.1.subrange(a.header_len() as int, t.1.len() as int) == m.subrange(addr, addr + n),
{
    lemma_decode(a, a.read_op(), addr as u32, crate::spi::zeros(n as nat));
    assert(t.0 =~= seq![a.read_op()] + a.addr_seq(addr as u32) + crate::spi::zeros(n as nat));
}

/// The reads after the first of a chunked read are a chunked read of
/// the rest.
proof fn lemma_reads_tail(a: Addressing, c: (int, int), rest: Seq<(int, int)>, log: Seq<Txn>)
    requires
        chunked_reads(a, seq![c] + rest, log),
    ensures
        chunked_reads(a, rest, log.drop_first()),
        crate::ops::read_txn(a, c, log[0]),
        log =~= seq![log[0]] + log.drop_first(),
{
    let cs = seq![c] + rest;
    assert(crate::ops::read_txn(a, cs[0], log[0]));
    assert forall|i: int| 0 <= i < log.drop_first().len() implies crate::ops::read_txn(a, rest[i], #[trigger] log.drop_first()[i]) by {
        assert(log.drop_first()[i] == log[i + 1]);
        assert(rest[i] == cs[i + 1]);
    }
}

/// Chunked reads of `[start, end)` from a chip that answers reads from
/// its contents return exactly those contents.
pub proof fn lemma_reads_return_contents(m: Seq<u8>, a: Addressing, start: int, end: int, chunk: int, log: Seq<Txn>)
    requires
        0 <= start <= end <= m.len(),
        end <= addr_limit(a),
        chunk > 0,
        chunked_reads(a, read_chunks(start, end, chunk), log),
        forall|i: int| 0 <= i < log.len() ==> answers_read(m, a, #[trigger] log[i]),
    ensures
        payloads(log, a.header_len() as int) == m.subrange(start, end),
    decreases gap(start, end),
{
    let h = a.header_len() as int;
    let cs = read_chunks(start, end, chunk);
    if start < end {
        let n = if end - start < chunk { end - start } else { chunk };
        let rest = read_chunks(start + n, end, chunk);
        assert(cs == seq![(start, n)] + rest);
        lemma_reads_tail(a, (start, n), rest, log);
        let t = log[0];
        let tail = log.drop_first();
        assert forall|i: int| 0 <= i < tail.len() implies answers_read(m, a, #[trigger] tail[i]) by {
            assert(tail[i] == log[i + 1]);
        }
        lemma_reads_return_contents(m, a, start + n, end, chunk, tail);
        lemma_one_read(m, a, start, n, t);
        lemma_payloads_cons(t, tail, h);
        assert(m.subrange(start, start + n) + m.subrange(start + n, end) =~= m.subrange(start, end));
    } else {
        assert(log.len() == 0);
        assert(payloads(log, h) =~= m.subrange(start, end));
    }
}

/// What a read gives back of a write: after a write with erase that
/// asks for a read-back, a chip behaving as modelled answers the
/// read-back with exactly the data written, so the write's verify finds
/// no difference.
pub proof fn lemma_readback_after_write(chip: Chip, start: u32, data: Seq<u8>, m: Seq<u8>, back: Seq<Txn>)
    requires
        chip.sector_size == 0x1000,
        chip.page_size > 0,
        in_range(start, data.len() as int, chip.size_kb),
        start % 0x1000 == 0,
        start + round_up(data.len() as int, 0x1000) <= u32::MAX,
        m.len() == chip_bytes(chip.size_kb),
        chunked_reads(addressing_spec(chip.size_kb), read_chunks(start as int, start + data.len(), READ_CHUNK as int), back),
        forall|i: int|
            0 <= i < back.len() ==> answers_read(
                nor_run(m, addressing_spec(chip.size_kb), chip.page_size as int, write_cmds(chip, start, data, true)),
                addressing_spec(chip.size_kb),
                #[trigger] back[i],
            ),
    ensures
        payloads(back, addressing_spec(chip.size_kb).header_len() as int) == data,
{
    let a = addressing_spec(chip.size_kb);
    let r = nor_run(m, a, chip.page_size as int, write_cmds(chip, start, data, true));
    lemma_write_stores_data(chip, start, data, m);
    lemma_round_up(data.len() as int);
    lemma_write_addressable(chip.size_kb, start, data.len() as int);
    lemma_reads_return_contents(r, a, start as int, start + data.len(), READ_CHUNK as int, back);
}


/// A chip erase leaves every byte 0xFF, so a blank check afterwards
/// passes.
pub proof fn lemma_chip_erase_blanks(m: Seq<u8>, a: Addressing, page: int)
    ensures
        nor_run(m, a, page, seq![seq![CHIP_ERASE]]).len() == m.len(),
        forall|x: int| 0 <= x < m.len() ==> #[trigger] nor_run(m, a, page, seq![seq![CHIP_ERASE]])[x] == 0xFFu8,
{
    lemma_run_cons(m, a, page, seq![CHIP_ERASE], Seq::empty());
    assert(seq![seq![CHIP_ERASE]] =~= seq![seq![CHIP_ERASE]] + Seq::<Seq<u8>>::empty());
}

} // verus!
