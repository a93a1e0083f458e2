//! SPI NOR flash protocol.
//!
//! The transport (CH341A or a scripted stand-in) implements
//! [`SpiTransport`]; this module is hardware-agnostic and only knows
//! about SPI bytes. Every command's wire form is stated in the contracts
//! against the transport's transaction log.
use crate::bytes::{bytes_eq, push_all, push_zeros, to_vec};
use crate::error::{bus_error, failures_of, Error, Result};
use vstd::prelude::*;

verus! {

/// Read JEDEC manufacturer + device id.
pub const JEDEC_ID: u8 = 0x9F;
/// Read Status Register 1.
pub const READ_STATUS: u8 = 0x05;
/// Read Status Register 2 (W25Q family and most modern Macronix /
/// GigaDevice parts; others answer 0xFF).
pub const READ_STATUS_2: u8 = 0x35;
/// Read Status Register 3 (W25Q family only).
pub const READ_STATUS_3: u8 = 0x15;
/// Read the SFDP table: opcode + 3-byte address + 1 dummy byte.
pub const READ_SFDP: u8 = 0x5A;
/// Read a security register (0x48 convention): opcode + 3-byte address + dummy.
pub const READ_SECURITY_REG: u8 = 0x48;
/// Program a security register.
pub const PROGRAM_SECURITY_REG: u8 = 0x42;
/// Erase a security register.
pub const ERASE_SECURITY_REG: u8 = 0x44;
/// Write Enable.
pub const WRITE_ENABLE: u8 = 0x06;
/// Erase the whole chip.
pub const CHIP_ERASE: u8 = 0xC7;
/// 4 KB sector erase, 3-byte address.
pub const SECTOR_ERASE_4K: u8 = 0x20;
/// 64 KB block erase, 3-byte address.
pub const BLOCK_ERASE_64K: u8 = 0xD8;
/// Page program, 3-byte address.
pub const PAGE_PROGRAM: u8 = 0x02;
/// Read data, 3-byte address.
pub const READ_DATA: u8 = 0x03;
/// 4 KB sector erase, 4-byte address.
pub const SECTOR_ERASE_4K_4B: u8 = 0x21;
/// 64 KB block erase, 4-byte address.
pub const BLOCK_ERASE_64K_4B: u8 = 0xDC;
/// Page program, 4-byte address.
pub const PAGE_PROGRAM_4B: u8 = 0x12;
/// Read data, 4-byte address.
pub const READ_DATA_4B: u8 = 0x13;

/// SR1 Write-In-Progress bit.
pub const SR1_WIP: u8 = 0b0000_0001;
/// SR1 Write-Enable-Latch bit.
pub const SR1_WEL: u8 = 0b0000_0010;

/// One completed transaction: the bytes clocked out and the bytes captured.
pub type Txn = (Seq<u8>, Seq<u8>);

/// Big-endian 24-bit address bytes.
pub open spec fn be24(addr: u32) -> Seq<u8> {
    seq![(addr >> 16u32) as u8, (addr >> 8u32) as u8, addr as u8]
}

/// Big-endian 32-bit address bytes.
pub open spec fn be32(addr: u32) -> Seq<u8> {
    seq![(addr >> 24u32) as u8, (addr >> 16u32) as u8, (addr >> 8u32) as u8, addr as u8]
}

/// `n` zero bytes.
pub open spec fn zeros(n: nat) -> Seq<u8> {
    Seq::new(n, |_i: int| 0u8)
}

/// Address width for chip-side opcodes. Picked per-op based on the
/// chip's size; the 4-byte form uses dedicated opcode variants so the
/// chip's persistent address-mode bit is never touched.
#[derive(Clone, Copy, Debug, PartialEq, Eq)]
pub enum Addressing {
    /// 24-bit addresses; chips ≤ 16 MB.
    ThreeByte,
    /// 32-bit addresses; chips > 16 MB.
    FourByte,
}

impl Addressing {
    /// The address bytes this width puts on the wire.
    pub open spec fn addr_seq(self, addr: u32) -> Seq<u8> {
        match self {
            Addressing::ThreeByte => be24(addr),
            Addressing::FourByte => be32(addr),
        }
    }

    /// Read-data opcode for this width.
    #[verifier::allow_in_spec]
    pub fn read_op(self) -> u8
        returns
            (match self {
                Addressing::ThreeByte => READ_DATA,
                Addressing::FourByte => READ_DATA_4B,
            }),
    {
        match self {
            Addressing::ThreeByte => READ_DATA,
            Addressing::FourByte => READ_DATA_4B,
        }
    }

    /// Page-program opcode for this width.
    #[verifier::allow_in_spec]
    pub fn page_program_op(self) -> u8
        returns
            (match self {
                Addressing::ThreeByte => PAGE_PROGRAM,
                Addressing::FourByte => PAGE_PROGRAM_4B,
            }),
    {
        match self {
            Addressing::ThreeByte => PAGE_PROGRAM,
            Addressing::FourByte => PAGE_PROGRAM_4B,
        }
    }

    /// 4 KB sector-erase opcode for this width.
    #[verifier::allow_in_spec]
    pub fn sector_erase_op(self) -> u8
        returns
            (match self {
                Addressing::ThreeByte => SECTOR_ERASE_4K,
                Addressing::FourByte => SECTOR_ERASE_4K_4B,
            }),
    {
        match self {
            Addressing::ThreeByte => SECTOR_ERASE_4K,
            Addressing::FourByte => SECTOR_ERASE_4K_4B,
        }
    }

    /// 64 KB block-erase opcode for this width.
    #[verifier::allow_in_spec]
    pub fn block_erase_op(self) -> u8
        returns
            (match self {
                Addressing::ThreeByte => BLOCK_ERASE_64K,
                Addressing::FourByte => BLOCK_ERASE_64K_4B,
            }),
    {
        match self {
            Addressing::ThreeByte => BLOCK_ERASE_64K,
            Addressing::FourByte => BLOCK_ERASE_64K_4B,
        }
    }

    /// The address bytes for `addr`, most significant first.
    pub fn addr_bytes(self, addr: u32) -> (r: Vec<u8>)
        ensures
            r@ == self.addr_seq(addr),
    {
        match self {
            Addressing::ThreeByte => {
                let a = addr24_be(addr);
                let r = vec![a[0], a[1], a[2]];
                assert(r@ =~= be24(addr));
                r
            },
            Addressing::FourByte => {
                let a = addr32_be(addr);
                let r = vec![a[0], a[1], a[2], a[3]];
                assert(r@ =~= be32(addr));
                r
            },
        }
    }

    /// Opcode plus address bytes: 4 for the 3-byte form, 5 for the 4-byte form.
    #[verifier::allow_in_spec]
    pub fn header_len(self) -> usize
        returns
            (match self {
                Addressing::ThreeByte => 4usize,
                Addressing::FourByte => 5usize,
            }),
    {
        match self {
            Addressing::ThreeByte => 4,
            Addressing::FourByte => 5,
        }
    }
}

/// The read-data command for `len` bytes at `addr`: opcode, address,
/// then `len` filler bytes clocked while the chip answers.
pub open spec fn read_command(a: Addressing, addr: u32, len: nat) -> Seq<u8> {
    seq![a.read_op()] + a.addr_seq(addr) + zeros(len)
}

/// The page-program command writing `data` at `addr`.
pub open spec fn program_command(a: Addressing, addr: u32, data: Seq<u8>) -> Seq<u8> {
    seq![a.page_program_op()] + a.addr_seq(addr) + data
}

/// The 4 KB sector-erase command for `addr`.
pub open spec fn sector_erase_command(a: Addressing, addr: u32) -> Seq<u8> {
    seq![a.sector_erase_op()] + a.addr_seq(addr)
}

/// The 64 KB block-erase command for `addr`.
pub open spec fn block_erase_command(a: Addressing, addr: u32) -> Seq<u8> {
    seq![a.block_erase_op()] + a.addr_seq(addr)
}

/// A command of the SFDP / security-register shape: opcode, 3-byte
/// address, one dummy byte, then `len` filler bytes.
pub open spec fn dummy_read_command(op: u8, addr: u32, len: nat) -> Seq<u8> {
    seq![op] + be24(addr) + seq![0u8] + zeros(len)
}

/// The bytes each transaction of `log` sent.
pub open spec fn sent(log: Seq<Txn>) -> Seq<Seq<u8>> {
    log.map_values(|t: Txn| t.0)
}

/// `after` is `before` with more transactions appended.
pub open spec fn extends(before: Seq<Txn>, after: Seq<Txn>) -> bool {
    &&& before.len() <= after.len()
    &&& after.subrange(0, before.len() as int) == before
}

/// The transactions `after` holds beyond `before`.
pub open spec fn added(before: Seq<Txn>, after: Seq<Txn>) -> Seq<Txn> {
    after.subrange(before.len() as int, after.len() as int)
}

/// `after` is `before` followed by exactly the transactions that sent `txs`.
pub open spec fn sends(before: Seq<Txn>, after: Seq<Txn>, txs: Seq<Seq<u8>>) -> bool {
    &&& extends(before, after)
    &&& sent(added(before, after)) == txs
}

/// `after` is `before` followed by transactions that sent an initial
/// part (possibly empty, possibly all) of `txs`.
pub open spec fn sends_prefix(before: Seq<Txn>, after: Seq<Txn>, txs: Seq<Seq<u8>>) -> bool {
    &&& extends(before, after)
    &&& added(before, after).len() <= txs.len()
    &&& sent(added(before, after)) == txs.subrange(0, added(before, after).len() as int)
}

/// The status-register-1 poll command.
pub open spec fn status_poll_command() -> Seq<u8> {
    seq![READ_STATUS, 0u8]
}

/// `t` is a status-register-1 poll.
pub open spec fn is_status_poll(t: Txn) -> bool {
    &&& t.0 == status_poll_command()
    &&& t.1.len() == 2
}

/// `t` is a status poll that saw WIP set (chip still busy).
pub open spec fn is_busy_poll(t: Txn) -> bool {
    &&& is_status_poll(t)
    &&& t.1[1] & SR1_WIP != 0
}

/// `t` is a status poll that saw WIP clear (chip ready).
pub open spec fn is_ready_poll(t: Txn) -> bool {
    &&& is_status_poll(t)
    &&& t.1[1] & SR1_WIP == 0
}

/// `s` is a run of busy polls ended by one ready poll.
pub open spec fn polled_until_ready(s: Seq<Txn>) -> bool {
    &&& s.len() >= 1
    &&& is_ready_poll(s.last())
    &&& forall|i: int| 0 <= i < s.len() - 1 ==> #[trigger] is_busy_poll(s[i])
}

/// `s` is a run of busy polls only.
pub open spec fn all_busy(s: Seq<Txn>) -> bool {
    forall|i: int| 0 <= i < s.len() ==> #[trigger] is_busy_poll(s[i])
}

/// Sending `x` then `y` sends `x + y`.
pub proof fn lemma_sends_chain(a: Seq<Txn>, b: Seq<Txn>, c: Seq<Txn>, x: Seq<Seq<u8>>, y: Seq<Seq<u8>>)
    requires
        sends(a, b, x),
        sends(b, c, y),
    ensures
        sends(a, c, x + y),
{
    assert(added(a, c) =~= added(a, b) + added(b, c));
    assert(c.subrange(0, a.len() as int) =~= b.subrange(0, a.len() as int));
    assert(sent(added(a, c)) =~= sent(added(a, b)) + sent(added(b, c)));
}

/// Sending `x` then part of `y` sends part of `x + y`.
pub proof fn lemma_sends_then_prefix(a: Seq<Txn>, b: Seq<Txn>, c: Seq<Txn>, x: Seq<Seq<u8>>, y: Seq<Seq<u8>>)
    requires
        sends(a, b, x),
        sends_prefix(b, c, y),
    ensures
        sends_prefix(a, c, x + y),
{
    assert(added(a, c) =~= added(a, b) + added(b, c));
    assert(c.subrange(0, a.len() as int) =~= b.subrange(0, a.len() as int));
    assert(sent(added(a, c)) =~= sent(added(a, b)) + sent(added(b, c)));
    assert((x + y).subrange(0, added(a, c).len() as int) =~= x + y.subrange(0, added(b, c).len() as int));
}

/// Sending nothing is a prefix of anything.
pub proof fn lemma_unchanged_is_prefix(a: Seq<Txn>, x: Seq<Seq<u8>>)
    ensures
        sends_prefix(a, a, x),
{
    assert(a.subrange(0, a.len() as int) =~= a);
    assert(sent(added(a, a)) =~= x.subrange(0, 0));
}

/// Raw SR1/SR2/SR3 register bytes read from the chip, with the
/// W25Q-family bit names decoded. SR1 is common across vendors;
/// SR2/SR3 decode is best-effort.
#[derive(Debug, Clone, Copy)]
pub struct StatusRegisters {
    pub sr1: u8,
    pub sr2: u8,
    pub sr3: u8,
}

impl StatusRegisters {
    /// SR1 bit 0: write in progress.
    pub fn wip(self) -> (r: bool)
        ensures
            r == (self.sr1 & 1u8 != 0),
    {
        self.sr1 & 0b0000_0001 != 0
    }

    /// SR1 bit 1: write-enable latch.
    pub fn wel(self) -> (r: bool)
        ensures
            r == (self.sr1 & 2u8 != 0),
    {
        self.sr1 & 0b0000_0010 != 0
    }

    /// SR1 bits 2..4: block-protect BP0..BP2.
    pub fn bp(self) -> (r: u8)
        ensures
            r == (self.sr1 >> 2u8) & 7u8,
            r < 8,
    {
        let r = (self.sr1 >> 2) & 0b0000_0111;
        let v = self.sr1;
        assert(((v >> 2u8) & 7u8) < 8) by (bit_vector);
        r
    }

    /// SR1 bit 5: top/bottom protect.
    pub fn tb(self) -> (r: bool)
        ensures
            r == (self.sr1 & 0x20u8 != 0),
    {
        self.sr1 & 0b0010_0000 != 0
    }

    /// SR1 bit 6: SEC on W25Q, BP3 on MX25L.
    pub fn sec_or_bp3(self) -> (r: bool)
        ensures
            r == (self.sr1 & 0x40u8 != 0),
    {
        self.sr1 & 0b0100_0000 != 0
    }

    /// SR1 bit 7: status register protect 0.
    pub fn srp0(self) -> (r: bool)
        ensures
            r == (self.sr1 & 0x80u8 != 0),
    {
        self.sr1 & 0b1000_0000 != 0
    }

    /// SR2 bit 0: status register protect 1.
    pub fn srp1(self) -> (r: bool)
        ensures
            r == (self.sr2 & 1u8 != 0),
    {
        self.sr2 & 0b0000_0001 != 0
    }

    /// SR2 bit 1: quad enable.
    pub fn qe(self) -> (r: bool)
        ensures
            r == (self.sr2 & 2u8 != 0),
    {
        self.sr2 & 0b0000_0010 != 0
    }

    /// SR2 bits 3..5: security-register lock bits LB1..LB3.
    pub fn lb(self) -> (r: u8)
        ensures
            r == (self.sr2 >> 3u8) & 7u8,
            r < 8,
    {
        let r = (self.sr2 >> 3) & 0b0000_0111;
        let v = self.sr2;
        assert(((v >> 3u8) & 7u8) < 8) by (bit_vector);
        r
    }

    /// SR2 bit 6: complement protect.
    pub fn cmp(self) -> (r: bool)
        ensures
            r == (self.sr2 & 0x40u8 != 0),
    {
        self.sr2 & 0b0100_0000 != 0
    }

    /// SR2 bit 7: erase / program suspended.
    pub fn sus(self) -> (r: bool)
        ensures
            r == (self.sr2 & 0x80u8 != 0),
    {
        self.sr2 & 0b1000_0000 != 0
    }

    /// SR3 bit 1: 4-byte address mode at power-up.
    pub fn adp(self) -> (r: bool)
        ensures
            r == (self.sr3 & 2u8 != 0),
    {
        self.sr3 & 0b0000_0010 != 0
    }

    /// SR3 bit 2: write-protect selection.
    pub fn wps(self) -> (r: bool)
        ensures
            r == (self.sr3 & 4u8 != 0),
    {
        self.sr3 & 0b0000_0100 != 0
    }

    /// SR3 bits 5..6: output driver strength.
    pub fn drv(self) -> (r: u8)
        ensures
            r == (self.sr3 >> 5u8) & 3u8,
            r < 4,
    {
        let r = (self.sr3 >> 5) & 0b0000_0011;
        let v = self.sr3;
        assert(((v >> 5u8) & 3u8) < 4) by (bit_vector);
        r
    }

    /// SR3 bit 7: pin 7 is /RESET (set) or /HOLD (clear).
    pub fn hold_rst(self) -> (r: bool)
        ensures
            r == (self.sr3 & 0x80u8 != 0),
    {
        self.sr3 & 0b1000_0000 != 0
    }

    /// SR2 answered with something other than all-ones.
    pub fn sr2_present(self) -> (r: bool)
        ensures
            r == (self.sr2 != 0xFF),
    {
        self.sr2 != 0xFF
    }

    /// SR3 answered with something other than all-ones.
    pub fn sr3_present(self) -> (r: bool)
        ensures
            r == (self.sr3 != 0xFF),
    {
        self.sr3 != 0xFF
    }
}

/// One full-duplex SPI transaction: assert CS, clock `tx` out while
/// capturing `tx.len()` bytes from MISO, deassert CS. Implementors
/// handle bit ordering and chunking, and keep the log of completed
/// transactions that the contracts of this module speak of.
pub trait SpiTransport {
    /// Completed transactions on this bus, oldest first.
    spec fn spi_log(&self) -> Seq<Txn>;

    /// Transactions this bus is known to complete next, in order: what a
    /// scripted bus has left to answer. Real hardware promises none.
    spec fn spi_upcoming(&self) -> Seq<Txn>;

    /// The errors transfers returned, oldest first.
    spec fn spi_failures(&self) -> Seq<Error>;

    /// Clock `tx` out and return what came back, byte for byte. When the
    /// next known transaction sends `tx`, it is the one that happens.
    fn spi_transfer(&mut self, tx: &[u8]) -> (r: Result<Vec<u8>>)
        ensures
            (match r {
                Ok(rx) => rx@.len() == tx@.len() && final(self).spi_log() == old(self).spi_log().push(
                    (tx@, rx@),
                ),
                Err(e) => bus_error(e) && final(self).spi_log() == old(self).spi_log(),
            }),
            (match r {
                Ok(_) => final(self).spi_failures() == old(self).spi_failures(),
                Err(e) => final(self).spi_failures() == old(self).spi_failures().push(e),
            }),
            answers(old(self).spi_upcoming(), seq![tx@]) ==> r is Ok && served(
                old(self).spi_log(),
                old(self).spi_upcoming(),
                final(self).spi_log(),
                final(self).spi_upcoming(),
                1,
            ),
    ;

    /// Let at least `ms` milliseconds pass before the next transaction.
    fn pause_ms(&mut self, ms: u64)
        ensures
            final(self).spi_log() == old(self).spi_log(),
            final(self).spi_upcoming() == old(self).spi_upcoming(),
            final(self).spi_failures() == old(self).spi_failures(),
    ;
}

/// `up` begins with one transaction for each of `txs`, in order, each
/// sending exactly those bytes and answered by as many.
pub open spec fn answers(up: Seq<Txn>, txs: Seq<Seq<u8>>) -> bool {
    &&& txs.len() <= up.len()
    &&& forall|i: int| 0 <= i < txs.len() ==> (#[trigger] up[i]).0 == txs[i] && up[i].1.len() == txs[i].len()
}

/// The bus completed its next `n` known transactions: they went onto
/// the log, in order, and left the list of what is to come.
pub open spec fn served(log0: Seq<Txn>, up0: Seq<Txn>, log1: Seq<Txn>, up1: Seq<Txn>, n: int) -> bool {
    &&& n <= up0.len()
    &&& log1 == log0 + up0.take(n)
    &&& up1 == up0.skip(n)
}

/// Serving `n` then `m` known transactions serves `n + m`.
pub proof fn lemma_served_chain(
    log0: Seq<Txn>,
    up0: Seq<Txn>,
    log1: Seq<Txn>,
    up1: Seq<Txn>,
    log2: Seq<Txn>,
    up2: Seq<Txn>,
    n: int,
    m: int,
)
    requires
        0 <= n,
        0 <= m,
        served(log0, up0, log1, up1, n),
        served(log1, up1, log2, up2, m),
    ensures
        served(log0, up0, log2, up2, n + m),
{
    assert(up1.len() == up0.len() - n);
    assert(up0.take(n) + up1.take(m) =~= up0.take(n + m));
    assert(log2 =~= log0 + up0.take(n + m));
    assert(up1.skip(m) =~= up0.skip(n + m));
}

/// Known answers for `x + y` are known answers for `x`, then for `y`
/// after them.
pub proof fn lemma_answers_split(up: Seq<Txn>, x: Seq<Seq<u8>>, y: Seq<Seq<u8>>)
    requires
        answers(up, x + y),
    ensures
        answers(up, x),
        answers(up.skip(x.len() as int), y),
{
    assert forall|i: int| 0 <= i < x.len() implies (#[trigger] up[i]).0 == x[i] && up[i].1.len() == x[i].len() by {
        assert((x + y)[i] == x[i]);
    }
    assert forall|i: int| 0 <= i < y.len() implies (#[trigger] up.skip(x.len() as int)[i]).0 == y[i]
        && up.skip(x.len() as int)[i].1.len() == y[i].len() by {
        assert((x + y)[x.len() + i] == y[i]);
        assert(up.skip(x.len() as int)[i] == up[x.len() + i]);
    }
}

/// Known answers for `cmds` include one for command `k` once the first
/// `k` are served.
pub proof fn lemma_answers_at(up: Seq<Txn>, cmds: Seq<Seq<u8>>, k: int)
    requires
        answers(up, cmds),
        0 <= k < cmds.len(),
    ensures
        answers(up.skip(k), seq![cmds[k]]),
{
    assert(up.skip(k)[0] == up[k]);
}

/// Nothing served leaves the bus as it was.
pub proof fn lemma_served_none(log: Seq<Txn>, up: Seq<Txn>)
    ensures
        served(log, up, log, up, 0),
{
    assert(log + up.take(0) =~= log);
    assert(up.skip(0) =~= up);
}

/// Read the 3-byte JEDEC id (manufacturer, memory type, capacity).
pub fn jedec_read<T: SpiTransport>(spi: &mut T) -> (r: Result<[u8; 3]>)
    ensures
        final(spi).spi_failures() == failures_of(old(spi).spi_failures(), r),
        answers(old(spi).spi_upcoming(), seq![seq![JEDEC_ID, 0u8, 0u8, 0u8]]) ==> r is Ok && served(
            old(spi).spi_log(),
            old(spi).spi_upcoming(),
            final(spi).spi_log(),
            final(spi).spi_upcoming(),
            1,
        ),
        (match r {
            Ok(id) => sends(old(spi).spi_log(), final(spi).spi_log(), seq![seq![JEDEC_ID, 0u8, 0u8, 0u8]])
                && id@ == final(spi).spi_log().last().1.subrange(1, 4),
            Err(e) => bus_error(e) && final(spi).spi_log() == old(spi).spi_log(),
        }),
{
    let cmd: Vec<u8> = vec![JEDEC_ID, 0, 0, 0];
    assert(cmd@ =~= seq![JEDEC_ID, 0u8, 0u8, 0u8]);
    let ghost before = spi.spi_log();
    let rx = spi.spi_transfer(cmd.as_slice())?;
    let id = [rx[1], rx[2], rx[3]];
    proof {
        lemma_single(before, spi.spi_log(), cmd@, rx@);
        assert(id@ =~= rx@.subrange(1, 4));
    }
    Ok(id)
}

/// After appending one transaction, exactly that transaction was sent.
pub proof fn lemma_single(before: Seq<Txn>, after: Seq<Txn>, tx: Seq<u8>, rx: Seq<u8>)
    requires
        after == before.push((tx, rx)),
    ensures
        sends(before, after, seq![tx]),
        after.last() == (tx, rx),
        after.len() == before.len() + 1,
{
    assert(after.subrange(0, before.len() as int) =~= before);
    assert(added(before, after) =~= seq![(tx, rx)]);
    assert(sent(added(before, after)) =~= seq![tx]);
}

/// A log that gained exactly one transaction is the old log plus that one.
pub proof fn lemma_sends_one(before: Seq<Txn>, after: Seq<Txn>, tx: Seq<u8>)
    requires
        sends(before, after, seq![tx]),
    ensures
        after.len() == before.len() + 1,
        after == before.push(after.last()),
        after.last().0 == tx,
{
    assert(sent(added(before, after)).len() == 1);
    assert(added(before, after).len() == 1);
    assert(sent(added(before, after))[0] == tx);
    assert(added(before, after)[0] == after.last());
    assert(after =~= before.push(after.last())) by {
        assert forall|i: int| 0 <= i < before.len() implies after[i] == before[i] by {
            assert(after.subrange(0, before.len() as int)[i] == after[i]);
        }
    }
}

/// Issue a one-byte-opcode register read and return the register byte.
fn read_register<T: SpiTransport>(spi: &mut T, op: u8) -> (r: Result<u8>)
    ensures
        final(spi).spi_failures() == failures_of(old(spi).spi_failures(), r),
        answers(old(spi).spi_upcoming(), seq![seq![op, 0u8]]) ==> r is Ok && served(
            old(spi).spi_log(),
            old(spi).spi_upcoming(),
            final(spi).spi_log(),
            final(spi).spi_upcoming(),
            1,
        ),
        (match r {
            Ok(v) => sends(old(spi).spi_log(), final(spi).spi_log(), seq![seq![op, 0u8]])
                && final(spi).spi_log() == old(spi).spi_log().push(final(spi).spi_log().last())
                && final(spi).spi_log().last().0 == seq![op, 0u8]
                && final(spi).spi_log().last().1.len() == 2
                && v == final(spi).spi_log().last().1[1],
            Err(e) => bus_error(e) && final(spi).spi_log() == old(spi).spi_log(),
        }),
{
    let cmd: Vec<u8> = vec![op, 0];
    assert(cmd@ =~= seq![op, 0u8]);
    let ghost before = spi.spi_log();
    let rx = spi.spi_transfer(cmd.as_slice())?;
    proof {
        lemma_single(before, spi.spi_log(), cmd@, rx@);
    }
    Ok(rx[1])
}

/// Read status register 1.
pub fn read_status<T: SpiTransport>(spi: &mut T) -> (r: Result<u8>)
    ensures
        final(spi).spi_failures() == failures_of(old(spi).spi_failures(), r),
        answers(old(spi).spi_upcoming(), seq![status_poll_command()]) ==> r is Ok && served(
            old(spi).spi_log(),
            old(spi).spi_upcoming(),
            final(spi).spi_log(),
            final(spi).spi_upcoming(),
            1,
        ),
        (match r {
            Ok(v) => sends(old(spi).spi_log(), final(spi).spi_log(), seq![status_poll_command()])
                && final(spi).spi_log() == old(spi).spi_log().push(final(spi).spi_log().last())
                && is_status_poll(final(spi).spi_log().last())
                && v == final(spi).spi_log().last().1[1],
            Err(e) => bus_error(e) && final(spi).spi_log() == old(spi).spi_log(),
        }),
{
    read_register(spi, READ_STATUS)
}

/// Read status register 2 (0xFF from chips that lack it).
pub fn read_status_2<T: SpiTransport>(spi: &mut T) -> (r: Result<u8>)
    ensures
        final(spi).spi_failures() == failures_of(old(spi).spi_failures(), r),
        answers(old(spi).spi_upcoming(), seq![seq![READ_STATUS_2, 0u8]]) ==> r is Ok && served(
            old(spi).spi_log(),
            old(spi).spi_upcoming(),
            final(spi).spi_log(),
            final(spi).spi_upcoming(),
            1,
        ),
        (match r {
            Ok(v) => sends(old(spi).spi_log(), final(spi).spi_log(), seq![seq![READ_STATUS_2, 0u8]])
                && v == final(spi).spi_log().last().1[1],
            Err(e) => bus_error(e) && final(spi).spi_log() == old(spi).spi_log(),
        }),
{
    read_register(spi, READ_STATUS_2)
}

/// Read status register 3 (0xFF from chips that lack it).
pub fn read_status_3<T: SpiTransport>(spi: &mut T) -> (r: Result<u8>)
    ensures
        final(spi).spi_failures() == failures_of(old(spi).spi_failures(), r),
        answers(old(spi).spi_upcoming(), seq![seq![READ_STATUS_3, 0u8]]) ==> r is Ok && served(
            old(spi).spi_log(),
            old(spi).spi_upcoming(),
            final(spi).spi_log(),
            final(spi).spi_upcoming(),
            1,
        ),
        (match r {
            Ok(v) => sends(old(spi).spi_log(), final(spi).spi_log(), seq![seq![READ_STATUS_3, 0u8]])
                && v == final(spi).spi_log().last().1[1],
            Err(e) => bus_error(e) && final(spi).spi_log() == old(spi).spi_log(),
        }),
{
    read_register(spi, READ_STATUS_3)
}

/// Send `op`, a 3-byte address, one dummy byte and `len` filler bytes;
/// return the `len` bytes that came back after the 5-byte header.
fn dummy_read<T: SpiTransport>(spi: &mut T, op: u8, addr: u32, len: usize) -> (r: Result<Vec<u8>>)
    requires
        len + 5 <= usize::MAX,
    ensures
        final(spi).spi_failures() == failures_of(old(spi).spi_failures(), r),
        answers(old(spi).spi_upcoming(), seq![dummy_read_command(op, addr, len as nat)]) ==> r is Ok && served(
            old(spi).spi_log(),
            old(spi).spi_upcoming(),
            final(spi).spi_log(),
            final(spi).spi_upcoming(),
            1,
        ),
        (match r {
            Ok(data) => sends(old(spi).spi_log(), final(spi).spi_log(), seq![dummy_read_command(op, addr, len as nat)])
                && data@ == final(spi).spi_log().last().1.subrange(5, 5 + len)
                && data@.len() == len,
            Err(e) => bus_error(e) && final(spi).spi_log() == old(spi).spi_log(),
        }),
{
    let a = addr24_be(addr);
    let mut cmd: Vec<u8> = vec![op, a[0], a[1], a[2], 0];
    push_zeros(&mut cmd, len);
    assert(cmd@ =~= dummy_read_command(op, addr, len as nat));
    let ghost before = spi.spi_log();
    let mut rx = spi.spi_transfer(cmd.as_slice())?;
    proof {
        lemma_single(before, spi.spi_log(), cmd@, rx@);
    }
    let data = rx.split_off(5);
    Ok(data)
}

/// Read `len` bytes of the chip's SFDP space starting at the 24-bit
/// `offset`. Chips made before JESD216 answer all-0xFF.
pub fn read_sfdp<T: SpiTransport>(spi: &mut T, offset: u32, len: usize) -> (r: Result<Vec<u8>>)
    requires
        len + 5 <= usize::MAX,
    ensures
        final(spi).spi_failures() == failures_of(old(spi).spi_failures(), r),
        answers(old(spi).spi_upcoming(), seq![dummy_read_command(READ_SFDP, offset, len as nat)]) ==> r is Ok && served(
            old(spi).spi_log(),
            old(spi).spi_upcoming(),
            final(spi).spi_log(),
            final(spi).spi_upcoming(),
            1,
        ),
        (match r {
            Ok(data) => sends(old(spi).spi_log(), final(spi).spi_log(), seq![dummy_read_command(READ_SFDP, offset, len as nat)])
                && data@ == final(spi).spi_log().last().1.subrange(5, 5 + len)
                && data@.len() == len,
            Err(e) => bus_error(e) && final(spi).spi_log() == old(spi).spi_log(),
        }),
{
    dummy_read(spi, READ_SFDP, offset, len)
}

/// Read `len` bytes from the security register selected by `addr`
/// (0x1000 / 0x2000 / 0x3000 for registers 1 / 2 / 3, plus offset).
pub fn read_security_register<T: SpiTransport>(spi: &mut T, addr: u32, len: usize) -> (r: Result<Vec<u8>>)
    requires
        len + 5 <= usize::MAX,
    ensures
        final(spi).spi_failures() == failures_of(old(spi).spi_failures(), r),
        answers(old(spi).spi_upcoming(), seq![dummy_read_command(READ_SECURITY_REG, addr, len as nat)]) ==> r is Ok && served(
            old(spi).spi_log(),
            old(spi).spi_upcoming(),
            final(spi).spi_log(),
            final(spi).spi_upcoming(),
            1,
        ),
        (match r {
            Ok(data) => sends(old(spi).spi_log(), final(spi).spi_log(), seq![dummy_read_command(READ_SECURITY_REG, addr, len as nat)])
                && data@ == final(spi).spi_log().last().1.subrange(5, 5 + len)
                && data@.len() == len,
            Err(e) => bus_error(e) && final(spi).spi_log() == old(spi).spi_log(),
        }),
{
    dummy_read(spi, READ_SECURITY_REG, addr, len)
}

/// Read SR1, SR2 and SR3 in turn.
pub fn read_all_status<T: SpiTransport>(spi: &mut T) -> (r: Result<StatusRegisters>)
    ensures
        final(spi).spi_failures() == failures_of(old(spi).spi_failures(), r),
        r is Err ==> added(old(spi).spi_log(), final(spi).spi_log()).len() < 3,
        answers(old(spi).spi_upcoming(), seq![status_poll_command(), seq![READ_STATUS_2, 0u8], seq![READ_STATUS_3, 0u8]]) ==> r is Ok && served(
            old(spi).spi_log(),
            old(spi).spi_upcoming(),
            final(spi).spi_log(),
            final(spi).spi_upcoming(),
            3,
        ),
        (match r {
            Ok(regs) => {
                let l = final(spi).spi_log();
                let n = old(spi).spi_log().len() as int;
                &&& sends(old(spi).spi_log(), l, seq![status_poll_command(), seq![READ_STATUS_2, 0u8], seq![READ_STATUS_3, 0u8]])
                &&& regs.sr1 == l[n].1[1]
                &&& regs.sr2 == l[n + 1].1[1]
                &&& regs.sr3 == l[n + 2].1[1]
            },
            Err(e) => bus_error(e) && sends_prefix(old(spi).spi_log(), final(spi).spi_log(), seq![status_poll_command(), seq![READ_STATUS_2, 0u8], seq![READ_STATUS_3, 0u8]]),
        }),
{
    let ghost l0 = spi.spi_log();
    let ghost x = seq![status_poll_command()];
    let ghost y = seq![seq![READ_STATUS_2, 0u8]];
    let ghost z = seq![seq![READ_STATUS_3, 0u8]];
    assert(x + y + z =~= seq![status_poll_command(), seq![READ_STATUS_2, 0u8], seq![READ_STATUS_3, 0u8]]);
    proof { lemma_unchanged_is_prefix(l0, x + y + z); }
    let ghost u0 = spi.spi_upcoming();
    proof {
        if answers(u0, x + y + z) {
            lemma_answers_split(u0, x, y + z);
            assert(x + (y + z) =~= x + y + z);
            lemma_answers_split(u0.skip(1), y, z);
            assert(u0.skip(1).skip(1) =~= u0.skip(2));
        }
    }
    let sr1 = read_status(spi)?;
    let ghost l1 = spi.spi_log();
    let ghost u1 = spi.spi_upcoming();
    let sr2 = match read_status_2(spi) {
        Ok(v) => v,
        Err(e) => {
            proof {
                lemma_unchanged_is_prefix(l1, y + z);
                lemma_sends_then_prefix(l0, l1, l1, x, y + z);
                assert(x + (y + z) =~= x + y + z);
            }
            return Err(e);
        },
    };
    let ghost l2 = spi.spi_log();
    let ghost u2 = spi.spi_upcoming();
    proof {
        lemma_sends_chain(l0, l1, l2, x, y);
        if answers(u0, x + y + z) {
            lemma_served_chain(l0, u0, l1, u1, l2, u2, 1, 1);
        }
    }
    let sr3 = match read_status_3(spi) {
        Ok(v) => v,
        Err(e) => {
            proof {
                lemma_unchanged_is_prefix(l2, z);
                lemma_sends_then_prefix(l0, l2, l2, x + y, z);
            }
            return Err(e);
        },
    };
    proof {
        lemma_sends_chain(l0, l2, spi.spi_log(), x + y, z);
        if answers(u0, x + y + z) {
            lemma_served_chain(l0, u0, l2, u2, spi.spi_log(), spi.spi_upcoming(), 2, 1);
        }
        assert(spi.spi_log()[l0.len() as int] == l1.last());
        assert(spi.spi_log()[l0.len() as int + 1] == l2.last());
    }
    Ok(StatusRegisters { sr1, sr2, sr3 })
}

/// Set the write-enable latch (opcode 0x06).
pub fn write_enable<T: SpiTransport>(spi: &mut T) -> (r: Result<()>)
    ensures
        final(spi).spi_failures() == failures_of(old(spi).spi_failures(), r),
        answers(old(spi).spi_upcoming(), seq![seq![WRITE_ENABLE]]) ==> r is Ok && served(
            old(spi).spi_log(),
            old(spi).spi_upcoming(),
            final(spi).spi_log(),
            final(spi).spi_upcoming(),
            1,
        ),
        (match r {
            Ok(_) => sends(old(spi).spi_log(), final(spi).spi_log(), seq![seq![WRITE_ENABLE]]),
            Err(e) => bus_error(e) && final(spi).spi_log() == old(spi).spi_log(),
        }),
{
    let cmd: Vec<u8> = vec![WRITE_ENABLE];
    assert(cmd@ =~= seq![WRITE_ENABLE]);
    let ghost before = spi.spi_log();
    let rx = spi.spi_transfer(cmd.as_slice())?;
    proof {
        lemma_single(before, spi.spi_log(), cmd@, rx@);
    }
    Ok(())
}

/// `std::time::Instant`, used for the ready-poll deadline.
#[verifier::external_type_specification]
#[verifier::external_body]
pub struct ExInstant(std::time::Instant);

/// `Instant::now()`: the current monotonic time. Nothing is promised
/// of the value; it depends on the clock.
#[verifier::external_body]
fn clock_now() -> std::time::Instant {
    std::time::Instant::now()
}

/// `Instant::elapsed`, as whole milliseconds: the time passed since
/// `start`. Depends on the clock, so nothing is promised of the value.
#[verifier::external_body]
fn elapsed_ms(start: &std::time::Instant) -> u128 {
    start.elapsed().as_millis()
}

/// Poll SR1.WIP until it clears, pausing 1 ms between polls, or fail
/// with [`Error::Timeout`] once `timeout_ms` milliseconds have passed.
/// At most `timeout_ms + 1` polls are made.
pub fn wait_until_ready<T: SpiTransport>(spi: &mut T, timeout_ms: u64) -> (r: Result<()>)
    ensures
        final(spi).spi_failures() == failures_of(old(spi).spi_failures(), r),
        answers(old(spi).spi_upcoming(), seq![status_poll_command()]) && is_ready_poll(old(spi).spi_upcoming()[0]) ==> r is Ok
            && served(old(spi).spi_log(), old(spi).spi_upcoming(), final(spi).spi_log(), final(spi).spi_upcoming(), 1),
        extends(old(spi).spi_log(), final(spi).spi_log()),
        added(old(spi).spi_log(), final(spi).spi_log()).len() <= timeout_ms + 1,
        (match r {
            Ok(_) => polled_until_ready(added(old(spi).spi_log(), final(spi).spi_log())),
            Err(e) => (bus_error(e) || e is Timeout) && all_busy(added(old(spi).spi_log(), final(spi).spi_log())),
        }),
{
    let ghost l0 = spi.spi_log();
    let start = clock_now();
    let mut polls: u64 = 0;
    proof {
        assert(l0.subrange(0, l0.len() as int) =~= l0);
        assert(added(l0, l0) =~= Seq::<Txn>::empty());
    }
    loop
        invariant
            l0 == old(spi).spi_log(),
            polls <= timeout_ms,
            extends(l0, spi.spi_log()),
            added(l0, spi.spi_log()).len() == polls,
            all_busy(added(l0, spi.spi_log())),
            polls == 0 ==> spi.spi_upcoming() == old(spi).spi_upcoming(),
            spi.spi_failures() == old(spi).spi_failures(),
            answers(old(spi).spi_upcoming(), seq![status_poll_command()]) && is_ready_poll(old(spi).spi_upcoming()[0])
                ==> polls == 0,
        decreases timeout_ms - polls,
    {
        let ghost lp = spi.spi_log();
        proof {
            if polls == 0 {
                assert(lp =~= l0);
            }
        }
        let sr = match read_status(spi) {
            Ok(v) => v,
            Err(e) => return Err(e),
        };
        proof {
            assert(added(l0, spi.spi_log()) =~= added(l0, lp).push(spi.spi_log().last()));
            assert(spi.spi_log().subrange(0, l0.len() as int) =~= lp.subrange(0, l0.len() as int));
            if answers(old(spi).spi_upcoming(), seq![status_poll_command()]) && is_ready_poll(old(spi).spi_upcoming()[0]) {
                assert(spi.spi_log().last() == old(spi).spi_upcoming()[0]);
            }
        }
        if sr & SR1_WIP == 0 {
            proof {
                let a = added(l0, spi.spi_log());
                assert(a.last() == spi.spi_log().last());
                assert forall|i: int| 0 <= i < a.len() - 1 implies #[trigger] is_busy_poll(a[i]) by {
                    assert(a[i] == added(l0, lp)[i]);
                }
            }
            return Ok(());
        }
        proof {
            let a = added(l0, spi.spi_log());
            assert forall|i: int| 0 <= i < a.len() implies #[trigger] is_busy_poll(a[i]) by {
                if i < a.len() - 1 {
                    assert(a[i] == added(l0, lp)[i]);
                }
            }
        }
        if polls >= timeout_ms || elapsed_ms(&start) >= timeout_ms as u128 {
            return Err(Error::Timeout);
        }
        polls = polls + 1;
        spi.pause_ms(1);
    }
}

/// Read `len` bytes starting at `addr`, with the address width the
/// caller picked for the chip.
pub fn read_data<T: SpiTransport>(spi: &mut T, addressing: Addressing, addr: u32, len: usize) -> (r: Result<Vec<u8>>)
    requires
        len + 5 <= usize::MAX,
    ensures
        final(spi).spi_failures() == failures_of(old(spi).spi_failures(), r),
        answers(old(spi).spi_upcoming(), seq![read_command(addressing, addr, len as nat)]) ==> r is Ok && served(
            old(spi).spi_log(),
            old(spi).spi_upcoming(),
            final(spi).spi_log(),
            final(spi).spi_upcoming(),
            1,
        ),
        (match r {
            Ok(data) => sends(old(spi).spi_log(), final(spi).spi_log(), seq![read_command(addressing, addr, len as nat)])
                && data@ == final(spi).spi_log().last().1.subrange(addressing.header_len() as int, addressing.header_len() + len)
                && final(spi).spi_log().last().1.len() == addressing.header_len() + len
                && data@.len() == len,
            Err(e) => bus_error(e) && final(spi).spi_log() == old(spi).spi_log(),
        }),
{
    let addr_bytes = addressing.addr_bytes(addr);
    let header = 1 + addr_bytes.len();
    let mut cmd: Vec<u8> = Vec::new();
    cmd.push(addressing.read_op());
    push_all(&mut cmd, addr_bytes.as_slice());
    push_zeros(&mut cmd, len);
    assert(cmd@ =~= read_command(addressing, addr, len as nat));
    let ghost before = spi.spi_log();
    let mut rx = spi.spi_transfer(cmd.as_slice())?;
    proof {
        lemma_single(before, spi.spi_log(), cmd@, rx@);
    }
    let data = rx.split_off(header);
    Ok(data)
}

/// Send Write Enable, then `cmd`.
fn enabled_command<T: SpiTransport>(spi: &mut T, cmd: &[u8]) -> (r: Result<()>)
    ensures
        final(spi).spi_failures() == failures_of(old(spi).spi_failures(), r),
        r is Err ==> added(old(spi).spi_log(), final(spi).spi_log()).len() < 2,
        answers(old(spi).spi_upcoming(), seq![seq![WRITE_ENABLE], cmd@]) ==> r is Ok && served(
            old(spi).spi_log(),
            old(spi).spi_upcoming(),
            final(spi).spi_log(),
            final(spi).spi_upcoming(),
            2,
        ),
        (match r {
            Ok(_) => sends(old(spi).spi_log(), final(spi).spi_log(), seq![seq![WRITE_ENABLE], cmd@]),
            Err(e) => bus_error(e) && sends_prefix(old(spi).spi_log(), final(spi).spi_log(), seq![seq![WRITE_ENABLE], cmd@]),
        }),
{
    let ghost l0 = spi.spi_log();
    let ghost u0 = spi.spi_upcoming();
    let ghost x = seq![seq![WRITE_ENABLE]];
    let ghost y = seq![cmd@];
    assert(x + y =~= seq![seq![WRITE_ENABLE], cmd@]);
    proof {
        if answers(u0, x + y) {
            lemma_answers_split(u0, x, y);
        }
    }
    match write_enable(spi) {
        Ok(_) => {},
        Err(e) => {
            proof { lemma_unchanged_is_prefix(l0, x + y); }
            return Err(e);
        },
    }
    let ghost l1 = spi.spi_log();
    let ghost u1 = spi.spi_upcoming();
    match spi.spi_transfer(cmd) {
        Ok(rx) => {
            proof {
                lemma_single(l1, spi.spi_log(), cmd@, rx@);
                lemma_sends_chain(l0, l1, spi.spi_log(), x, y);
                if answers(u0, x + y) {
                    lemma_served_chain(l0, u0, l1, u1, spi.spi_log(), spi.spi_upcoming(), 1, 1);
                }
            }
            Ok(())
        },
        Err(e) => {
            proof {
                lemma_unchanged_is_prefix(l1, y);
                lemma_sends_then_prefix(l0, l1, l1, x, y);
            }
            Err(e)
        },
    }
}

/// Erase the whole chip: Write Enable, then 0xC7. The caller polls
/// SR1.WIP for completion.
pub fn chip_erase<T: SpiTransport>(spi: &mut T) -> (r: Result<()>)
    ensures
        final(spi).spi_failures() == failures_of(old(spi).spi_failures(), r),
        r is Err ==> added(old(spi).spi_log(), final(spi).spi_log()).len() < 2,
        answers(old(spi).spi_upcoming(), seq![seq![WRITE_ENABLE], seq![CHIP_ERASE]]) ==> r is Ok && served(
            old(spi).spi_log(),
            old(spi).spi_upcoming(),
            final(spi).spi_log(),
            final(spi).spi_upcoming(),
            2,
        ),
        (match r {
            Ok(_) => sends(old(spi).spi_log(), final(spi).spi_log(), seq![seq![WRITE_ENABLE], seq![CHIP_ERASE]]),
            Err(e) => bus_error(e) && sends_prefix(old(spi).spi_log(), final(spi).spi_log(), seq![seq![WRITE_ENABLE], seq![CHIP_ERASE]]),
        }),
{
    let cmd: Vec<u8> = vec![CHIP_ERASE];
    assert(cmd@ =~= seq![CHIP_ERASE]);
    enabled_command(spi, cmd.as_slice())
}

/// Erase the 4 KB sector at `addr`: Write Enable, then the sector-erase
/// opcode for the address width with the address.
pub fn sector_erase_4k<T: SpiTransport>(spi: &mut T, addressing: Addressing, addr: u32) -> (r: Result<()>)
    ensures
        final(spi).spi_failures() == failures_of(old(spi).spi_failures(), r),
        r is Err ==> added(old(spi).spi_log(), final(spi).spi_log()).len() < 2,
        answers(old(spi).spi_upcoming(), seq![seq![WRITE_ENABLE], sector_erase_command(addressing, addr)]) ==> r is Ok && served(
            old(spi).spi_log(),
            old(spi).spi_upcoming(),
            final(spi).spi_log(),
            final(spi).spi_upcoming(),
            2,
        ),
        (match r {
            Ok(_) => sends(old(spi).spi_log(), final(spi).spi_log(), seq![seq![WRITE_ENABLE], sector_erase_command(addressing, addr)]),
            Err(e) => bus_error(e) && sends_prefix(old(spi).spi_log(), final(spi).spi_log(), seq![seq![WRITE_ENABLE], sector_erase_command(addressing, addr)]),
        }),
{
    let mut cmd: Vec<u8> = Vec::new();
    cmd.push(addressing.sector_erase_op());
    let a = addressing.addr_bytes(addr);
    push_all(&mut cmd, a.as_slice());
    assert(cmd@ =~= sector_erase_command(addressing, addr));
    enabled_command(spi, cmd.as_slice())
}

/// Erase the 64 KB block at `addr`: Write Enable, then the block-erase
/// opcode for the address width with the address.
pub fn block_erase_64k<T: SpiTransport>(spi: &mut T, addressing: Addressing, addr: u32) -> (r: Result<()>)
    ensures
        final(spi).spi_failures() == failures_of(old(spi).spi_failures(), r),
        r is Err ==> added(old(spi).spi_log(), final(spi).spi_log()).len() < 2,
        answers(old(spi).spi_upcoming(), seq![seq![WRITE_ENABLE], block_erase_command(addressing, addr)]) ==> r is Ok && served(
            old(spi).spi_log(),
            old(spi).spi_upcoming(),
            final(spi).spi_log(),
            final(spi).spi_upcoming(),
            2,
        ),
        (match r {
            Ok(_) => sends(old(spi).spi_log(), final(spi).spi_log(), seq![seq![WRITE_ENABLE], block_erase_command(addressing, addr)]),
            Err(e) => bus_error(e) && sends_prefix(old(spi).spi_log(), final(spi).spi_log(), seq![seq![WRITE_ENABLE], block_erase_command(addressing, addr)]),
        }),
{
    let mut cmd: Vec<u8> = Vec::new();
    cmd.push(addressing.block_erase_op());
    let a = addressing.addr_bytes(addr);
    push_all(&mut cmd, a.as_slice());
    assert(cmd@ =~= block_erase_command(addressing, addr));
    enabled_command(spi, cmd.as_slice())
}

/// A page program of `len` bytes at `addr` would run past its page.
pub open spec fn crosses_page(addr: u32, len: nat, page_size: u32) -> bool {
    (addr % page_size) as nat + len > page_size as nat
}

/// Program `data` at `addr` (Write Enable, then the page-program
/// command). Empty data is a no-op; data that would cross a
/// `page_size` boundary is refused before anything is sent.
pub fn page_program<T: SpiTransport>(
    spi: &mut T,
    addressing: Addressing,
    addr: u32,
    data: &[u8],
    page_size: u32,
) -> (r: Result<()>)
    requires
        page_size > 0,
        data@.len() + 5 <= usize::MAX,
    ensures
        final(spi).spi_failures() == failures_of(old(spi).spi_failures(), r),
        r is Err ==> added(old(spi).spi_log(), final(spi).spi_log()).len() < 2,
        data@.len() > 0 && !crosses_page(addr, data@.len(), page_size) && answers(old(spi).spi_upcoming(), seq![seq![WRITE_ENABLE], program_command(addressing, addr, data@)]) ==> r is Ok && served(
            old(spi).spi_log(),
            old(spi).spi_upcoming(),
            final(spi).spi_log(),
            final(spi).spi_upcoming(),
            2,
        ),
        data@.len() == 0 ==> r is Ok && final(spi).spi_log() == old(spi).spi_log(),
        data@.len() > 0 && crosses_page(addr, data@.len(), page_size) ==> final(spi).spi_log() == old(spi).spi_log()
            && r == Err::<(), Error>(Error::PageBoundaryCrossing { addr, len: data@.len() as usize, page_size }),
        data@.len() > 0 && !crosses_page(addr, data@.len(), page_size) ==> (match r {
            Ok(_) => sends(old(spi).spi_log(), final(spi).spi_log(), seq![seq![WRITE_ENABLE], program_command(addressing, addr, data@)]),
            Err(e) => bus_error(e) && sends_prefix(old(spi).spi_log(), final(spi).spi_log(), seq![seq![WRITE_ENABLE], program_command(addressing, addr, data@)]),
        }),
{
    if data.len() == 0 {
        return Ok(());
    }
    let page_offset = addr % page_size;
    if data.len() > (page_size - page_offset) as usize {
        return Err(Error::PageBoundaryCrossing { addr, len: data.len(), page_size });
    }
    let mut cmd: Vec<u8> = Vec::new();
    cmd.push(addressing.page_program_op());
    let a = addressing.addr_bytes(addr);
    push_all(&mut cmd, a.as_slice());
    push_all(&mut cmd, data);
    assert(cmd@ =~= program_command(addressing, addr, data@));
    match enabled_command(spi, cmd.as_slice()) {
        Ok(_) => Ok(()),
        Err(e) => {
            Err(e)
        },
    }
}

/// Erase one security register (0x44) back to 0xFF. `addr` selects
/// the register; always 3-byte addressed.
pub fn erase_security_register<T: SpiTransport>(spi: &mut T, addr: u32) -> (r: Result<()>)
    ensures
        final(spi).spi_failures() == failures_of(old(spi).spi_failures(), r),
        r is Err ==> added(old(spi).spi_log(), final(spi).spi_log()).len() < 2,
        answers(old(spi).spi_upcoming(), seq![seq![WRITE_ENABLE], seq![ERASE_SECURITY_REG] + be24(addr)]) ==> r is Ok && served(
            old(spi).spi_log(),
            old(spi).spi_upcoming(),
            final(spi).spi_log(),
            final(spi).spi_upcoming(),
            2,
        ),
        (match r {
            Ok(_) => sends(old(spi).spi_log(), final(spi).spi_log(), seq![seq![WRITE_ENABLE], seq![ERASE_SECURITY_REG] + be24(addr)]),
            Err(e) => bus_error(e) && sends_prefix(old(spi).spi_log(), final(spi).spi_log(), seq![seq![WRITE_ENABLE], seq![ERASE_SECURITY_REG] + be24(addr)]),
        }),
{
    let a = addr24_be(addr);
    let cmd: Vec<u8> = vec![ERASE_SECURITY_REG, a[0], a[1], a[2]];
    assert(cmd@ =~= seq![ERASE_SECURITY_REG] + be24(addr));
    enabled_command(spi, cmd.as_slice())
}

/// Program up to 256 bytes into a security register (0x42) at `addr`.
/// Empty data is a no-op. Always 3-byte addressed.
pub fn program_security_register<T: SpiTransport>(spi: &mut T, addr: u32, data: &[u8]) -> (r: Result<()>)
    ensures
        final(spi).spi_failures() == failures_of(old(spi).spi_failures(), r),
        r is Err ==> added(old(spi).spi_log(), final(spi).spi_log()).len() < 2,
        data@.len() > 0 && answers(old(spi).spi_upcoming(), seq![seq![WRITE_ENABLE], seq![PROGRAM_SECURITY_REG] + be24(addr) + data@]) ==> r is Ok && served(
            old(spi).spi_log(),
            old(spi).spi_upcoming(),
            final(spi).spi_log(),
            final(spi).spi_upcoming(),
            2,
        ),
        data@.len() == 0 ==> r is Ok && final(spi).spi_log() == old(spi).spi_log(),
        data@.len() > 0 ==> (match r {
            Ok(_) => sends(old(spi).spi_log(), final(spi).spi_log(), seq![seq![WRITE_ENABLE], seq![PROGRAM_SECURITY_REG] + be24(addr) + data@]),
            Err(e) => bus_error(e) && sends_prefix(old(spi).spi_log(), final(spi).spi_log(), seq![seq![WRITE_ENABLE], seq![PROGRAM_SECURITY_REG] + be24(addr) + data@]),
        }),
{
    if data.len() == 0 {
        return Ok(());
    }
    let a = addr24_be(addr);
    let mut cmd: Vec<u8> = vec![PROGRAM_SECURITY_REG, a[0], a[1], a[2]];
    push_all(&mut cmd, data);
    assert(cmd@ =~= seq![PROGRAM_SECURITY_REG] + be24(addr) + data@);
    enabled_command(spi, cmd.as_slice())
}

/// A scripted SPI bus for exercising the protocol without hardware:
/// each transfer must send exactly the next expected `tx` of the
/// script and receives the paired reply. Anything else fails with
/// [`Error::ScriptMismatch`].
pub struct MockSpi {
    steps: Vec<(Vec<u8>, Vec<u8>)>,
    next: usize,
    log: Ghost<Seq<Txn>>,
    failed: Ghost<Seq<Error>>,
}

/// A script as pairs of byte sequences: what is expected, what answers.
pub open spec fn script_of(steps: Seq<(Vec<u8>, Vec<u8>)>) -> Seq<(Seq<u8>, Seq<u8>)> {
    steps.map_values(|st: (Vec<u8>, Vec<u8>)| (st.0@, st.1@))
}

impl MockSpi {
    /// The script, in order: each expected `tx` with its reply.
    pub closed spec fn script(&self) -> Seq<(Seq<u8>, Seq<u8>)> {
        script_of(self.steps@)
    }

    /// The script's next step expects exactly `tx` and its reply is as
    /// long as `tx`.
    pub open spec fn expects(&self, tx: Seq<u8>) -> bool {
        &&& self.consumed() < self.script().len()
        &&& self.script()[self.consumed() as int].0 == tx
        &&& self.script()[self.consumed() as int].1.len() == tx.len()
    }

    /// How many script steps have been consumed.
    pub closed spec fn consumed(&self) -> nat {
        self.next as nat
    }

    /// The script's length.
    pub closed spec fn script_len(&self) -> nat {
        self.steps@.len()
    }

    /// A bus that will answer `steps` in order.
    pub fn new(steps: Vec<(Vec<u8>, Vec<u8>)>) -> (r: Self)
        ensures
            r.spi_log() == Seq::<Txn>::empty(),
            r.consumed() == 0,
            r.script_len() == steps@.len(),
            r.script() == script_of(steps@),
            r.script().len() == r.script_len(),
            r.spi_upcoming() == script_of(steps@),
    {
        MockSpi { steps, next: 0, log: Ghost(Seq::empty()), failed: Ghost(Seq::empty()) }
    }

    /// Whether every scripted step has been consumed.
    pub fn is_drained(&self) -> (r: bool)
        ensures
            r == (self.consumed() >= self.script_len()),
    {
        self.next >= self.steps.len()
    }
}

impl SpiTransport for MockSpi {
    closed spec fn spi_log(&self) -> Seq<Txn> {
        self.log@
    }

    closed spec fn spi_failures(&self) -> Seq<Error> {
        self.failed@
    }

    /// What is left of the script.
    open spec fn spi_upcoming(&self) -> Seq<Txn> {
        if self.consumed() <= self.script().len() {
            self.script().skip(self.consumed() as int)
        } else {
            Seq::empty()
        }
    }

    /// The next step answers when it expects `tx`; anything else is a
    /// mismatch at the current step, and consumes nothing.
    fn spi_transfer(&mut self, tx: &[u8]) -> (r: Result<Vec<u8>>)
        ensures
            final(self).script() == old(self).script(),
            final(self).script_len() == old(self).script_len(),
            old(self).expects(tx@) ==> (r matches Ok(rx) && rx@ == old(self).script()[old(self).consumed() as int].1
                && final(self).consumed() == old(self).consumed() + 1),
            !old(self).expects(tx@) ==> (r matches Err(Error::ScriptMismatch { step }) && step == old(self).consumed()
                && final(self).consumed() == old(self).consumed()),
    {
        if self.next < self.steps.len() {
            let step = &self.steps[self.next];
            if bytes_eq(step.0.as_slice(), tx) && step.1.len() == tx.len() {
                let out = to_vec(step.1.as_slice());
                let ghost up0 = self.spi_upcoming();
                let ghost log0 = self.log@;
                self.next = self.next + 1;
                self.log = Ghost(self.log@.push((tx@, out@)));
                proof {
                    assert(up0[0] == self.script()[old(self).consumed() as int]);
                    assert(log0 + up0.take(1) =~= self.log@);
                    assert(up0.skip(1) =~= self.spi_upcoming());
                }
                return Ok(out);
            }
        }
        proof {
            if answers(self.spi_upcoming(), seq![tx@]) {
                assert(self.consumed() < self.script().len());
                assert(self.spi_upcoming()[0] == self.script()[self.consumed() as int]);
                assert(seq![tx@][0] == tx@);
            }
        }
        let e = Error::ScriptMismatch { step: self.next };
        self.failed = Ghost(self.failed@.push(e));
        Err(e)
    }

    /// Nothing to wait for on a scripted bus.
    fn pause_ms(&mut self, ms: u64)
        ensures
            *final(self) == *old(self),
    {
    }
}

/// Big-endian low 24 bits of `addr`.
pub fn addr24_be(addr: u32) -> (r: [u8; 3])
    ensures
        r@ == be24(addr),
{
    let r = [(addr >> 16) as u8, (addr >> 8) as u8, addr as u8];
    assert(r@ =~= be24(addr));
    r
}

/// Big-endian 32-bit `addr`.
pub fn addr32_be(addr: u32) -> (r: [u8; 4])
    ensures
        r@ == be32(addr),
{
    let r = [(addr >> 24) as u8, (addr >> 16) as u8, (addr >> 8) as u8, addr as u8];
    assert(r@ =~= be32(addr));
    r
}

} // verus!
