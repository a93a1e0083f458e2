//! CH341A USB protocol layer.
//!
//! SPI mode pins: D0 = chip select (active low), D1/D2 = spare chip
//! selects held high, D3 = SCK, D5 = MOSI, D7 = MISO. I²C mode: D0 = SCL,
//! D1 = SDA. The CH341 clocks SPI bytes LSB-first while SPI NOR is
//! MSB-first, so every SPI byte is bit-reversed on the way out and back.
//!
//! Every USB OUT packet the device is sent is kept in a ghost log, so the
//! stream framing each operation produces is stated exactly.
use crate::error::{bus_error, Error, Result};
use crate::i2c::{I2cEvent, I2cTransport, KnownTransfer, MAX_RX_BYTES, MAX_TX_BYTES};
use crate::spi::{SpiTransport, Txn};
use crate::text::{dec, hex_lower_bytes};
use crate::usb::{claim_interface, context_new, error_kind, io_error, open_vid_pid, read_bulk, set_auto_detach, write_bulk, UsbDevice, UsbErrorKind};
use vstd::prelude::*;

verus! {

/// USB vendor id of the CH341A.
pub const VID: u16 = 0x1A86;
/// USB product id of the CH341A in serial-flash mode.
pub const PID: u16 = 0x5512;

/// Interface claimed on the device.
const INTERFACE: u8 = 0;
/// Bulk OUT endpoint.
const EP_OUT: u8 = 0x02;
/// Bulk IN endpoint.
const EP_IN: u8 = 0x82;
/// Timeout of each bulk transfer.
const USB_TIMEOUT_MS: u64 = 1000;

/// SPI payload bytes per USB packet (32-byte packet, one command byte).
pub const MAX_PAYLOAD_PER_PKT: usize = 31;

/// Stream command: SPI bytes follow.
pub const CMD_SPI_STREAM: u8 = 0xA8;
/// Stream command: pin (UIO) sub-commands follow.
pub const CMD_UIO_STREAM: u8 = 0xAB;
/// Stream command: I²C sub-commands follow (also carries the clock setting).
pub const CMD_I2C_STREAM: u8 = 0xAA;

/// I²C sub-command: set the clock (low bits select the rate).
pub const I2C_STM_SET: u8 = 0x60;
/// I²C sub-command: end of stream.
pub const I2C_STM_END: u8 = 0x00;
/// I²C sub-command: START condition.
pub const I2C_STM_STA: u8 = 0x74;
/// I²C sub-command: STOP condition.
pub const I2C_STM_STO: u8 = 0x75;
/// I²C sub-command base: write N bytes (N in the low 5 bits).
pub const I2C_STM_OUT: u8 = 0x80;
/// I²C sub-command base: read N bytes (N in the low 5 bits).
pub const I2C_STM_IN: u8 = 0xC0;

/// UIO sub-command: end of stream.
pub const UIO_STM_END: u8 = 0x20;
/// UIO sub-command base: pin directions in the low 6 bits.
pub const UIO_STM_DIR: u8 = 0x40;
/// UIO sub-command base: pin levels in the low 6 bits.
pub const UIO_STM_OUT: u8 = 0x80;

/// D0 (chip select) in the pin byte.
pub const CS_BIT: u8 = 1;
/// Idle SPI pins: all chip selects high, SCK low, data lines high.
pub const PIN_IDLE: u8 = 0x37;
/// SPI pin directions: D0..D5 outputs, D6..D7 inputs.
pub const PIN_DIR_SPI: u8 = 0x3F;

/// What the device layer needs from its surroundings: a way to wait and
/// a place for the verbose USB trace.
pub trait Host {
    /// Block for at least `ms` milliseconds.
    fn pause_ms(&mut self, ms: u64);

    /// Emit one line of the verbose USB trace.
    fn trace(&mut self, line: &str);
}

/// `b` with its bits in reverse order (bit 0 becomes bit 7).
pub open spec fn rev8(b: u8) -> u8 {
    ((b & 0x01u8) << 7u8) | ((b & 0x02u8) << 5u8) | ((b & 0x04u8) << 3u8) | ((b & 0x08u8) << 1u8)
        | ((b & 0x10u8) >> 1u8) | ((b & 0x20u8) >> 3u8) | ((b & 0x40u8) >> 5u8) | ((b & 0x80u8) >> 7u8)
}

/// Reverse the bit order of a byte.
pub fn reverse_bits(b: u8) -> (r: u8)
    ensures
        r == rev8(b),
{
    ((b & 0x01) << 7) | ((b & 0x02) << 5) | ((b & 0x04) << 3) | ((b & 0x08) << 1) | ((b & 0x10) >> 1) | ((b & 0x20) >> 3)
        | ((b & 0x40) >> 5) | ((b & 0x80) >> 7)
}

/// Reversing twice gives the byte back, so what goes out reversed comes
/// back as it was.
pub proof fn lemma_rev8_involution(b: u8)
    ensures
        rev8(rev8(b)) == b,
{
    assert(rev8(rev8(b)) == b) by (bit_vector);
}

/// The SPI packet carrying `chunk`: the stream command, then each byte
/// bit-reversed.
pub open spec fn spi_packet(chunk: Seq<u8>) -> Seq<u8> {
    seq![CMD_SPI_STREAM] + chunk.map_values(|b: u8| rev8(b))
}

/// The SPI packets for `tx`: 31-byte pieces, the last one shorter.
pub open spec fn spi_packets(tx: Seq<u8>) -> Seq<Seq<u8>>
    decreases tx.len(),
{
    if tx.len() == 0 {
        Seq::empty()
    } else {
        let n = if tx.len() < 31 { tx.len() as int } else { 31 };
        seq![spi_packet(tx.take(n))] + spi_packets(tx.skip(n))
    }
}

/// The bytes a run of SPI IN packets carries, each bit-reversed back.
pub open spec fn spi_reply(ins: Seq<Seq<u8>>) -> Seq<u8>
    decreases ins.len(),
{
    if ins.len() == 0 {
        Seq::empty()
    } else {
        spi_reply(ins.drop_last()) + ins.last().map_values(|b: u8| rev8(b))
    }
}

/// The payloads of a run of SPI packets (each without its command byte).
pub open spec fn packet_payloads(ps: Seq<Seq<u8>>) -> Seq<Seq<u8>> {
    ps.map_values(|p: Seq<u8>| p.skip(1))
}

/// What goes on the wire is exactly `tx`: each SPI packet is the stream
/// command and at most 31 bytes, and undoing the bit reversal of the
/// payloads, in order, gives `tx` back.
pub proof fn lemma_spi_packets_round_trip(tx: Seq<u8>)
    ensures
        forall|i: int| 0 <= i < spi_packets(tx).len() ==> (#[trigger] spi_packets(tx)[i]).len() <= 32
            && spi_packets(tx)[i].len() >= 2 && spi_packets(tx)[i][0] == CMD_SPI_STREAM,
        spi_reply(packet_payloads(spi_packets(tx))) == tx,
    decreases tx.len(),
{
    if tx.len() > 0 {
        let n = if tx.len() < 31 { tx.len() as int } else { 31 };
        let head = spi_packet(tx.take(n));
        let rest = tx.skip(n);
        lemma_spi_packets_round_trip(rest);
        let ps = spi_packets(tx);
        assert(ps == seq![head] + spi_packets(rest));
        assert forall|i: int| 0 <= i < ps.len() implies (#[trigger] ps[i]).len() <= 32 && ps[i].len() >= 2 && ps[i][0]
            == CMD_SPI_STREAM by {
            if i > 0 {
                assert(ps[i] == spi_packets(rest)[i - 1]);
            }
        }
        lemma_reply_prepend(head.skip(1), packet_payloads(spi_packets(rest)));
        assert(packet_payloads(ps) =~= seq![head.skip(1)] + packet_payloads(spi_packets(rest)));
        assert(head.skip(1) =~= tx.take(n).map_values(|b: u8| rev8(b)));
        let back = head.skip(1).map_values(|b: u8| rev8(b));
        assert forall|i: int| 0 <= i < n implies #[trigger] back[i] == tx.take(n)[i] by {
            lemma_rev8_involution(tx[i]);
        }
        assert(back =~= tx.take(n));
        assert(tx.take(n) + rest =~= tx);
    }
}

/// The reply of a packet followed by more packets is that packet's
/// bytes followed by the rest's reply.
proof fn lemma_reply_prepend(p: Seq<u8>, ps: Seq<Seq<u8>>)
    ensures
        spi_reply(seq![p] + ps) == p.map_values(|b: u8| rev8(b)) + spi_reply(ps),
    decreases ps.len(),
{
    if ps.len() == 0 {
        assert(seq![p] + ps =~= seq![p]);
        assert(seq![p].drop_last() =~= Seq::<Seq<u8>>::empty());
        assert(p.map_values(|b: u8| rev8(b)) + spi_reply(ps) =~= p.map_values(|b: u8| rev8(b)));
        assert(spi_reply(seq![p]) =~= spi_reply(Seq::<Seq<u8>>::empty()) + p.map_values(|b: u8| rev8(b)));
    } else {
        lemma_reply_prepend(p, ps.drop_last());
        assert((seq![p] + ps).drop_last() =~= seq![p] + ps.drop_last());
        assert((seq![p] + ps).last() == ps.last());
    }
}

/// Pin stream: chip select low, everything else idle.
pub open spec fn cs_assert_stream() -> Seq<u8> {
    seq![CMD_UIO_STREAM, UIO_STM_OUT | (PIN_IDLE & !CS_BIT), UIO_STM_END]
}

/// Pin stream: all pins idle (chip select high).
pub open spec fn cs_deassert_stream() -> Seq<u8> {
    seq![CMD_UIO_STREAM, UIO_STM_OUT | PIN_IDLE, UIO_STM_END]
}

/// Pin stream: idle levels and SPI directions.
pub open spec fn spi_pins_stream() -> Seq<u8> {
    seq![CMD_UIO_STREAM, UIO_STM_OUT | PIN_IDLE, UIO_STM_DIR | PIN_DIR_SPI, UIO_STM_END]
}

/// The clock-select bits for a rate in kHz, if the CH341A offers it.
pub open spec fn clock_bits(khz: u32) -> Option<u8> {
    if khz == 20 {
        Some(0u8)
    } else if khz == 100 {
        Some(1u8)
    } else if khz == 400 {
        Some(2u8)
    } else if khz == 750 {
        Some(3u8)
    } else {
        None
    }
}

/// The stream selecting clock bits `bits`.
pub open spec fn clock_stream(bits: u8) -> Seq<u8> {
    seq![CMD_I2C_STREAM, I2C_STM_SET | bits, I2C_STM_END]
}

/// The I²C stream for one transaction. A write phase (START, write
/// 1 + tx bytes, slave|W, tx) is present unless the transaction is a pure
/// read; a read phase (START, write 1 byte, slave|R, read rx_len) when
/// `rx_len > 0`; then STOP and END.
pub open spec fn i2c_stream(slave: u8, tx: Seq<u8>, rx_len: nat) -> Seq<u8> {
    let w = if tx.len() > 0 || rx_len == 0 {
        seq![I2C_STM_STA, I2C_STM_OUT | ((1 + tx.len()) as u8), slave << 1u8] + tx
    } else {
        Seq::empty()
    };
    let rd = if rx_len > 0 {
        seq![I2C_STM_STA, I2C_STM_OUT | 1u8, (slave << 1u8) | 1u8, I2C_STM_IN | (rx_len as u8)]
    } else {
        Seq::empty()
    };
    seq![CMD_I2C_STREAM] + w + rd + seq![I2C_STM_STO, I2C_STM_END]
}

/// Bytes the device answers an I²C stream with: one status byte per
/// written byte of each phase, then the data read.
pub open spec fn i2c_in_total(tx_len: nat, rx_len: nat) -> nat {
    (if tx_len > 0 || rx_len == 0 { 1 + tx_len } else { 0 }) + (if rx_len > 0 { 1nat } else { 0nat }) + rx_len
}

/// The address-probe stream: START, write 1 byte, slave|W, STOP, END.
pub open spec fn probe_stream(slave: u8) -> Seq<u8> {
    seq![CMD_I2C_STREAM, I2C_STM_STA, I2C_STM_OUT | 1u8, slave << 1u8, I2C_STM_STO, I2C_STM_END]
}

/// `n` right-aligned in two columns.
pub open spec fn pad2(n: nat) -> Seq<char> {
    if n < 10 {
        seq![' '] + dec(n)
    } else {
        dec(n)
    }
}

/// One verbose-trace line: `"<prefix>[<n, two columns>]: <hex>"`.
pub fn trace_line(prefix: &str, n: usize, bytes: &[u8]) -> (r: String)
    ensures
        r@ == prefix@ + pad2(n as nat) + "]: "@ + hex_lower_bytes(bytes@),
{
    let mut v = crate::text::str_chars(prefix);
    if n < 10 {
        v.push(' ');
    }
    crate::text::push_dec(&mut v, n as u64);
    crate::text::push_str(&mut v, "]: ");
    crate::text::push_hex_bytes(&mut v, bytes);
    proof {
        if n < 10 {
            assert(pad2(n as nat) =~= seq![' '] + dec(n as nat));
        }
    }
    crate::text::string_from_chars(v.as_slice())
}

/// A USB request made while opening the device.
pub enum UsbSetup {
    /// Open the first device with this vendor and product id.
    Open { vid: u16, pid: u16 },
    /// Turn automatic kernel-driver detaching on or off.
    AutoDetach(bool),
    /// Claim this interface.
    Claim(u8),
}

/// The requests that open the CH341A: find 1a86:5512, detach a kernel
/// driver automatically, claim interface 0.
pub open spec fn open_requests() -> Seq<UsbSetup> {
    seq![UsbSetup::Open { vid: 0x1A86u16, pid: 0x5512u16 }, UsbSetup::AutoDetach(true), UsbSetup::Claim(0u8)]
}

/// A connected CH341A.
pub struct Ch341<H: Host> {
    dev: UsbDevice,
    verbose: bool,
    host: H,
    setup: Ghost<Seq<UsbSetup>>,
    spi_failed: Ghost<Seq<Error>>,
    i2c_failed: Ghost<Seq<Error>>,
    out: Ghost<Seq<Seq<u8>>>,
    inp: Ghost<Seq<Seq<u8>>>,
    spi: Ghost<Seq<Txn>>,
    i2c: Ghost<Seq<I2cEvent>>,
}

/// What a refused interface claim means: permission missing, device gone,
/// or another USB failure.
fn claim_failure(kind: UsbErrorKind, e: rusb::Error) -> (r: Error)
    ensures
        kind is Access ==> r is PermissionDenied,
        kind is NotFound ==> r is DeviceNotFound,
        kind is Other ==> r is Usb,
{
    match kind {
        UsbErrorKind::Access => Error::PermissionDenied,
        UsbErrorKind::NotFound => Error::DeviceNotFound,
        UsbErrorKind::Other => Error::Usb(e),
    }
}

impl<H: Host> Ch341<H> {
    /// The USB requests that opened the device, in order.
    pub closed spec fn usb_setup(&self) -> Seq<UsbSetup> {
        self.setup@
    }

    /// The errors SPI transfers returned, oldest first.
    pub closed spec fn spi_failure_record(&self) -> Seq<Error> {
        self.spi_failed@
    }

    /// The errors I²C transfers and probes returned, oldest first.
    pub closed spec fn i2c_failure_record(&self) -> Seq<Error> {
        self.i2c_failed@
    }

    /// The USB OUT packets sent so far, oldest first.
    pub closed spec fn out_log(&self) -> Seq<Seq<u8>> {
        self.out@
    }

    /// The USB IN packets received so far, oldest first.
    pub closed spec fn in_log(&self) -> Seq<Seq<u8>> {
        self.inp@
    }

    /// The SPI transactions completed so far (what [`SpiTransport::spi_log`] reports).
    pub closed spec fn spi_trace(&self) -> Seq<Txn> {
        self.spi@
    }

    /// The I²C events so far (what [`I2cTransport::i2c_log`] reports).
    pub closed spec fn i2c_trace(&self) -> Seq<I2cEvent> {
        self.i2c@
    }

    /// Open the CH341A and configure its pins for SPI.
    pub fn open(verbose: bool, host: H) -> (r: Result<Self>)
        ensures
            (match r {
                Ok(ch) => ch.usb_setup() == open_requests() && ch.out_log() == seq![spi_pins_stream()] && ch.spi_trace().len() == 0
                    && ch.i2c_trace().len() == 0,
                Err(e) => e is Usb || e is DeviceNotFound || e is PermissionDenied,
            }),
    {
        let mut ch = Self::open_raw(verbose, host)?;
        ch.enable_spi_pins()?;
        assert(Seq::<Seq<u8>>::empty().push(spi_pins_stream()) =~= seq![spi_pins_stream()]);
        Ok(ch)
    }

    /// Open the CH341A for I²C: the I²C stream drives SDA/SCL itself,
    /// so no pin configuration is sent.
    pub fn open_i2c(verbose: bool, host: H) -> (r: Result<Self>)
        ensures
            (match r {
                Ok(ch) => ch.usb_setup() == open_requests() && ch.out_log().len() == 0 && ch.spi_trace().len() == 0
                    && ch.i2c_trace().len() == 0,
                Err(e) => e is Usb || e is DeviceNotFound || e is PermissionDenied,
            }),
    {
        Self::open_raw(verbose, host)
    }

    /// Find the device (1a86:5512), detach a kernel driver where the
    /// platform allows it, and claim interface 0.
    fn open_raw(verbose: bool, host: H) -> (r: Result<Self>)
        ensures
            (match r {
                Ok(ch) => ch.usb_setup() == open_requests() && ch.out_log().len() == 0 && ch.spi_trace().len() == 0
                    && ch.i2c_trace().len() == 0,
                Err(e) => e is Usb || e is DeviceNotFound || e is PermissionDenied,
            }),
    {
        let ctx = match context_new() {
            Ok(c) => c,
            Err(e) => {
                return Err(Error::Usb(e));
            },
        };
        let vid: u16 = VID;
        let pid: u16 = PID;
        let dev = match open_vid_pid(&ctx, vid, pid) {
            Some(d) => d,
            None => {
                return Err(Error::DeviceNotFound);
            },
        };
        let detach = true;
        let _ = set_auto_detach(&dev, detach);
        let iface: u8 = INTERFACE;
        match claim_interface(&dev, iface) {
            Ok(()) => {},
            Err(e) => {
                let kind = error_kind(&e);
                return Err(claim_failure(kind, e));
            },
        }
        let ghost setup = seq![UsbSetup::Open { vid, pid }, UsbSetup::AutoDetach(detach), UsbSetup::Claim(iface)];
        Ok(Ch341 {
            dev,
            verbose,
            host,
            setup: Ghost(setup),
            spi_failed: Ghost(Seq::empty()),
            i2c_failed: Ghost(Seq::empty()),
            out: Ghost(Seq::empty()),
            inp: Ghost(Seq::empty()),
            spi: Ghost(Seq::empty()),
            i2c: Ghost(Seq::empty()),
        })
    }

    /// Select the bus clock: 20, 100, 400 or 750 kHz. Any other rate is
    /// refused with [`Error::UnsupportedSpeed`] before anything is sent.
    pub fn set_clock(&mut self, khz: u32) -> (r: Result<()>)
        ensures
            final(self).spi_trace() == old(self).spi_trace(),
            final(self).i2c_trace() == old(self).i2c_trace(),
            clock_bits(khz) is None ==> r == Err::<(), Error>(Error::UnsupportedSpeed(khz)) && final(self).out_log() == old(self).out_log(),
            clock_bits(khz) matches Some(b) ==> (match r {
                Ok(_) => final(self).out_log() == old(self).out_log().push(clock_stream(b)),
                Err(e) => e is Usb && final(self).out_log() == old(self).out_log(),
            }),
    {
        let bits: u8 = if khz == 20 {
            0
        } else if khz == 100 {
            1
        } else if khz == 400 {
            2
        } else if khz == 750 {
            3
        } else {
            return Err(Error::UnsupportedSpeed(khz));
        };
        let buf = [CMD_I2C_STREAM, I2C_STM_SET | bits, I2C_STM_END];
        assert(buf@ =~= clock_stream(bits));
        self.bulk_out(&buf)
    }

    /// Drive the SPI idle levels and directions.
    fn enable_spi_pins(&mut self) -> (r: Result<()>)
        ensures
            final(self).usb_setup() == old(self).usb_setup(),
            final(self).spi_trace() == old(self).spi_trace(),
            final(self).i2c_trace() == old(self).i2c_trace(),
            (match r {
                Ok(_) => final(self).out_log() == old(self).out_log().push(spi_pins_stream()),
                Err(e) => e is Usb && final(self).out_log() == old(self).out_log(),
            }),
    {
        let buf = [CMD_UIO_STREAM, UIO_STM_OUT | PIN_IDLE, UIO_STM_DIR | PIN_DIR_SPI, UIO_STM_END];
        assert(buf@ =~= spi_pins_stream());
        self.bulk_out(&buf)
    }

    /// Pull chip select low.
    fn cs_assert(&mut self) -> (r: Result<()>)
        ensures
            final(self).in_log() == old(self).in_log(),
            final(self).spi_trace() == old(self).spi_trace(),
            final(self).i2c_trace() == old(self).i2c_trace(),
            (match r {
                Ok(_) => final(self).out_log() == old(self).out_log().push(cs_assert_stream()),
                Err(e) => e is Usb && final(self).out_log() == old(self).out_log(),
            }),
    {
        let buf = [CMD_UIO_STREAM, UIO_STM_OUT | (PIN_IDLE & !CS_BIT), UIO_STM_END];
        assert(buf@ =~= cs_assert_stream());
        self.bulk_out(&buf)
    }

    /// Release chip select.
    fn cs_deassert(&mut self) -> (r: Result<()>)
        ensures
            final(self).in_log() == old(self).in_log(),
            final(self).spi_trace() == old(self).spi_trace(),
            final(self).i2c_trace() == old(self).i2c_trace(),
            (match r {
                Ok(_) => final(self).out_log() == old(self).out_log().push(cs_deassert_stream()),
                Err(e) => e is Usb && final(self).out_log() == old(self).out_log(),
            }),
    {
        let buf = [CMD_UIO_STREAM, UIO_STM_OUT | PIN_IDLE, UIO_STM_END];
        assert(buf@ =~= cs_deassert_stream());
        self.bulk_out(&buf)
    }

    /// Send one OUT packet; a short write is an I/O error.
    fn bulk_out(&mut self, buf: &[u8]) -> (r: Result<()>)
        ensures
            final(self).usb_setup() == old(self).usb_setup(),
            final(self).in_log() == old(self).in_log(),
            final(self).spi_trace() == old(self).spi_trace(),
            final(self).i2c_trace() == old(self).i2c_trace(),
            (match r {
                Ok(_) => final(self).out_log() == old(self).out_log().push(buf@),
                Err(e) => e is Usb && final(self).out_log() == old(self).out_log(),
            }),
    {
        if self.verbose {
            let line = trace_line("  -> OUT  [", buf.len(), buf);
            self.host.trace(line.as_str());
        }
        let n = match write_bulk(&self.dev, EP_OUT, buf, USB_TIMEOUT_MS) {
            Ok(n) => n,
            Err(e) => {
                return Err(Error::Usb(e));
            },
        };
        if n != buf.len() {
            return Err(Error::Usb(io_error()));
        }
        self.out = Ghost(self.out@.push(buf@));
        Ok(())
    }

    /// Receive one IN packet of exactly `len` bytes; a short read is an
    /// I/O error.
    fn bulk_in(&mut self, len: usize) -> (r: Result<Vec<u8>>)
        ensures
            final(self).usb_setup() == old(self).usb_setup(),
            final(self).out_log() == old(self).out_log(),
            final(self).spi_trace() == old(self).spi_trace(),
            final(self).i2c_trace() == old(self).i2c_trace(),
            (match r {
                Ok(b) => b@.len() == len && final(self).in_log() == old(self).in_log().push(b@),
                Err(e) => e is Usb && final(self).in_log() == old(self).in_log(),
            }),
    {
        let (buf, n) = match read_bulk(&self.dev, EP_IN, len, USB_TIMEOUT_MS) {
            Ok(p) => p,
            Err(e) => {
                return Err(Error::Usb(e));
            },
        };
        if self.verbose {
            let shown = vstd::slice::slice_subrange(buf.as_slice(), 0, n);
            let line = trace_line("  <- IN   [", n, shown);
            self.host.trace(line.as_str());
        }
        if n != len {
            return Err(Error::Usb(io_error()));
        }
        self.inp = Ghost(self.inp@.push(buf@));
        Ok(buf)
    }

    /// The stream for one I²C transaction and the number of bytes the
    /// device answers it with.
    fn build_i2c_stream(slave_7bit: u8, tx: &[u8], rx_len: usize) -> (r: (Vec<u8>, usize))
        requires
            tx@.len() <= 30,
            rx_len <= 31,
        ensures
            r.0@ == i2c_stream(slave_7bit, tx@, rx_len as nat),
            r.1 == i2c_in_total(tx@.len(), rx_len as nat),
    {
        let mut out: Vec<u8> = Vec::new();
        out.push(CMD_I2C_STREAM);
        let write_phase = tx.len() > 0 || rx_len == 0;
        if write_phase {
            out.push(I2C_STM_STA);
            out.push(I2C_STM_OUT | (1 + tx.len() as u8));
            out.push(slave_7bit << 1);
            crate::bytes::push_all(&mut out, tx);
        }
        if rx_len > 0 {
            out.push(I2C_STM_STA);
            out.push(I2C_STM_OUT | 1);
            out.push((slave_7bit << 1) | 0x01);
            out.push(I2C_STM_IN | (rx_len as u8));
        }
        out.push(I2C_STM_STO);
        out.push(I2C_STM_END);
        assert(out@ =~= i2c_stream(slave_7bit, tx@, rx_len as nat));
        let ack_bytes: usize = (if write_phase { 1 + tx.len() } else { 0 }) + (if rx_len > 0 { 1 } else { 0 });
        (out, ack_bytes + rx_len)
    }
}

impl<H: Host> Ch341<H> {
    /// Full duplex: chip select low, `tx` in 31-byte bit-reversed packets
    /// each answered by as many bytes (reversed back), chip select high.
    fn spi_exchange(&mut self, tx: &[u8]) -> (r: Result<Vec<u8>>)
        ensures
            (match r {
                Ok(rx) => rx@.len() == tx@.len() && final(self).spi_trace() == old(self).spi_trace().push((tx@, rx@)),
                Err(e) => bus_error(e) && final(self).spi_trace() == old(self).spi_trace(),
            }),
            final(self).i2c_trace() == old(self).i2c_trace(),
            r is Ok ==> final(self).out_log() == old(self).out_log() + seq![cs_assert_stream()] + spi_packets(tx@)
                + seq![cs_deassert_stream()],
            r matches Ok(rx) ==> final(self).in_log().len() >= old(self).in_log().len() && rx@ == spi_reply(
                final(self).in_log().skip(old(self).in_log().len() as int),
            ),
    {
        let ghost o0 = self.out@;
        let ghost s0 = self.spi@;
        let ghost i0 = self.inp@;
        self.cs_assert()?;
        let mut rx: Vec<u8> = Vec::new();
        let mut off: usize = 0;
        proof {
            assert(tx@.skip(0) =~= tx@);
            assert(self.out@ =~= o0 + seq![cs_assert_stream()] + Seq::<Seq<u8>>::empty());
            assert(Seq::<Seq<u8>>::empty() + spi_packets(tx@) =~= spi_packets(tx@));
            assert(self.inp@.skip(i0.len() as int) =~= Seq::<Seq<u8>>::empty());
        }
        let ghost mut sent: Seq<Seq<u8>> = Seq::empty();
        let tl = tx.len();
        while off < tx.len()
            invariant
                off <= tx@.len(),
                tl == tx@.len(),
                rx@.len() == off,
                s0 == old(self).spi@,
                self.spi@ == s0,
                self.i2c@ == old(self).i2c@,
                self.out@ == o0 + seq![cs_assert_stream()] + sent,
                sent + spi_packets(tx@.skip(off as int)) == spi_packets(tx@),
                self.inp@.len() >= i0.len(),
                self.inp@.subrange(0, i0.len() as int) == i0,
                rx@ == spi_reply(self.inp@.skip(i0.len() as int)),
            decreases tx@.len() - off,
        {
            let rest: usize = tx.len() - off;
            let n: usize = if rest < MAX_PAYLOAD_PER_PKT { rest } else { MAX_PAYLOAD_PER_PKT };
            let mut pkt: Vec<u8> = Vec::new();
            pkt.push(CMD_SPI_STREAM);
            let mut k: usize = 0;
            while k < n
                invariant
                    k <= n,
                    off + n <= tx@.len(),
                    tl == tx@.len(),
                    pkt@ == seq![CMD_SPI_STREAM] + tx@.subrange(off as int, off + k).map_values(|b: u8| rev8(b)),
                decreases n - k,
            {
                pkt.push(reverse_bits(tx[off + k]));
                proof {
                    assert(tx@.subrange(off as int, off + k + 1).map_values(|b: u8| rev8(b)) =~= tx@.subrange(
                        off as int,
                        off + k,
                    ).map_values(|b: u8| rev8(b)).push(rev8(tx@[off + k])));
                }
                k = k + 1;
            }
            proof {
                let rs = tx@.skip(off as int);
                assert(rs.take(n as int) =~= tx@.subrange(off as int, off + n));
                assert(rs.skip(n as int) =~= tx@.skip(off + n));
                assert(sent.push(spi_packet(rs.take(n as int))) + spi_packets(tx@.skip(off + n)) =~= sent + spi_packets(rs));
            }
            match self.bulk_out(pkt.as_slice()) {
                Ok(_) => {},
                Err(e) => {
                    return Err(e);
                },
            }
            let ghost prev = self.inp@;
            let rbuf = match self.bulk_in(n) {
                Ok(b) => b,
                Err(e) => {
                    return Err(e);
                },
            };
            let ghost rx0 = rx@;
            let mut j: usize = 0;
            while j < rbuf.len()
                invariant
                    j <= rbuf@.len(),
                    rx@.len() == off + j,
                    rx@ == rx0 + rbuf@.subrange(0, j as int).map_values(|b: u8| rev8(b)),
                decreases rbuf@.len() - j,
            {
                rx.push(reverse_bits(rbuf[j]));
                proof {
                    assert(rbuf@.subrange(0, j + 1).map_values(|b: u8| rev8(b)) =~= rbuf@.subrange(0, j as int).map_values(
                        |b: u8| rev8(b),
                    ).push(rev8(rbuf@[j as int])));
                }
                j = j + 1;
            }
            proof {
                let got = self.inp@.skip(i0.len() as int);
                assert(self.inp@ == prev.push(rbuf@));
                assert(got.drop_last() =~= prev.skip(i0.len() as int));
                assert(got.last() == rbuf@);
                assert(rbuf@.subrange(0, rbuf@.len() as int) =~= rbuf@);
                assert(rx0 == spi_reply(prev.skip(i0.len() as int)));
                assert(spi_reply(got) == spi_reply(got.drop_last()) + got.last().map_values(|b: u8| rev8(b)));
                assert(self.inp@.subrange(0, i0.len() as int) =~= prev.subrange(0, i0.len() as int));
            }
            proof {
                sent = sent.push(spi_packet(tx@.skip(off as int).take(n as int)));
                assert(self.out@ =~= o0 + seq![cs_assert_stream()] + sent);
            }
            off = off + n;
        }
        match self.cs_deassert() {
            Ok(_) => {},
            Err(e) => {
                return Err(e);
            },
        }
        proof {
            assert(tx@.skip(off as int).len() == 0);
            assert(sent + spi_packets(tx@.skip(off as int)) =~= sent);
        }
        self.spi = Ghost(self.spi@.push((tx@, rx@)));
        Ok(rx)
    }


    /// One stream per transaction; the device's status bytes precede the
    /// data read and are dropped.
    fn i2c_exchange(&mut self, slave_7bit: u8, tx: &[u8], rx_len: usize) -> (r: Result<Vec<u8>>)
        requires
            tx@.len() <= MAX_TX_BYTES,
            rx_len <= MAX_RX_BYTES,
        ensures
            (match r {
                Ok(rx) => rx@.len() == rx_len && final(self).i2c_trace() == old(self).i2c_trace().push(
                    I2cEvent::Transfer { slave: slave_7bit, tx: tx@, rx: rx@ },
                ),
                Err(e) => bus_error(e) && final(self).i2c_trace() == old(self).i2c_trace(),
            }),
            final(self).spi_trace() == old(self).spi_trace(),
            r is Ok ==> final(self).out_log() == old(self).out_log().push(i2c_stream(slave_7bit, tx@, rx_len as nat)),
            r matches Ok(rx) ==> final(self).in_log().len() == old(self).in_log().len() + 1 && final(self).in_log().last().len()
                == i2c_in_total(tx@.len(), rx_len as nat) && rx@ == final(self).in_log().last().skip(
                i2c_in_total(tx@.len(), rx_len as nat) - rx_len,
            ),
    {
        let (out, in_total) = Self::build_i2c_stream(slave_7bit, tx, rx_len);
        self.bulk_out(out.as_slice())?;
        let buf = self.bulk_in(in_total)?;
        let data_start = in_total - rx_len;
        let data = crate::bytes::to_vec(vstd::slice::slice_subrange(buf.as_slice(), data_start, in_total));
        assert(data@ =~= buf@.skip(data_start as int));
        self.i2c = Ghost(self.i2c@.push(I2cEvent::Transfer { slave: slave_7bit, tx: tx@, rx: data@ }));
        Ok(data)
    }

    /// START, slave|W, STOP; a reply byte with its high bit clear counts
    /// as an acknowledge, and no reply at all as none.
    fn probe_exchange(&mut self, slave_7bit: u8) -> (r: Result<bool>)
        ensures
            (match r {
                Ok(ack) => final(self).i2c_trace() == old(self).i2c_trace().push(I2cEvent::Probe { slave: slave_7bit, ack }),
                Err(e) => bus_error(e) && final(self).i2c_trace() == old(self).i2c_trace(),
            }),
            final(self).spi_trace() == old(self).spi_trace(),
            r is Ok ==> final(self).out_log() == old(self).out_log().push(probe_stream(slave_7bit)),
            r matches Ok(ack) ==> ack == (final(self).in_log().len() == old(self).in_log().len() + 1
                && final(self).in_log().last()[0] & 0x80u8 == 0),
            r is Ok ==> final(self).in_log().len() <= old(self).in_log().len() + 1,
    {
        let buf = [CMD_I2C_STREAM, I2C_STM_STA, I2C_STM_OUT | 1, slave_7bit << 1, I2C_STM_STO, I2C_STM_END];
        assert(buf@ =~= probe_stream(slave_7bit));
        self.bulk_out(&buf)?;
        let ack = match self.bulk_in(1) {
            Ok(resp) => resp[0] & 0x80 == 0,
            Err(_) => false,
        };
        self.i2c = Ghost(self.i2c@.push(I2cEvent::Probe { slave: slave_7bit, ack }));
        Ok(ack)
    }
}

impl<H: Host> SpiTransport for Ch341<H> {
    open spec fn spi_log(&self) -> Seq<Txn> {
        self.spi_trace()
    }

    open spec fn spi_failures(&self) -> Seq<Error> {
        self.spi_failure_record()
    }

    /// A real device promises no answer in advance.
    open spec fn spi_upcoming(&self) -> Seq<Txn> {
        Seq::empty()
    }

    /// Full duplex: chip select low, `tx` in 31-byte bit-reversed packets
    /// each answered by as many bytes (reversed back), chip select high.
    /// A failure is recorded.
    fn spi_transfer(&mut self, tx: &[u8]) -> (r: Result<Vec<u8>>)
        ensures
            final(self).i2c_trace() == old(self).i2c_trace(),
            r is Ok ==> final(self).out_log() == old(self).out_log() + seq![cs_assert_stream()] + spi_packets(tx@)
                + seq![cs_deassert_stream()],
            r matches Ok(rx) ==> final(self).in_log().len() >= old(self).in_log().len() && rx@ == spi_reply(
                final(self).in_log().skip(old(self).in_log().len() as int),
            ),
    {
        let ghost f0 = self.spi_failed@;
        let r = self.spi_exchange(tx);
        self.spi_failed = Ghost(crate::error::failures_after(f0, &r));
        r
    }

    /// The wait goes to the host; no USB traffic, and the bus event
    /// trace records it.
    fn pause_ms(&mut self, ms: u64)
        ensures
            final(self).i2c_trace() == old(self).i2c_trace().push(I2cEvent::Pause { ms }),
            final(self).out_log() == old(self).out_log(),
            final(self).in_log() == old(self).in_log(),
    {
        self.host.pause_ms(ms);
        self.i2c = Ghost(self.i2c@.push(I2cEvent::Pause { ms }));
    }
}

impl<H: Host> I2cTransport for Ch341<H> {
    open spec fn i2c_log(&self) -> Seq<I2cEvent> {
        self.i2c_trace()
    }

    open spec fn i2c_failures(&self) -> Seq<Error> {
        self.i2c_failure_record()
    }

    /// A real device promises no answer in advance.
    open spec fn i2c_upcoming(&self) -> Seq<KnownTransfer> {
        Seq::empty()
    }

    /// A real device promises no answer in advance.
    open spec fn i2c_probes_answered(&self) -> bool {
        false
    }

    /// One stream per transaction; the device's status bytes precede the
    /// data read and are dropped. A failure is recorded.
    fn i2c_transfer(&mut self, slave_7bit: u8, tx: &[u8], rx_len: usize) -> (r: Result<Vec<u8>>)
        ensures
            final(self).spi_trace() == old(self).spi_trace(),
            r is Ok ==> final(self).out_log() == old(self).out_log().push(i2c_stream(slave_7bit, tx@, rx_len as nat)),
            r matches Ok(rx) ==> final(self).in_log().len() == old(self).in_log().len() + 1 && final(self).in_log().last().len()
                == i2c_in_total(tx@.len(), rx_len as nat) && rx@ == final(self).in_log().last().skip(
                i2c_in_total(tx@.len(), rx_len as nat) - rx_len,
            ),
    {
        let ghost f0 = self.i2c_failed@;
        let r = self.i2c_exchange(slave_7bit, tx, rx_len);
        self.i2c_failed = Ghost(crate::error::failures_after(f0, &r));
        r
    }

    /// START, slave|W, STOP; a reply byte with its high bit clear counts
    /// as an acknowledge, and no reply at all as none. A failure is
    /// recorded.
    fn i2c_probe(&mut self, slave_7bit: u8) -> (r: Result<bool>)
        ensures
            final(self).spi_trace() == old(self).spi_trace(),
            r is Ok ==> final(self).out_log() == old(self).out_log().push(probe_stream(slave_7bit)),
            r matches Ok(ack) ==> ack == (final(self).in_log().len() == old(self).in_log().len() + 1
                && final(self).in_log().last()[0] & 0x80u8 == 0),
            r is Ok ==> final(self).in_log().len() <= old(self).in_log().len() + 1,
    {
        let ghost f0 = self.i2c_failed@;
        let r = self.probe_exchange(slave_7bit);
        self.i2c_failed = Ghost(crate::error::failures_after(f0, &r));
        r
    }

    fn pause_ms(&mut self, ms: u64) {
        self.host.pause_ms(ms);
        self.i2c = Ghost(self.i2c@.push(I2cEvent::Pause { ms }));
    }
}

} // verus!
