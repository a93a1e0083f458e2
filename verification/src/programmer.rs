//! Programmer dispatch: the SPI and I²C operations are generic over the
//! transport traits, and `Programmer` is the runtime choice among the
//! supported USB bridges (currently the CH341A), forwarding the
//! transport calls to the device it owns.
use crate::ch341::{clock_bits, open_requests, Ch341, Host, UsbSetup};
use crate::error::{Error, Result};
use crate::i2c::{I2cEvent, I2cTransport, KnownTransfer};
use crate::spi::{SpiTransport, Txn};
use vstd::prelude::*;

verus! {

/// A connected USB flash programmer, one variant per supported bridge.
pub enum Programmer<H: Host> {
    /// WCH CH341A.
    Ch341(Ch341<H>),
}

impl<H: Host> Programmer<H> {
    /// The SPI transactions completed so far.
    pub open spec fn spi_events(&self) -> Seq<Txn> {
        match self {
            Programmer::Ch341(d) => d.spi_trace(),
        }
    }

    /// The USB requests that opened the bridge, in order.
    pub open spec fn usb_setup(&self) -> Seq<UsbSetup> {
        match self {
            Programmer::Ch341(d) => d.usb_setup(),
        }
    }

    /// The I²C events so far.
    pub open spec fn i2c_events(&self) -> Seq<I2cEvent> {
        match self {
            Programmer::Ch341(d) => d.i2c_trace(),
        }
    }

    /// Open the connected programmer in SPI mode.
    pub fn open(verbose: bool, host: H) -> (r: Result<Self>)
        ensures
            (match r {
                Ok(p) => p.usb_setup() == open_requests() && p.spi_events().len() == 0 && p.i2c_events().len() == 0,
                Err(e) => e is Usb || e is DeviceNotFound || e is PermissionDenied,
            }),
    {
        let d = Ch341::open(verbose, host)?;
        Ok(Programmer::Ch341(d))
    }

    /// Open the connected programmer in I²C mode.
    pub fn open_i2c(verbose: bool, host: H) -> (r: Result<Self>)
        ensures
            (match r {
                Ok(p) => p.usb_setup() == open_requests() && p.spi_events().len() == 0 && p.i2c_events().len() == 0,
                Err(e) => e is Usb || e is DeviceNotFound || e is PermissionDenied,
            }),
    {
        let d = Ch341::open_i2c(verbose, host)?;
        Ok(Programmer::Ch341(d))
    }

    /// Set the bus clock in kHz; the bridge refuses rates it cannot
    /// select with [`Error::UnsupportedSpeed`].
    pub fn set_clock(&mut self, khz: u32) -> (r: Result<()>)
        ensures
            final(self).spi_events() == old(self).spi_events(),
            final(self).i2c_events() == old(self).i2c_events(),
            clock_bits(khz) is None ==> r == Err::<(), Error>(Error::UnsupportedSpeed(khz)),
            r matches Err(e) ==> e is Usb || e is UnsupportedSpeed,
    {
        match self {
            Programmer::Ch341(d) => d.set_clock(khz),
        }
    }
}

impl<H: Host> SpiTransport for Programmer<H> {
    open spec fn spi_log(&self) -> Seq<Txn> {
        self.spi_events()
    }

    open spec fn spi_failures(&self) -> Seq<Error> {
        match self {
            Programmer::Ch341(d) => d.spi_failure_record(),
        }
    }

    /// A real device promises no answer in advance.
    open spec fn spi_upcoming(&self) -> Seq<Txn> {
        Seq::empty()
    }

    fn spi_transfer(&mut self, tx: &[u8]) -> (r: Result<Vec<u8>>) {
        match self {
            Programmer::Ch341(d) => d.spi_transfer(tx),
        }
    }

    /// Forwarded to the bridge, whose bus event trace records the wait.
    fn pause_ms(&mut self, ms: u64)
        ensures
            final(self).i2c_events() == old(self).i2c_events().push(I2cEvent::Pause { ms }),
    {
        match self {
            Programmer::Ch341(d) => SpiTransport::pause_ms(d, ms),
        }
    }
}

impl<H: Host> I2cTransport for Programmer<H> {
    open spec fn i2c_log(&self) -> Seq<I2cEvent> {
        self.i2c_events()
    }

    open spec fn i2c_failures(&self) -> Seq<Error> {
        match self {
            Programmer::Ch341(d) => d.i2c_failure_record(),
        }
    }

    /// A real device promises no answer in advance.
    open spec fn i2c_upcoming(&self) -> Seq<KnownTransfer> {
        Seq::empty()
    }

    /// A real device promises no answer in advance.
    open spec fn i2c_probes_answered(&self) -> bool {
        false
    }

    fn i2c_transfer(&mut self, slave_7bit: u8, tx: &[u8], rx_len: usize) -> (r: Result<Vec<u8>>) {
        match self {
            Programmer::Ch341(d) => d.i2c_transfer(slave_7bit, tx, rx_len),
        }
    }

    fn i2c_probe(&mut self, slave_7bit: u8) -> (r: Result<bool>) {
        match self {
            Programmer::Ch341(d) => d.i2c_probe(slave_7bit),
        }
    }

    fn pause_ms(&mut self, ms: u64) {
        match self {
            Programmer::Ch341(d) => I2cTransport::pause_ms(d, ms),
        }
    }
}

} // verus!
