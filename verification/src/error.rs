//! Typed errors used across the crate.
use rusb::Error as UsbError;
use vstd::prelude::*;

verus! {

/// What can go wrong talking to a programmer or a chip.
#[allow(inconsistent_fields)]
#[derive(Debug)]
pub enum Error {
    /// No CH341A (USB 1a86:5512) is plugged in.
    DeviceNotFound,
    /// The OS refused to open the CH341A (udev rule / WinUSB binding missing).
    PermissionDenied,
    /// The chip (named or by JEDEC id) is not in the chip database.
    ChipNotRecognized(String),
    /// A read-back after programming did not match.
    VerifyFailed { addr: u32, expected: u8, actual: u8 },
    /// SR1 block-protect / SRP bits prevent the operation.
    WriteProtected,
    /// The bus clock asked for is not one the CH341A can select.
    UnsupportedSpeed(u32),
    /// A USB transfer failed.
    Usb(UsbError),
    /// The chip kept SR1.WIP set past the allowed time.
    Timeout,
    /// `addr .. addr + len` does not fit in a chip of `chip_size` bytes.
    AddressOutOfRange { addr: u32, len: u32, chip_size: u32 },
    /// An erase must start on a sector boundary.
    UnalignedErase { addr: u32, sector_size: u32 },
    /// A page program would run past the end of its page.
    PageBoundaryCrossing { addr: u32, len: usize, page_size: u32 },
    /// A blank check found a byte other than 0xFF.
    NotBlank { addr: u32, value: u8 },
    /// An I²C device did not acknowledge its address.
    I2cNack { slave_7bit: u8 },
    /// A scripted transport was asked for a transfer its script does
    /// not hold at position `step`.
    ScriptMismatch { step: usize },
}

/// An error a bus transfer itself can report: a USB failure, a
/// missing I²C acknowledge, or a scripted bus seeing a transfer it was
/// not told to expect.
pub open spec fn bus_error(e: Error) -> bool {
    e is Usb || e is I2cNack || e is ScriptMismatch
}

/// A record of errors after an outcome: the error added when it is one.
pub open spec fn failures_after<T>(f: Seq<Error>, r: &Result<T>) -> Seq<Error> {
    match *r {
        Ok(_) => f,
        Err(e) => f.push(e),
    }
}

/// A record of transport errors after an outcome: the error added when
/// it is one a bus transfer reports.
pub open spec fn failures_of<T>(f: Seq<Error>, r: Result<T>) -> Seq<Error> {
    match r {
        Ok(_) => f,
        Err(e) => if bus_error(e) {
            f.push(e)
        } else {
            f
        },
    }
}

/// Crate-wide result alias.
pub type Result<T> = std::result::Result<T, Error>;

} // verus!
