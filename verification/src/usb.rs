//! The rusb calls the CH341A layer makes, each behind a small trusted
//! item, plus the outside types they carry.
use rusb::{Context, DeviceHandle, Error as UsbError, UsbContext};
use std::time::Duration;
use vstd::prelude::*;

verus! {

/// `rusb::Error`, carried opaquely inside [`crate::error::Error::Usb`].
#[verifier::external_type_specification]
#[verifier::external_body]
pub struct ExUsbError(UsbError);

/// `rusb::Context`, a libusb session.
#[verifier::external_type_specification]
#[verifier::external_body]
pub struct ExContext(Context);

/// An open USB device: a `rusb::DeviceHandle<rusb::Context>`. The
/// handle type is generic over rusb's `UsbContext` trait, which cannot
/// be named in a type declaration here, so the handle is held in a
/// private field of this opaque struct and only the wrappers below
/// touch it.
#[verifier::external_body]
pub struct UsbDevice {
    handle: DeviceHandle<Context>,
}

/// The `rusb::Error` variants the CH341A layer tells apart.
pub enum UsbErrorKind {
    /// `Error::Access`: insufficient permissions.
    Access,
    /// `Error::NotFound`: no such entity.
    NotFound,
    /// Any other variant.
    Other,
}

/// `rusb::Context::new`: start a libusb session. Whether it succeeds
/// depends on the machine; nothing is promised.
#[verifier::external_body]
pub(crate) fn context_new() -> std::result::Result<Context, UsbError> {
    Context::new()
}

/// `UsbContext::open_device_with_vid_pid`: a handle to the first device
/// with this vendor and product id, `None` when there is none (or on
/// error). Depends on what is plugged in; nothing is promised.
#[verifier::external_body]
pub(crate) fn open_vid_pid(ctx: &Context, vid: u16, pid: u16) -> Option<UsbDevice> {
    match ctx.open_device_with_vid_pid(vid, pid) {
        Some(handle) => Some(UsbDevice { handle }),
        None => None,
    }
}

/// `DeviceHandle::set_auto_detach_kernel_driver`: ask libusb to detach
/// a kernel driver when claiming. Platform-dependent; nothing is promised.
#[verifier::external_body]
pub(crate) fn set_auto_detach(h: &UsbDevice, on: bool) -> std::result::Result<(), UsbError> {
    h.handle.set_auto_detach_kernel_driver(on)
}

/// `DeviceHandle::claim_interface`. Depends on the device and the OS;
/// nothing is promised.
#[verifier::external_body]
pub(crate) fn claim_interface(h: &UsbDevice, iface: u8) -> std::result::Result<(), UsbError> {
    h.handle.claim_interface(iface)
}

/// Which of the variants the CH341A layer distinguishes `e` is
/// (a match on `rusb::Error`, one arm per kind).
#[verifier::external_body]
pub(crate) fn error_kind(e: &UsbError) -> UsbErrorKind {
    match e {
        UsbError::Access => UsbErrorKind::Access,
        UsbError::NotFound => UsbErrorKind::NotFound,
        _ => UsbErrorKind::Other,
    }
}

/// `rusb::Error::Io`, the error a short transfer is reported as.
#[verifier::external_body]
pub(crate) fn io_error() -> UsbError {
    UsbError::Io
}

/// `DeviceHandle::write_bulk` on endpoint `ep` with a timeout of
/// `timeout_ms` (at least 1 and below 2^32: rusb hands libusb the
/// milliseconds as a 32-bit number, and libusb waits forever on 0): on
/// success, how many bytes of `buf` were written, which rusb documents as
/// at most the buffer's length.
#[verifier::external_body]
pub(crate) fn write_bulk(h: &UsbDevice, ep: u8, buf: &[u8], timeout_ms: u64) -> (r: std::result::Result<
    usize,
    UsbError,
>)
    requires
        1 <= timeout_ms <= 0xFFFF_FFFF,
    ensures
        r matches Ok(n) ==> n <= buf@.len(),
{
    h.handle.write_bulk(ep, buf, Duration::from_millis(timeout_ms))
}

/// `DeviceHandle::read_bulk` on endpoint `ep` into a fresh `len`-byte
/// buffer with a timeout of `timeout_ms` (at least 1 and below 2^32, as
/// for [`write_bulk`]): on success the buffer and how
/// many bytes were received, which rusb documents as at most `len`.
/// What the bytes are depends on the device; nothing is promised of them.
#[verifier::external_body]
pub(crate) fn read_bulk(h: &UsbDevice, ep: u8, len: usize, timeout_ms: u64) -> (r: std::result::Result<
    (Vec<u8>, usize),
    UsbError,
>)
    requires
        1 <= timeout_ms <= 0xFFFF_FFFF,
    ensures
        r matches Ok((buf, n)) ==> buf@.len() == len && n <= len,
{
    let mut buf = vec![0u8; len];
    match h.handle.read_bulk(ep, &mut buf, Duration::from_millis(timeout_ms)) {
        Ok(n) => Ok((buf, n)),
        Err(e) => Err(e),
    }
}

} // verus!
