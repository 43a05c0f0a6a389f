use vstd::prelude::*;

verus! {

#[verifier::external_type_specification]
#[verifier::external_body]
pub struct ExIoError(std::io::Error);

/// Why the USB layer refused a control transfer, one variant for each
/// failure that libusb reports.
#[derive(Debug, Clone, Copy, PartialEq, Eq, Structural)]
pub enum UsbFailure {
    Io,
    InvalidParam,
    Access,
    NoDevice,
    NotFound,
    Busy,
    Timeout,
    Overflow,
    Pipe,
    Interrupted,
    NoMem,
    NotSupported,
    BadDescriptor,
    Other,
}

/// Every way in which a download can fail.
#[derive(Debug)]
pub enum Error {
    /// The firmware file could not be read.
    IoError(std::io::Error),
    /// The image does not start with "CY".
    MissingMagic,
    /// The flags byte marks the image as not executable.
    NotExecutable,
    /// The image type is not a normal firmware image with a checksum.
    AbnormalFirmware,
    /// The sum of the data words differs from the stored checksum.
    InvalidChecksum,
    /// Fewer than `len` bytes were left at `offset`.
    TruncatedData { offset: usize, len: u64 },
    /// A control transfer failed.
    UsbError(UsbFailure),
}

} // verus!
