//! Download of firmware images into the RAM of a Cypress FX3 device.
//!
//! The library parses and checks the boot image container, keeps the running
//! checksum, and decides every control transfer of a download. The caller owns
//! the USB handle: it performs each step that the library hands out and
//! reports back how many bytes the device accepted.
pub mod checksum;
pub mod download;
pub mod error;
pub mod image;
pub mod integrity;

pub use checksum::Checksum;
pub use download::{Loader, Step};
pub use error::{Error, UsbFailure};
