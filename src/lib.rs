//! Parsing and canonical formatting of USB instrument resource addresses of
//! the form `USB[board]::0x<vendor>::0x<model>::<serial>[::<interface>][::INSTR]`.
use vstd::prelude::*;

pub mod text;
pub mod usb;
pub mod laws;

pub use text::NumErrorKind;
pub use usb::{UsbAddress, UsbParseError};

verus! {

} // verus!
