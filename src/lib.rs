//! Reassembly of the weather-station console's 64-byte HID frames into
//! messages, and decoding / line-protocol encoding of the readings they carry.
pub mod frame;
pub mod codec;
pub mod station;
mod text;
