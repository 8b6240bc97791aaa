//! A sliding-window byte codec: literal runs and back-references into a
//! 256-byte ring of recent output, with copies that may overlap themselves.

pub mod compress;
pub mod decompress;
pub mod round_trip;
pub mod window;
