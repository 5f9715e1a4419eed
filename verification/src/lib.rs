//! Human-readable byte sizes.
//!
//! A [`ByteSize`] is a count of bytes. It is written with SI prefixes and
//! three significant digits (`1.23 MB`), and read back from text with SI
//! or IEC prefixes (`4 KiB`).

pub mod arith;
pub mod display;
pub mod parse;
pub mod round_trip;
pub mod size;
pub mod variants;

pub use parse::parse_prefix;
pub use parse::Parsed;
pub use size::ByteSize;
pub use size::ParseByteSizeError;
