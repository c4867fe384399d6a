//! Binary encodings.
//!
//! - `disk_format`: a uniform frame of magic, version, CRC-32 and payload
//! - `payload`: the outside codecs behind the frames
//! - `timestamp`: wall-clock milliseconds that never go backwards

pub mod disk_format;
pub mod payload;
pub mod timestamp;

pub use timestamp::current_timestamp_millis;
