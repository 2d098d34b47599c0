//! Conversion between naive timestamp text (`YYYY-MM-DD HH:MM:SS.fffffffff`)
//! and signed 64-bit nanosecond counts since 1970-01-01 00:00:00.

pub mod calendar;
pub mod codec;
pub mod digits;
pub mod timestamp;

pub use codec::Ts9;
pub use timestamp::{CivilDateTime, Ts9Error};
