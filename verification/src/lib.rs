//! Shortest round-trip decimal formatting for IEEE-754 floating-point values,
//! working directly on their raw bit patterns.
//!
//! The crate converts a binary64 (or binary32) bit pattern into the shortest
//! decimal digit sequence that reads back as the identical value, then lays
//! the digits out in plain-integer, plain-decimal or scientific notation.
//! All arithmetic is carried out on integers: callers obtain the bit pattern
//! of a float with `to_bits` and hand it in as a `u64` or `u32`.

pub mod api;
pub mod digits;
pub mod emit;
pub mod extended;
pub mod table;

pub use api::{
    f32toa_bytes, f32toa_string, f32toa_write, f64toa_bytes, f64toa_string, f64toa_write,
    FtoaError, MAX_FLOAT_SIZE,
};
