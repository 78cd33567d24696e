//! Byte-aligned group varint coding for dense sequences of unsigned integers.
//!
//! Values are coded in groups of four. Each group contributes one byte to a
//! *tag* stream, packing four 2-bit value-tags that give the byte width of
//! each value, and its payload bytes to a separate *data* stream. Three
//! parameterizations are provided: [`Coder1234`] and [`Coder0124`] for 32-bit
//! values and [`Coder1248`] for 64-bit values, each also supporting delta
//! coding against a caller-supplied initial value.
//!
//! Every coding routine carries a contract that pins down the exact bytes
//! written and the exact values recovered, and the round-trip laws are proved
//! as theorems over those contracts.

mod bytes;
pub mod delta;
pub mod shuffle;
pub mod tag_utils;
pub mod coder0124;
pub mod coder1234;
pub mod coder1248;
pub mod group0124;
pub mod group1234;
pub mod group1248;

pub use bytes::read_le32;
pub use bytes::read_le64;
pub use bytes::write_le32;
pub use bytes::write_le64;
pub use coder0124::Coder0124;
pub use coder1234::Coder1234;
pub use coder1248::Coder1248;
pub use group0124::Group0124;
pub use group1234::Group1234;
pub use group1248::Group1248;
