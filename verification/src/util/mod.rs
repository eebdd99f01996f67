//! Byte buffers and bit-level reading.
pub mod bit_util;
pub mod memory;
