//! Variable-length (LEB128) encoding and decoding of unsigned integers.
//!
//! Values are written as a sequence of 7-bit groups, least-significant group
//! first, one group per byte.  The high bit (0x80) of every byte but the last
//! is set, marking a continuation; the last byte has it clear.  The encoder
//! always emits the unique shortest such sequence for a value; the decoder
//! reads one value from the front of a byte slice, tolerating trailing bytes.

pub mod decode;
pub mod encode;
pub mod leb;
