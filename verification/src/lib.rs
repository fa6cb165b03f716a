//! Random Linear Network Coding (RLNC) over pluggable finite fields.
//!
//! A payload is split into equally sized chunks, each packed into field
//! symbols. The encoder emits coded packets, each a random linear combination
//! of the chunks; a decoder that has gathered linearly independent coded
//! packets for every chunk reconstructs the payload exactly.

use vstd::prelude::*;

pub mod chunks;
pub mod common;
pub mod decode;
pub mod encode;
pub mod field;
pub mod galois;
pub mod matrix;
pub mod packet;
pub mod scalar;

verus! {

/// Sentinel byte appended to the payload before chunking, so that the decoder
/// can find the end of the original data after reconstruction.
pub const BOUNDARY_MARKER: u8 = 0x81;

} // verus!
