//! Error kinds shared across the codec.

use vstd::prelude::*;

verus! {

/// Failure kinds surfaced by the encoder and the decoder.
#[derive(Debug, Clone, Copy, PartialEq, Eq, Structural)]
pub enum RLNCError {
    /// The encoder was given no payload.
    EmptyData,
    /// A constructor was given a chunk count of zero.
    ZeroChunkCount,
    /// A constructor was given a chunk size of zero.
    ZeroChunkSize,
    /// The decoder was asked to gather zero packets.
    ZeroPacketCount,
    /// A packet's data vector length does not match the decoder's symbol
    /// count: `(got, expected)`.
    ChunkSizeMismatch(usize, usize),
    /// A coding vector length does not match the chunk count:
    /// `(got, expected)`.
    InvalidCodingVectorLength(usize, usize),
    /// No boundary marker was found in the reconstructed byte stream.
    InvalidEncoding,
    /// An extraction was requested before full rank: `(have, need)`.
    NotEnoughPackets(usize, usize),
}

} // verus!
