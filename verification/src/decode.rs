//! The RLNC decoder: validates inbound coded packets, feeds them to the RREF
//! matrix, and returns the reconstructed payload once the matrix reaches
//! full rank.

use vstd::prelude::*;

use crate::chunks::div_ceil_spec;
use crate::common::RLNCError;
use crate::field::Field;
use crate::chunks::Chunks;
use crate::matrix::{
    accepted_state, consistent, full_bytes, has_lead, is_last_marker, lemma_full_rank_payload,
    reduced_cv, reduced_dv, Matrix,
};
use crate::packet::{is_lead, RLNCPacket};
use crate::BOUNDARY_MARKER;

verus! {

/// RLNC decoder: absorbs coded packets one at a time and reconstructs the
/// original payload from any full set of linearly independent packets.
#[derive(Debug)]
pub struct Decoder<F: Field> {
    /// The size of each original chunk in bytes.
    pub chunk_size: usize,
    /// The number of coded packets required to decode the original data,
    /// also known as the generation size.
    pub chunk_count: usize,
    /// The RREF matrix of received coded packets.
    pub matrix: Matrix<F>,
}

impl<F: Field> Decoder<F> {
    /// The decoder's bookkeeping matches its matrix.
    pub open spec fn wf(self) -> bool {
        &&& self.matrix.wf()
        &&& self.matrix.chunk_count == self.chunk_count
        &&& self.matrix.symbol_count == div_ceil_spec(self.chunk_size as nat, F::spec_cap())
        &&& self.chunk_size >= 1
        &&& self.chunk_count >= 1
    }

    /// Creates a new decoder for the given chunk size and chunk count
    /// (generation size).
    pub fn new(chunk_size: usize, chunk_count: usize) -> (r: Result<Self, RLNCError>)
        requires
            chunk_size + F::spec_cap() <= usize::MAX,
        ensures
            r is Ok <==> chunk_size > 0 && chunk_count > 0,
            chunk_size == 0 <==> r == Result::<Self, RLNCError>::Err(RLNCError::ZeroChunkSize),
            chunk_size > 0 && chunk_count == 0 <==> r == Result::<Self, RLNCError>::Err(
                RLNCError::ZeroPacketCount,
            ),
            r is Ok ==> {
                let d = r.unwrap();
                &&& d.wf()
                &&& d.chunk_size == chunk_size
                &&& d.chunk_count == chunk_count
                &&& d.matrix.rank == 0
            },
    {
        if chunk_size == 0 {
            return Err(RLNCError::ZeroChunkSize);
        }
        if chunk_count == 0 {
            return Err(RLNCError::ZeroPacketCount);
        }
        let cap = F::safe_capacity();
        let symbol_count = (chunk_size + cap - 1) / cap;
        proof {
            assert(symbol_count == div_ceil_spec(chunk_size as nat, F::spec_cap()));
        }
        Ok(Self { chunk_size, chunk_count, matrix: Matrix::new(chunk_count, symbol_count) })
    }

    /// Decodes a coded packet. The packet is reduced against the stored
    /// rows; a linearly dependent packet is discarded with `None`, an
    /// independent one raises the rank, and once the rank reaches the chunk
    /// count the reconstructed payload is returned, truncated at the last
    /// boundary marker. A call after completion re-emits the payload; the
    /// rank never changes again.
    pub fn decode(&mut self, packet: RLNCPacket<F>) -> (r: Result<Option<Vec<u8>>, RLNCError>)
        requires
            old(self).wf(),
            packet.wf(),
        ensures
            final(self).wf(),
            final(self).chunk_size == old(self).chunk_size,
            final(self).chunk_count == old(self).chunk_count,
            old(self).matrix.rank <= final(self).matrix.rank <= old(self).matrix.rank + 1,
            final(self).matrix.rank <= final(self).chunk_count,
            // dimension checks
            packet.cv().len() != old(self).chunk_count ==> r == Result::<
                Option<Vec<u8>>,
                RLNCError,
            >::Err(
                RLNCError::InvalidCodingVectorLength(
                    packet.cv().len() as usize,
                    old(self).chunk_count,
                ),
            ) && *final(self) == *old(self),
            packet.cv().len() == old(self).chunk_count && packet.dv().len() != old(self).matrix.symbol_count ==> r == Result::<Option<Vec<u8>>, RLNCError>::Err(
                RLNCError::ChunkSizeMismatch(
                    packet.dv().len() as usize,
                    old(self).matrix.symbol_count,
                ),
            ) && *final(self) == *old(self),
            // a dependent packet changes nothing
            packet.cv().len() == old(self).chunk_count && packet.dv().len() == old(self).matrix.symbol_count && !has_lead(reduced_cv(old(self).matrix, packet)) ==> final(self).matrix == old(self).matrix,
            // an independent packet is accepted
            packet.cv().len() == old(self).chunk_count && packet.dv().len() == old(self).matrix.symbol_count ==> forall|c: int|
                is_lead(reduced_cv(old(self).matrix, packet), c) ==> accepted_state(
                    old(self).matrix,
                    final(self).matrix,
                    reduced_cv(old(self).matrix, packet),
                    reduced_dv(old(self).matrix, packet),
                    c,
                ),
            // the payload is returned exactly when the rank is full and the
            // reconstruction carries a boundary marker
            packet.cv().len() == old(self).chunk_count && packet.dv().len() == old(self).matrix.symbol_count && final(self).matrix.rank < final(self).chunk_count ==> r
                == Result::<Option<Vec<u8>>, RLNCError>::Ok(None),
            packet.cv().len() == old(self).chunk_count && packet.dv().len() == old(self).matrix.symbol_count && final(self).matrix.rank == final(self).chunk_count ==> {
                let full = full_bytes(final(self).matrix);
                &&& (r is Ok <==> exists|k: int|
                    0 <= k < full.len() && full[k] == BOUNDARY_MARKER)
                &&& (r is Ok ==> r.unwrap() is Some)
                &&& (r is Ok ==> forall|p: int|
                    is_last_marker(full, p) ==> r.unwrap().unwrap()@ == full.take(p))
                &&& (!(exists|k: int| 0 <= k < full.len() && full[k] == BOUNDARY_MARKER) ==> r
                    == Result::<Option<Vec<u8>>, RLNCError>::Err(RLNCError::InvalidEncoding))
            },
    {
        if packet.coding_vector.len() != self.chunk_count {
            return Err(
                RLNCError::InvalidCodingVectorLength(
                    packet.coding_vector.len(),
                    self.chunk_count,
                ),
            );
        }
        if packet.data.len() != self.matrix.symbol_count {
            return Err(RLNCError::ChunkSizeMismatch(packet.data.len(), self.matrix.symbol_count));
        }
        self.matrix.push_rref(packet);
        if self.matrix.can_decode() {
            match self.matrix.decode() {
                Ok(bytes) => Ok(Some(bytes)),
                Err(e) => {
                    proof {
                        assert(e == RLNCError::InvalidEncoding);
                    }
                    Err(e)
                },
            }
        } else {
            Ok(None)
        }
    }

    /// Returns the number of linearly independent packets received.
    pub fn rank(&self) -> (r: usize)
        ensures
            r == self.matrix.rank,
    {
        self.matrix.rank()
    }

    /// Returns true if the decoder has reconstructed, or can reconstruct,
    /// the original data: the rank equals the generation size.
    pub fn can_decode(&self) -> (r: bool)
        requires
            self.wf(),
        ensures
            r == (self.matrix.rank >= self.chunk_count),
    {
        self.matrix.can_decode()
    }
}

/// The decoder reconstructs the payload exactly. Once a decoder over the
/// prepared chunks of a payload reaches full rank while staying consistent
/// with them — which `lemma_push_preserves_consistency` guarantees when every
/// inbound packet is a linear combination of the chunks, as the encoder's
/// contract states — the reconstructed stream is the padded payload, its last
/// boundary marker sits at the end of the payload, and `decode`'s result on
/// the completing call is therefore exactly the original data.
pub proof fn lemma_decoder_reconstructs<F: Field>(d: Decoder<F>, ch: Chunks<F>, data: Seq<u8>)
    requires
        d.wf(),
        ch.wf(),
        d.chunk_size == ch.chunk_size,
        ch.prepares(data, d.chunk_count as nat),
        consistent(d.matrix, ch.inner@),
        d.matrix.rank == d.chunk_count,
    ensures
        full_bytes(d.matrix) == crate::chunks::spec_padded(
            data,
            (ch.chunk_size * d.chunk_count) as nat,
        ),
        is_last_marker(full_bytes(d.matrix), data.len() as int),
        full_bytes(d.matrix).take(data.len() as int) == data,
{
    lemma_full_rank_payload(d.matrix, ch, data, d.chunk_count as nat);
}

} // verus!
