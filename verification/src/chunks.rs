//! Preparing a payload for encoding: the boundary marker, zero padding, the
//! split into equally sized chunks, and the packing of each chunk into field
//! symbols.

use vstd::prelude::*;

use crate::field::{le_nat, Field};
use crate::packet::{all_wf, vals};
use crate::BOUNDARY_MARKER;

verus! {

/// The ceiling of `a / b`.
pub open spec fn div_ceil_spec(a: nat, b: nat) -> nat
    recommends
        b > 0,
{
    ((a + b - 1) as nat) / b
}

/// The chunk size chosen for a payload of `data_len` bytes split into
/// `chunk_count` chunks over a field that packs `cap` bytes per symbol: room
/// for the payload plus the boundary marker, rounded up to a multiple of
/// `cap`.
pub open spec fn spec_chunk_size(data_len: nat, chunk_count: nat, cap: nat) -> nat {
    div_ceil_spec(div_ceil_spec(data_len + 1, chunk_count), cap) * cap
}

/// The payload followed by the boundary marker and zero padding, `total` bytes
/// in all.
pub open spec fn spec_padded(data: Seq<u8>, total: nat) -> Seq<u8> {
    data + seq![BOUNDARY_MARKER] + Seq::new((total - data.len() - 1) as nat, |i: int| 0u8)
}

/// The byte group that symbol `k` of a chunk of `len` bytes packs: `cap`
/// bytes, fewer for the final group of a chunk that `cap` does not divide.
pub open spec fn spec_group(bytes: Seq<u8>, cap: nat, k: int) -> Seq<u8> {
    bytes.subrange(
        k * cap,
        if (k + 1) * cap <= bytes.len() {
            (k + 1) * cap
        } else {
            bytes.len() as int
        },
    )
}

/// Errors that can occur when preparing chunks.
#[derive(Debug, Clone, Copy, PartialEq, Eq, Structural)]
pub enum ChunksError {
    /// The data is empty.
    EmptyData,
    /// The chunk count is zero.
    ZeroChunkCount,
    /// The chunk size is zero.
    ZeroChunkSize,
}

/// A chunk of data, packed into field symbols.
#[derive(Debug, Clone)]
pub struct Chunk<F: Field> {
    /// The symbols of the chunk.
    pub symbols: Vec<F>,
    /// The size of the chunk in bytes.
    pub size: usize,
}

/// Copies the byte range `[from, to)` of a slice into a fresh vector.
pub(crate) fn copy_byte_range(bytes: &[u8], from: usize, to: usize) -> (r: Vec<u8>)
    requires
        from <= to <= bytes@.len(),
    ensures
        r@ == bytes@.subrange(from as int, to as int),
{
    let mut v: Vec<u8> = Vec::new();
    let mut i: usize = from;
    while i < to
        invariant
            from <= i <= to <= bytes@.len(),
            v@.len() == i - from,
            forall|j: int| 0 <= j < v@.len() ==> v@[j] == bytes@[from + j],
        decreases to - i,
    {
        v.push(bytes[i]);
        i = i + 1;
    }
    proof {
        assert(v@ =~= bytes@.subrange(from as int, to as int));
    }
    v
}

impl<F: Field> Chunk<F> {
    /// The model values of the chunk's symbols.
    pub open spec fn sym_vals(self) -> Seq<nat> {
        vals(self.symbols@)
    }

    /// The chunk is a faithful packing of the byte string `bytes`.
    pub open spec fn packs(self, bytes: Seq<u8>) -> bool {
        &&& self.size == bytes.len()
        &&& all_wf(self.symbols@)
        &&& self.symbols@.len() == div_ceil_spec(bytes.len(), F::spec_cap())
        &&& forall|k: int|
            0 <= k < self.symbols@.len() ==> self.sym_vals()[k] == le_nat(
                #[trigger] spec_group(bytes, F::spec_cap(), k),
            )
    }

    /// Creates a new chunk from a slice of bytes: each group of
    /// `safe_capacity` bytes becomes one symbol, little-endian.
    pub fn from_bytes(bytes: &[u8]) -> (r: Self)
        requires
            bytes@.len() + F::spec_cap() <= usize::MAX,
        ensures
            r.packs(bytes@),
    {
        let cap = F::safe_capacity();
        let len = bytes.len();
        let count = if len == 0 {
            0
        } else {
            (len + cap - 1) / cap
        };
        proof {
            if len > 0 {
                assert(count == div_ceil_spec(bytes@.len(), F::spec_cap()));
                lemma_div_ceil_mul_bound(len as nat, cap as nat);
            } else {
                assert(div_ceil_spec(0, F::spec_cap()) == 0) by {
                    assert(((F::spec_cap() - 1) as nat) / F::spec_cap() == 0) by (nonlinear_arith)
                        requires
                            F::spec_cap() >= 1,
                    ;
                }
            }
        }
        let mut symbols: Vec<F> = Vec::new();
        let mut k: usize = 0;
        while k < count
            invariant
                k <= count,
                count == div_ceil_spec(bytes@.len(), F::spec_cap()),
                F::spec_cap() >= 1,
                cap == F::spec_cap(),
                len == bytes@.len(),
                len + cap <= usize::MAX,
                count * cap < len + cap,
                symbols@.len() == k,
                all_wf(symbols@),
                forall|j: int|
                    0 <= j < k ==> vals(symbols@)[j] == le_nat(
                        #[trigger] spec_group(bytes@, F::spec_cap(), j),
                    ),
            decreases count - k,
        {
            proof {
                assert((k + 1) * cap == k * cap + cap) by (nonlinear_arith);
                assert(k * cap < len) by (nonlinear_arith)
                    requires
                        k < count,
                        cap >= 1,
                        count * cap < len + cap,
                ;
            }
            let from = k * cap;
            let to = if from + cap <= len {
                from + cap
            } else {
                len
            };
            let group = copy_byte_range(bytes, from, to);
            let sym = F::from_bytes(group.as_slice());
            let ghost prev = symbols@;
            symbols.push(sym);
            proof {
                assert(group@ == spec_group(bytes@, F::spec_cap(), k as int));
                assert(group@.len() <= F::spec_cap());
                assert forall|j: int| 0 <= j < k + 1 implies vals(symbols@)[j] == le_nat(
                    #[trigger] spec_group(bytes@, F::spec_cap(), j),
                ) by {
                    if j < k {
                        assert(symbols@[j] == prev[j]);
                        assert(vals(prev)[j] == le_nat(spec_group(bytes@, F::spec_cap(), j)));
                    } else {
                        assert(symbols@[j] == sym);
                    }
                }
                assert(all_wf(symbols@)) by {
                    assert(forall|j: int|
                        0 <= j < k ==> symbols@[j] == prev[j] && (#[trigger] prev[j]).wf());
                }
            }
            k = k + 1;
        }
        Self { symbols, size: len }
    }

    /// Returns the symbols of the chunk.
    pub fn symbols(&self) -> (r: &Vec<F>)
        ensures
            r == &self.symbols,
    {
        &self.symbols
    }

    /// Returns the size of the chunk in bytes.
    pub fn size(&self) -> (r: usize)
        ensures
            r == self.size,
    {
        self.size
    }
}

/// A collection of equally sized, prepared chunks of data, ready to be
/// encoded: the payload with its boundary marker and padding, split and
/// packed into field symbols.
#[derive(Debug)]
pub struct Chunks<F: Field> {
    /// The chunks.
    pub inner: Vec<Chunk<F>>,
    /// The size of each chunk in bytes.
    pub chunk_size: usize,
}

impl<F: Field> Chunks<F> {
    /// The collection is consistent: at least one chunk, a chunk size that
    /// is a positive multiple of the field's byte capacity, and every chunk
    /// packed into well-formed symbols, one per capacity-sized group.
    pub open spec fn wf(self) -> bool {
        &&& self.inner@.len() >= 1
        &&& self.chunk_size >= F::spec_cap()
        &&& self.chunk_size as nat % F::spec_cap() == 0
        &&& self.chunk_size + F::spec_cap() <= usize::MAX
        &&& forall|i: int|
            0 <= i < self.inner@.len() ==> {
                &&& (#[trigger] self.inner@[i]).symbols@.len() == div_ceil_spec(
                    self.chunk_size as nat,
                    F::spec_cap(),
                )
                &&& all_wf(self.inner@[i].symbols@)
                &&& self.inner@[i].size == self.chunk_size
            }
    }

    /// The chunks hold, in order, the packing of the padded form of `data`
    /// split into `count` chunks.
    pub open spec fn prepares(self, data: Seq<u8>, count: nat) -> bool {
        let cs = spec_chunk_size(data.len(), count, F::spec_cap());
        let padded = spec_padded(data, cs * count);
        &&& self.chunk_size == cs
        &&& self.inner@.len() == count
        &&& forall|i: int|
            0 <= i < count ==> (#[trigger] self.inner@[i]).packs(
                padded.subrange(i * cs, (i + 1) * cs),
            )
    }

    /// Splits `data` into `chunk_count` equally sized chunks: the boundary
    /// marker is appended, the result zero-padded to a multiple of the chunk
    /// size, and every chunk packed into field symbols.
    pub fn new(data: &[u8], chunk_count: usize) -> (r: Result<Self, ChunksError>)
        requires
            data@.len() + 1 + F::spec_cap() * (chunk_count + 1) <= usize::MAX,
        ensures
            r is Ok <==> data@.len() > 0 && chunk_count > 0,
            data@.len() == 0 <==> r == Result::<Self, ChunksError>::Err(ChunksError::EmptyData),
            data@.len() > 0 && chunk_count == 0 <==> r == Result::<Self, ChunksError>::Err(
                ChunksError::ZeroChunkCount,
            ),
            r is Ok ==> r.unwrap().prepares(data@, chunk_count as nat) && r.unwrap().wf(),
    {
        if data.len() == 0 {
            return Err(ChunksError::EmptyData);
        }
        if chunk_count == 0 {
            return Err(ChunksError::ZeroChunkCount);
        }
        let cap = F::safe_capacity();
        let marked_len = data.len() + 1;
        proof {
            assert(chunk_count <= cap * (chunk_count + 1)) by (nonlinear_arith)
                requires
                    cap >= 1,
                    chunk_count >= 1,
            ;
        }
        let cs0 = (marked_len + chunk_count - 1) / chunk_count;
        proof {
            lemma_div_ceil_mul_bound(marked_len as nat, chunk_count as nat);
            assert(cs0 == div_ceil_spec(marked_len as nat, chunk_count as nat));
            assert(cs0 <= marked_len) by (nonlinear_arith)
                requires
                    cs0 * chunk_count <= marked_len + chunk_count - 1,
                    chunk_count >= 1,
                    cs0 >= 0,
            ;
            assert(cap <= cap * (chunk_count + 1)) by (nonlinear_arith)
                requires
                    cap >= 1,
                    chunk_count >= 1,
            ;
        }
        let scount = (cs0 + cap - 1) / cap;
        proof {
            lemma_div_ceil_mul_bound(cs0 as nat, cap as nat);
            lemma_chunks_fit(
                marked_len as nat,
                chunk_count as nat,
                cap as nat,
                cs0 as nat,
                scount as nat,
            );
        }
        let cs = scount * cap;
        let padded_len = cs * chunk_count;
        let ghost padded_spec = spec_padded(data@, padded_len as nat);
        let mut padded: Vec<u8> = copy_byte_range(data, 0, data.len());
        padded.push(BOUNDARY_MARKER);
        proof {
            assert(data@.subrange(0, data@.len() as int) =~= data@);
            assert(marked_len <= padded_len) by (nonlinear_arith)
                requires
                    cs0 * chunk_count >= marked_len,
                    scount * cap >= cs0,
                    cs == scount * cap,
                    padded_len == cs * chunk_count,
                    chunk_count >= 1,
            ;
        }
        while padded.len() < padded_len
            invariant
                marked_len <= padded.len() <= padded_len,
                padded@.len() >= marked_len,
                padded@.subrange(0, marked_len as int) == data@ + seq![BOUNDARY_MARKER],
                forall|j: int| marked_len <= j < padded@.len() ==> padded@[j] == 0,
            decreases padded_len - padded.len(),
        {
            let ghost prev = padded@;
            padded.push(0);
            proof {
                assert(padded@.subrange(0, marked_len as int) =~= prev.subrange(
                    0,
                    marked_len as int,
                ));
            }
        }
        proof {
            assert(padded@ =~= padded_spec);
        }
        let mut inner: Vec<Chunk<F>> = Vec::new();
        let mut i: usize = 0;
        while i < chunk_count
            invariant
                i <= chunk_count,
                chunk_count >= 1,
                cap == F::spec_cap(),
                cs == spec_chunk_size(data@.len(), chunk_count as nat, F::spec_cap()),
                padded_len == cs * chunk_count,
                padded@ == padded_spec,
                padded@.len() == padded_len,
                padded_len + cap <= usize::MAX,
                inner@.len() == i,
                forall|j: int|
                    0 <= j < i ==> (#[trigger] inner@[j]).packs(
                        padded_spec.subrange(j * cs, (j + 1) * cs),
                    ),
            decreases chunk_count - i,
        {
            proof {
                assert((i + 1) * cs == i * cs + cs) by (nonlinear_arith);
                assert((i + 1) * cs <= padded_len) by (nonlinear_arith)
                    requires
                        i < chunk_count,
                        padded_len == cs * chunk_count,
                ;
            }
            let from = i * cs;
            let to = from + cs;
            let bytes = copy_byte_range(padded.as_slice(), from, to);
            let chunk = Chunk::<F>::from_bytes(bytes.as_slice());
            let ghost prev = inner@;
            inner.push(chunk);
            proof {
                assert forall|j: int| 0 <= j < i + 1 implies (#[trigger] inner@[j]).packs(
                    padded_spec.subrange(j * cs, (j + 1) * cs),
                ) by {
                    if j < i {
                        assert(inner@[j] == prev[j]);
                        assert(prev[j].packs(padded_spec.subrange(j * cs, (j + 1) * cs)));
                    } else {
                        assert(inner@[j] == chunk);
                        assert(bytes@ == padded_spec.subrange(j * cs, (j + 1) * cs));
                    }
                }
            }
            i = i + 1;
        }
        let result = Self { inner, chunk_size: cs };
        proof {
            assert(result.wf()) by {
                vstd::arithmetic::div_mod::lemma_mod_multiples_basic(
                    scount as int,
                    cap as int,
                );
                assert(cs >= cap) by (nonlinear_arith)
                    requires
                        scount >= 1,
                        cap >= 1,
                        cs == scount * cap,
                ;
                assert(cs % cap == 0);
                assert(cs <= cs * chunk_count) by (nonlinear_arith)
                    requires
                        chunk_count >= 1,
                        cs >= 0,
                ;
                assert forall|j: int| 0 <= j < result.inner@.len() implies {
                    &&& (#[trigger] result.inner@[j]).symbols@.len() == div_ceil_spec(
                        result.chunk_size as nat,
                        F::spec_cap(),
                    )
                    &&& all_wf(result.inner@[j].symbols@)
                    &&& result.inner@[j].size == result.chunk_size
                } by {
                    assert(0 <= j * cs) by (nonlinear_arith)
                        requires
                            j >= 0,
                            cs >= 0,
                    ;
                    assert((j + 1) * cs == j * cs + cs) by (nonlinear_arith);
                    assert((j + 1) * cs <= padded_len) by (nonlinear_arith)
                        requires
                            j < chunk_count,
                            padded_len == cs * chunk_count,
                    ;
                    assert(result.inner@[j].packs(padded_spec.subrange(j * cs, (j + 1) * cs)));
                    assert(padded_spec.subrange(j * cs, (j + 1) * cs).len() == cs);
                }
            }
        }
        Ok(result)
    }

    /// Returns the size of the chunks in bytes.
    pub fn chunk_size(&self) -> (r: usize)
        ensures
            r == self.chunk_size,
    {
        self.chunk_size
    }

    /// Returns the inner chunks.
    pub fn inner(&self) -> (r: &Vec<Chunk<F>>)
        ensures
            r == &self.inner,
    {
        &self.inner
    }

    /// Returns the number of chunks in the collection.
    pub fn len(&self) -> (r: usize)
        ensures
            r == self.inner@.len(),
    {
        self.inner.len()
    }

    /// Returns true if the collection is empty.
    pub fn is_empty(&self) -> (r: bool)
        ensures
            r == (self.inner@.len() == 0),
    {
        self.inner.len() == 0
    }
}

/// The rounded-up quotient times the divisor covers the dividend, and stays
/// below the dividend plus the divisor.
pub(crate) proof fn lemma_div_ceil_mul_bound(a: nat, b: nat)
    requires
        b >= 1,
        a >= 1,
    ensures
        div_ceil_spec(a, b) * b >= a,
        div_ceil_spec(a, b) * b <= a + b - 1,
        div_ceil_spec(a, b) >= 1,
{
    let x = (a + b - 1) as int;
    let bi = b as int;
    let q = x / bi;
    let m = x % bi;
    vstd::arithmetic::div_mod::lemma_fundamental_div_mod(x, bi);
    vstd::arithmetic::div_mod::lemma_mod_division_less_than_divisor(x, bi);
    vstd::arithmetic::div_mod::lemma_div_pos_is_pos(x, bi);
    assert(x == bi * q + m);
    assert(0 <= m < bi);
    assert(q >= 0);
    assert(div_ceil_spec(a, b) == q);
    assert(q * bi == bi * q) by (nonlinear_arith);
    vstd::arithmetic::div_mod::lemma_div_is_ordered(bi, x, bi);
    vstd::arithmetic::div_mod::lemma_div_by_self(bi);
    assert(q >= 1);
}

/// The padded length, plus one more symbol, fits in a machine word when the
/// payload, the marker and one extra symbol's worth of padding per chunk do.
proof fn lemma_chunks_fit(marked: nat, count: nat, cap: nat, cs0: nat, scount: nat)
    requires
        count >= 1,
        cap >= 1,
        marked >= 1,
        cs0 == div_ceil_spec(marked, count),
        scount == div_ceil_spec(cs0, cap),
        marked + cap * (count + 1) <= usize::MAX,
    ensures
        (scount * cap) * count + cap <= usize::MAX,
        scount * cap >= cs0,
        cs0 * count >= marked,
        scount * cap <= usize::MAX,
        cs0 >= 1,
        scount >= 1,
{
    lemma_div_ceil_mul_bound(marked, count);
    lemma_div_ceil_mul_bound(cs0, cap);
    assert((scount * cap) * count <= (cs0 + cap - 1) * count) by (nonlinear_arith)
        requires
            scount * cap <= cs0 + cap - 1,
            count >= 1,
    ;
    assert((cs0 + cap - 1) * count == cs0 * count + (cap - 1) * count) by (nonlinear_arith)
        requires
            cap >= 1,
            count >= 1,
            cs0 >= 1,
    ;
    assert(cs0 * count <= marked + count - 1);
    assert((cap - 1) * count == cap * count - count) by (nonlinear_arith);
    assert(cap * (count + 1) == cap * count + cap) by (nonlinear_arith);
    assert((scount * cap) * count + cap <= marked + count - 1 + cap * count - count + cap);
    assert(scount * cap <= (scount * cap) * count) by (nonlinear_arith)
        requires
            count >= 1,
            scount >= 1,
            cap >= 1,
    ;
}

} // verus!
