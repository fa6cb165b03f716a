//! The RLNC encoder: emits coded packets, each a linear combination of the
//! prepared chunks under a caller-supplied coding vector.

use vstd::prelude::*;

use crate::chunks::{div_ceil_spec, spec_group, Chunk, Chunks, ChunksError};
use crate::common::RLNCError;
use crate::field::{le_nat, Field};
use crate::packet::{all_wf, vals, RLNCPacket};

verus! {

/// The linear combination, at symbol position `j`, of the first `upto`
/// chunks weighted by the matching coefficients: the field sum of
/// `coeffs[i] * chunks[i].symbols[j]`.
pub open spec fn lincomb_at<F: Field>(
    chunks: Seq<Chunk<F>>,
    coeffs: Seq<nat>,
    j: int,
    upto: int,
) -> nat
    decreases upto,
{
    if upto <= 0 {
        0
    } else {
        F::fadd(
            lincomb_at(chunks, coeffs, j, upto - 1),
            F::fmul(coeffs[upto - 1], chunks[upto - 1].sym_vals()[j]),
        )
    }
}

/// The shape hypothesis the linearity lemmas need: every coefficient and
/// every chunk symbol at position `j` is a field element.
pub open spec fn lincomb_args_ok<F: Field>(chunks: Seq<Chunk<F>>, coeffs: Seq<nat>, j: int) -> bool {
    &&& forall|i: int| 0 <= i < coeffs.len() ==> F::in_range(#[trigger] coeffs[i])
    &&& forall|i: int|
        0 <= i < chunks.len() ==> 0 <= j < (#[trigger] chunks[i]).sym_vals().len() && F::in_range(
            chunks[i].sym_vals()[j],
        )
}

/// A linear combination of field elements is a field element.
pub proof fn lemma_lincomb_in_range<F: Field>(
    chunks: Seq<Chunk<F>>,
    coeffs: Seq<nat>,
    j: int,
    upto: int,
)
    requires
        upto <= coeffs.len(),
        upto <= chunks.len(),
        lincomb_args_ok(chunks, coeffs, j),
    ensures
        F::in_range(lincomb_at::<F>(chunks, coeffs, j, upto)),
    decreases upto,
{
    F::constants_in_range();
    if upto > 0 {
        lemma_lincomb_in_range::<F>(chunks, coeffs, j, upto - 1);
        F::ops_in_range(coeffs[upto - 1], chunks[upto - 1].sym_vals()[j]);
        F::ops_in_range(
            lincomb_at::<F>(chunks, coeffs, j, upto - 1),
            F::fmul(coeffs[upto - 1], chunks[upto - 1].sym_vals()[j]),
        );
    }
}

/// The linear combination is linear in the coefficient vector: scaling the
/// coefficients scales the combination.
pub proof fn lemma_lincomb_scaled<F: Field>(
    chunks: Seq<Chunk<F>>,
    x: Seq<nat>,
    k: nat,
    j: int,
    upto: int,
)
    requires
        upto <= x.len(),
        upto <= chunks.len(),
        F::in_range(k),
        lincomb_args_ok(chunks, x, j),
    ensures
        lincomb_at::<F>(chunks, crate::packet::scaled::<F>(k, x), j, upto) == F::fmul(
            k,
            lincomb_at::<F>(chunks, x, j, upto),
        ),
    decreases upto,
{
    F::constants_in_range();
    if upto <= 0 {
        F::mul_zero(k);
    } else {
        lemma_lincomb_scaled::<F>(chunks, x, k, j, upto - 1);
        lemma_lincomb_in_range::<F>(chunks, x, j, upto - 1);
        let xk = x[upto - 1];
        let s = chunks[upto - 1].sym_vals()[j];
        let prior = lincomb_at::<F>(chunks, x, j, upto - 1);
        F::ops_in_range(xk, s);
        F::mul_distrib(k, prior, F::fmul(xk, s));
        F::mul_assoc(k, xk, s);
    }
}

/// The linear combination is linear in the coefficient vector: subtracting a
/// multiple of one coefficient vector from another subtracts that multiple of
/// the combinations.
pub proof fn lemma_lincomb_sub_scaled<F: Field>(
    chunks: Seq<Chunk<F>>,
    x: Seq<nat>,
    y: Seq<nat>,
    a: nat,
    j: int,
    upto: int,
)
    requires
        upto <= x.len(),
        x.len() == y.len(),
        upto <= chunks.len(),
        F::in_range(a),
        lincomb_args_ok(chunks, x, j),
        lincomb_args_ok(chunks, y, j),
    ensures
        lincomb_at::<F>(chunks, crate::packet::sub_scaled::<F>(x, y, a), j, upto) == F::fsub(
            lincomb_at::<F>(chunks, x, j, upto),
            F::fmul(a, lincomb_at::<F>(chunks, y, j, upto)),
        ),
    decreases upto,
{
    F::constants_in_range();
    if upto <= 0 {
        F::mul_zero(a);
        F::sub_self(0);
    } else {
        lemma_lincomb_sub_scaled::<F>(chunks, x, y, a, j, upto - 1);
        lemma_lincomb_in_range::<F>(chunks, x, j, upto - 1);
        lemma_lincomb_in_range::<F>(chunks, y, j, upto - 1);
        let xk = x[upto - 1];
        let yk = y[upto - 1];
        let s = chunks[upto - 1].sym_vals()[j];
        let xp = lincomb_at::<F>(chunks, x, j, upto - 1);
        let yp = lincomb_at::<F>(chunks, y, j, upto - 1);
        let zk = crate::packet::sub_scaled::<F>(x, y, a)[upto - 1];
        assert(zk == F::fsub(xk, F::fmul(a, yk)));
        F::ops_in_range(a, yk);
        F::ops_in_range(xk, F::fmul(a, yk));
        F::ops_in_range(xk, s);
        F::ops_in_range(yk, s);
        F::ops_in_range(a, yp);
        // (xk - a*yk) * s == xk*s - a*(yk*s)
        assert(F::fmul(zk, s) == F::fsub(F::fmul(xk, s), F::fmul(a, F::fmul(yk, s)))) by {
            F::mul_comm(zk, s);
            crate::field::lemma_mul_sub::<F>(s, xk, F::fmul(a, yk));
            F::mul_comm(s, xk);
            F::mul_comm(s, F::fmul(a, yk));
            F::mul_assoc(a, yk, s);
        }
        // regroup: (xp - a*yp) + (xk*s - a*(yk*s)) == (xp + xk*s) - (a*yp + a*(yk*s))
        F::ops_in_range(yk, s);
        F::ops_in_range(a, F::fmul(yk, s));
        crate::field::lemma_sub_add_shuffle::<F>(
            xp,
            F::fmul(a, yp),
            F::fmul(xk, s),
            F::fmul(a, F::fmul(yk, s)),
        );
        // a*yp + a*(yk*s) == a*(yp + yk*s)
        F::mul_distrib(a, yp, F::fmul(yk, s));
    }
}

/// A coefficient vector that is one at `c` and zero elsewhere selects chunk
/// `c` from the linear combination.
pub proof fn lemma_lincomb_unit<F: Field>(
    chunks: Seq<Chunk<F>>,
    x: Seq<nat>,
    c: int,
    j: int,
    upto: int,
)
    requires
        upto <= x.len(),
        upto <= chunks.len(),
        0 <= c < x.len(),
        x[c] == 1,
        forall|i: int| 0 <= i < x.len() && i != c ==> x[i] == 0,
        lincomb_args_ok(chunks, x, j),
    ensures
        c < upto ==> lincomb_at::<F>(chunks, x, j, upto) == chunks[c].sym_vals()[j],
        c >= upto ==> lincomb_at::<F>(chunks, x, j, upto) == 0,
    decreases upto,
{
    F::constants_in_range();
    if upto > 0 {
        lemma_lincomb_unit::<F>(chunks, x, c, j, upto - 1);
        let s = chunks[upto - 1].sym_vals()[j];
        let prior = lincomb_at::<F>(chunks, x, j, upto - 1);
        if c == upto - 1 {
            F::mul_one(s);
            F::add_zero(s);
        } else {
            F::mul_zero(s);
            lemma_lincomb_in_range::<F>(chunks, x, j, upto - 1);
            F::add_zero(prior);
        }
    }
}

/// RLNC encoder. An encoder is instantiated per piece of data, then used to
/// generate coded packets.
#[derive(Debug)]
pub struct Encoder<F: Field> {
    /// The chunks of data to be encoded.
    pub chunks: Chunks<F>,
    /// The number of chunks (also known as the generation size).
    pub chunk_count: usize,
    /// The size of each chunk in bytes.
    pub chunk_size: usize,
}

impl<F: Field> Encoder<F> {
    /// The encoder's bookkeeping matches its chunks.
    pub open spec fn wf(self) -> bool {
        &&& self.chunks.wf()
        &&& self.chunk_count == self.chunks.inner@.len()
        &&& self.chunk_size == self.chunks.chunk_size
    }

    /// The number of symbols in each chunk, and so in each coded packet's
    /// data vector.
    pub open spec fn spec_symbol_count(self) -> nat {
        div_ceil_spec(self.chunk_size as nat, F::spec_cap())
    }

    /// Creates a new encoder for the given data and chunk count.
    pub fn new(data: &[u8], chunk_count: usize) -> (r: Result<Self, RLNCError>)
        requires
            data@.len() + 1 + F::spec_cap() * (chunk_count + 1) <= usize::MAX,
        ensures
            r is Ok <==> data@.len() > 0 && chunk_count > 0,
            data@.len() == 0 <==> r == Result::<Self, RLNCError>::Err(RLNCError::EmptyData),
            data@.len() > 0 && chunk_count == 0 <==> r == Result::<Self, RLNCError>::Err(
                RLNCError::ZeroChunkCount,
            ),
            r is Ok ==> {
                let e = r.unwrap();
                &&& e.wf()
                &&& e.chunk_count == chunk_count
                &&& e.chunks.prepares(data@, chunk_count as nat)
                &&& e.chunk_size == crate::chunks::spec_chunk_size(
                    data@.len(),
                    chunk_count as nat,
                    F::spec_cap(),
                )
            },
    {
        let chunks = Self::prepare(data, chunk_count)?;
        let chunk_count = chunks.len();
        let chunk_size = chunks.chunk_size();
        Ok(Self { chunks, chunk_count, chunk_size })
    }

    /// Creates a new encoder from an already prepared collection of chunks.
    pub fn from_chunks(chunks: Chunks<F>) -> (r: Self)
        requires
            chunks.wf(),
        ensures
            r.wf(),
            r.chunks == chunks,
            r.chunk_count == chunks.inner@.len(),
            r.chunk_size == chunks.chunk_size,
    {
        let chunk_count = chunks.len();
        let chunk_size = chunks.chunk_size();
        Self { chunks, chunk_count, chunk_size }
    }

    /// Returns the number of chunks in the encoder.
    pub fn chunk_count(&self) -> (r: usize)
        ensures
            r == self.chunk_count,
    {
        self.chunk_count
    }

    /// Returns the size of each chunk in the encoder.
    pub fn chunk_size(&self) -> (r: usize)
        ensures
            r == self.chunk_size,
    {
        self.chunk_size
    }

    /// Prepares the data for encoding: splits it into equally sized, padded
    /// chunks of field symbols.
    pub fn prepare(data: &[u8], chunk_count: usize) -> (r: Result<Chunks<F>, RLNCError>)
        requires
            data@.len() + 1 + F::spec_cap() * (chunk_count + 1) <= usize::MAX,
        ensures
            r is Ok <==> data@.len() > 0 && chunk_count > 0,
            data@.len() == 0 <==> r == Result::<Chunks<F>, RLNCError>::Err(RLNCError::EmptyData),
            data@.len() > 0 && chunk_count == 0 <==> r == Result::<Chunks<F>, RLNCError>::Err(
                RLNCError::ZeroChunkCount,
            ),
            r is Ok ==> r.unwrap().prepares(data@, chunk_count as nat) && r.unwrap().wf()
                && r.unwrap().inner@.len() == chunk_count,
    {
        match Chunks::new(data, chunk_count) {
            Ok(chunks) => Ok(chunks),
            Err(ChunksError::EmptyData) => Err(RLNCError::EmptyData),
            Err(ChunksError::ZeroChunkCount) => Err(RLNCError::ZeroChunkCount),
            Err(ChunksError::ZeroChunkSize) => Err(RLNCError::ZeroChunkSize),
        }
    }

    /// Computes the coded data vector for the given coding vector: the
    /// coefficient-weighted field sum of the chunk symbol vectors. Chunks
    /// whose coefficient is zero are skipped.
    fn encode_inner(&self, coding_vector: &Vec<F>) -> (r: Vec<F>)
        requires
            self.wf(),
            all_wf(coding_vector@),
            coding_vector@.len() == self.chunk_count,
        ensures
            all_wf(r@),
            r@.len() == self.spec_symbol_count(),
            forall|j: int|
                0 <= j < r@.len() ==> vals(r@)[j] == lincomb_at::<F>(
                    self.chunks.inner@,
                    vals(coding_vector@),
                    j,
                    self.chunk_count as int,
                ),
    {
        let cap = F::safe_capacity();
        let symbol_count = if self.chunk_size == 0 {
            0
        } else {
            (self.chunk_size + cap - 1) / cap
        };
        proof {
            assert(self.chunk_size >= 1);
            assert(symbol_count == self.spec_symbol_count());
        }
        let mut result: Vec<F> = Vec::new();
        let mut j: usize = 0;
        while j < symbol_count
            invariant
                j <= symbol_count,
                result@.len() == j,
                all_wf(result@),
                forall|t: int| 0 <= t < j ==> vals(result@)[t] == 0,
            decreases symbol_count - j,
        {
            let ghost prev = result@;
            let z = F::zero();
            result.push(z);
            proof {
                assert forall|t: int| 0 <= t < j + 1 implies vals(result@)[t] == 0 by {
                    if t < j {
                        assert(result@[t] == prev[t]);
                        assert(vals(prev)[t] == 0);
                    } else {
                        assert(result@[t] == z);
                    }
                }
                assert(all_wf(result@)) by {
                    assert(forall|t: int|
                        0 <= t < j ==> result@[t] == prev[t] && (#[trigger] prev[t]).wf());
                }
            }
            j = j + 1;
        }
        let mut i: usize = 0;
        let n = self.chunk_count;
        while i < n
            invariant
                i <= n,
                n == self.chunk_count,
                self.wf(),
                all_wf(coding_vector@),
                coding_vector@.len() == n,
                result@.len() == self.spec_symbol_count(),
                all_wf(result@),
                forall|t: int|
                    0 <= t < result@.len() ==> vals(result@)[t] == lincomb_at::<F>(
                        self.chunks.inner@,
                        vals(coding_vector@),
                        t,
                        i as int,
                    ),
            decreases n - i,
        {
            let coefficient = coding_vector[i];
            let ghost cvals = vals(coding_vector@);
            proof {
                lemma_all_wf_sym(self.chunks.inner@, i as int);
                crate::packet::lemma_all_wf_in_range(coding_vector@);
            }
            if coefficient.is_zero() {
                proof {
                    assert forall|t: int| 0 <= t < result@.len() implies vals(result@)[t]
                        == lincomb_at::<F>(
                        self.chunks.inner@,
                        cvals,
                        t,
                        i + 1,
                    ) by {
                        let prev_val = lincomb_at::<F>(self.chunks.inner@, cvals, t, i as int);
                        let sym = self.chunks.inner@[i as int].sym_vals()[t];
                        assert(self.chunks.inner@[i as int].symbols@[t].wf());
                        self.chunks.inner@[i as int].symbols@[t].wf_in_range();
                        F::mul_zero(sym);
                        lemma_encoder_lincomb_in_range(self, cvals, t, i as int);
                        F::add_zero(prev_val);
                    }
                }
            } else {
                let chunk = &self.chunks.inner[i];
                let ghost before = result@;
                let mut t: usize = 0;
                let m = result.len();
                while t < m
                    invariant
                        t <= m,
                        m == before.len(),
                        result@.len() == m,
                        coefficient.wf(),
                        coefficient == coding_vector@[i as int],
                        0 <= i < self.chunks.inner@.len(),
                        self.wf(),
                        chunk == &self.chunks.inner@[i as int],
                        chunk.symbols@.len() == m,
                        all_wf(chunk.symbols@),
                        all_wf(before),
                        all_wf(result@),
                        forall|u: int| t <= u < m ==> result@[u] == before[u],
                        forall|u: int|
                            0 <= u < t ==> vals(result@)[u] == F::fadd(
                                vals(before)[u],
                                F::fmul(coefficient.val(), chunk.sym_vals()[u]),
                            ),
                    decreases m - t,
                {
                    let ghost prev = result@;
                    let x = result[t].add(coefficient.mul(chunk.symbols[t]));
                    result.set(t, x);
                    proof {
                        assert forall|u: int| 0 <= u < t + 1 implies vals(result@)[u] == F::fadd(
                            vals(before)[u],
                            F::fmul(coefficient.val(), chunk.sym_vals()[u]),
                        ) by {
                            if u < t {
                                assert(result@[u] == prev[u]);
                                assert(vals(prev)[u] == F::fadd(
                                    vals(before)[u],
                                    F::fmul(coefficient.val(), chunk.sym_vals()[u]),
                                ));
                            } else {
                                assert(result@[u] == x);
                                assert(prev[u] == before[u]);
                            }
                        }
                        assert(all_wf(result@)) by {
                            assert(forall|u: int|
                                0 <= u < m && u != t ==> result@[u] == prev[u] && (
                                #[trigger] prev[u]).wf());
                        }
                    }
                    t = t + 1;
                }
                proof {
                    assert forall|u: int| 0 <= u < result@.len() implies vals(result@)[u]
                        == lincomb_at::<F>(
                        self.chunks.inner@,
                        cvals,
                        u,
                        i + 1,
                    ) by {
                        assert(vals(before)[u] == lincomb_at::<F>(
                            self.chunks.inner@,
                            cvals,
                            u,
                            i as int,
                        ));
                        assert(cvals[i as int] == coefficient.val());
                    }
                }
            }
            i = i + 1;
        }
        result
    }

    /// Encodes the data with the given coding vector: the coded packet's
    /// data vector is the coefficient-weighted field sum of the chunks'
    /// symbol vectors.
    pub fn encode_with_vector(&self, coding_vector: &Vec<F>) -> (r: Result<
        RLNCPacket<F>,
        RLNCError,
    >)
        requires
            self.wf(),
            all_wf(coding_vector@),
        ensures
            r is Ok <==> coding_vector@.len() == self.chunk_count,
            coding_vector@.len() != self.chunk_count <==> r == Result::<
                RLNCPacket<F>,
                RLNCError,
            >::Err(RLNCError::InvalidCodingVectorLength(coding_vector@.len() as usize, self.chunk_count)),
            r is Ok ==> {
                let p = r.unwrap();
                &&& p.wf()
                &&& p.coding_vector@ == coding_vector@
                &&& p.dv().len() == self.spec_symbol_count()
                &&& forall|j: int|
                    0 <= j < p.dv().len() ==> p.dv()[j] == lincomb_at::<F>(
                        self.chunks.inner@,
                        vals(coding_vector@),
                        j,
                        self.chunk_count as int,
                    )
            },
    {
        if coding_vector.len() != self.chunk_count {
            return Err(
                RLNCError::InvalidCodingVectorLength(coding_vector.len(), self.chunk_count),
            );
        }
        let data = self.encode_inner(coding_vector);
        let mut cv: Vec<F> = Vec::new();
        let mut i: usize = 0;
        let n = coding_vector.len();
        while i < n
            invariant
                i <= n,
                n == coding_vector@.len(),
                cv@.len() == i,
                forall|j: int| 0 <= j < i ==> cv@[j] == coding_vector@[j],
            decreases n - i,
        {
            cv.push(coding_vector[i]);
            i = i + 1;
        }
        proof {
            assert(cv@ =~= coding_vector@);
        }
        Ok(RLNCPacket { coding_vector: cv, data })
    }

    /// Encodes the data with a coding vector built from caller-supplied
    /// uniform random bytes: each group of `safe_capacity` bytes becomes one
    /// coefficient, little-endian.
    pub fn encode(&self, random_bytes: &[u8]) -> (r: Result<RLNCPacket<F>, RLNCError>)
        requires
            self.wf(),
            random_bytes@.len() == self.chunk_count * F::spec_cap(),
        ensures
            r is Ok,
            r is Ok ==> {
                let p = r.unwrap();
                &&& p.wf()
                &&& p.cv().len() == self.chunk_count
                &&& forall|i: int|
                    0 <= i < p.cv().len() ==> p.cv()[i] == le_nat(
                        #[trigger] spec_group(random_bytes@, F::spec_cap(), i),
                    )
                &&& p.dv().len() == self.spec_symbol_count()
                &&& forall|j: int|
                    0 <= j < p.dv().len() ==> p.dv()[j] == lincomb_at::<F>(
                        self.chunks.inner@,
                        p.cv(),
                        j,
                        self.chunk_count as int,
                    )
            },
    {
        let cap = F::safe_capacity();
        let total = random_bytes.len();
        let mut cv: Vec<F> = Vec::new();
        let mut i: usize = 0;
        let n = self.chunk_count;
        proof {
            assert(n * cap == random_bytes@.len());
            assert(total == random_bytes@.len());
        }
        while i < n
            invariant
                i <= n,
                cap == F::spec_cap(),
                cap >= 1,
                random_bytes@.len() == n * cap,
                random_bytes@.len() <= usize::MAX,
                cv@.len() == i,
                all_wf(cv@),
                forall|j: int|
                    0 <= j < i ==> vals(cv@)[j] == le_nat(
                        #[trigger] spec_group(random_bytes@, F::spec_cap(), j),
                    ),
            decreases n - i,
        {
            proof {
                assert((i + 1) * cap == i * cap + cap) by (nonlinear_arith);
                assert((i + 1) * cap <= n * cap) by (nonlinear_arith)
                    requires
                        i < n,
                ;
            }
            let from = i * cap;
            let to = from + cap;
            let group = crate::chunks::copy_byte_range(random_bytes, from, to);
            let sym = F::from_bytes(group.as_slice());
            let ghost prev = cv@;
            cv.push(sym);
            proof {
                assert(group@ == spec_group(random_bytes@, F::spec_cap(), i as int));
                assert forall|j: int| 0 <= j < i + 1 implies vals(cv@)[j] == le_nat(
                    #[trigger] spec_group(random_bytes@, F::spec_cap(), j),
                ) by {
                    if j < i {
                        assert(cv@[j] == prev[j]);
                        assert(vals(prev)[j] == le_nat(spec_group(random_bytes@, F::spec_cap(), j)));
                    } else {
                        assert(cv@[j] == sym);
                    }
                }
                assert(all_wf(cv@)) by {
                    assert(forall|j: int|
                        0 <= j < i ==> cv@[j] == prev[j] && (#[trigger] prev[j]).wf());
                }
            }
            i = i + 1;
        }
        proof {
            assert(cv@.len() == self.chunk_count);
        }
        let r = self.encode_with_vector(&cv);
        proof {
            if r is Ok {
                assert(r.unwrap().cv() =~= vals(cv@));
            }
        }
        r
    }
}

/// The symbol values of a well-formed chunk are field elements.
proof fn lemma_all_wf_sym<F: Field>(chunks: Seq<Chunk<F>>, i: int)
    requires
        0 <= i < chunks.len(),
        all_wf(chunks[i].symbols@),
    ensures
        forall|t: int|
            0 <= t < chunks[i].sym_vals().len() ==> F::in_range(#[trigger] chunks[i].sym_vals()[t]),
{
    assert forall|t: int| 0 <= t < chunks[i].sym_vals().len() implies F::in_range(
        #[trigger] chunks[i].sym_vals()[t],
    ) by {
        chunks[i].symbols@[t].wf_in_range();
    }
}

/// A linear combination over a well-formed encoder's chunks stays in range.
proof fn lemma_encoder_lincomb_in_range<F: Field>(
    e: &Encoder<F>,
    coeffs: Seq<nat>,
    j: int,
    upto: int,
)
    requires
        e.wf(),
        0 <= upto <= coeffs.len() == e.chunk_count,
        0 <= j < e.spec_symbol_count(),
        forall|i: int| 0 <= i < coeffs.len() ==> F::in_range(#[trigger] coeffs[i]),
    ensures
        F::in_range(lincomb_at::<F>(e.chunks.inner@, coeffs, j, upto)),
    decreases upto,
{
    F::constants_in_range();
    if upto > 0 {
        lemma_encoder_lincomb_in_range(e, coeffs, j, upto - 1);
        lemma_all_wf_sym(e.chunks.inner@, upto - 1);
        F::ops_in_range(coeffs[upto - 1], e.chunks.inner@[upto - 1].sym_vals()[j]);
        F::ops_in_range(
            lincomb_at::<F>(e.chunks.inner@, coeffs, j, upto - 1),
            F::fmul(coeffs[upto - 1], e.chunks.inner@[upto - 1].sym_vals()[j]),
        );
    }
}

} // verus!
