//! The RREF matrix: online Gaussian elimination over coded packets, pivot
//! bookkeeping and rank tracking, with final extraction of the decoded bytes.

use vstd::prelude::*;

use crate::common::RLNCError;
use crate::field::{
    lemma_byte_round_trip, lemma_le_nat_inj, le_nat, nat_bytes, pow256, Field,
};
use crate::chunks::{div_ceil_spec, spec_group, spec_padded, Chunk, Chunks};
use crate::encode::{
    lemma_lincomb_scaled, lemma_lincomb_sub_scaled, lemma_lincomb_unit,
    lincomb_args_ok, lincomb_at,
};
use crate::packet::{is_lead, lemma_all_wf_in_range, scaled, sub_scaled, RLNCPacket};
use crate::BOUNDARY_MARKER;

verus! {

/// The number of occupied entries of a pivot table.
pub open spec fn count_some(s: Seq<Option<usize>>) -> nat
    decreases s.len(),
{
    if s.len() == 0 {
        0
    } else {
        count_some(s.drop_last()) + (if s.last() is Some {
            1nat
        } else {
            0nat
        })
    }
}

/// An all-empty pivot table has no occupied entries.
proof fn lemma_count_some_none(s: Seq<Option<usize>>)
    requires
        forall|i: int| 0 <= i < s.len() ==> s[i] is None,
    ensures
        count_some(s) == 0,
    decreases s.len(),
{
    if s.len() > 0 {
        lemma_count_some_none(s.drop_last());
    }
}

/// Occupying one empty entry raises the count by one.
proof fn lemma_count_some_update(s: Seq<Option<usize>>, i: int, r: usize)
    requires
        0 <= i < s.len(),
        s[i] is None,
    ensures
        count_some(s.update(i, Some(r))) == count_some(s) + 1,
    decreases s.len(),
{
    let t = s.update(i, Some(r));
    if i == s.len() - 1 {
        assert(t.drop_last() =~= s.drop_last());
    } else {
        assert(t.drop_last() =~= s.drop_last().update(i, Some(r)));
        assert(t.last() == s.last());
        lemma_count_some_update(s.drop_last(), i, r);
    }
}

/// The count never exceeds the table's length.
proof fn lemma_count_some_le(s: Seq<Option<usize>>)
    ensures
        count_some(s) <= s.len(),
    decreases s.len(),
{
    if s.len() > 0 {
        lemma_count_some_le(s.drop_last());
    }
}

/// An empty entry keeps the count strictly below the length.
proof fn lemma_count_some_lt(s: Seq<Option<usize>>, i: int)
    requires
        0 <= i < s.len(),
        s[i] is None,
    ensures
        count_some(s) < s.len(),
    decreases s.len(),
{
    if i == s.len() - 1 {
        lemma_count_some_le(s.drop_last());
    } else {
        lemma_count_some_lt(s.drop_last(), i);
    }
}

/// A table whose count equals its length is fully occupied.
proof fn lemma_count_some_full(s: Seq<Option<usize>>, i: int)
    requires
        count_some(s) == s.len(),
        0 <= i < s.len(),
    ensures
        s[i] is Some,
{
    if s[i] is None {
        lemma_count_some_lt(s, i);
    }
}

/// A RREF matrix of coded packets: the received packets are stored row by
/// row, each normalized and reduced against every other, with a table from
/// pivot column to owning row.
#[derive(Debug)]
pub struct Matrix<F: Field> {
    /// The number of original chunks: the length of every coding vector.
    pub chunk_count: usize,
    /// The number of data symbols in every row.
    pub symbol_count: usize,
    /// The received, reduced coded packets.
    pub data: Vec<RLNCPacket<F>>,
    /// Maps pivot column index to row index.
    pub pivots: Vec<Option<usize>>,
    /// The number of linearly independent coded packets received.
    pub rank: usize,
}

impl<F: Field> Matrix<F> {
    /// Row `r` has the right shape: well-formed elements, a coding vector
    /// over the chunks and a data vector over the symbols.
    pub open spec fn row_wf(self, r: int) -> bool {
        &&& self.data@[r].wf()
        &&& self.data@[r].cv().len() == self.chunk_count
        &&& self.data@[r].dv().len() == self.symbol_count
    }

    /// The reduced row-echelon invariant: the rank counts both the rows and
    /// the occupied pivot entries; every occupied pivot column holds the
    /// leading one of its row; and every other row is zero at that column.
    pub open spec fn wf(self) -> bool {
        &&& self.pivots@.len() == self.chunk_count
        &&& self.rank == self.data@.len()
        &&& self.data@.len() <= self.chunk_count
        &&& count_some(self.pivots@) == self.data@.len()
        &&& forall|r: int| 0 <= r < self.data@.len() ==> self.row_wf(r)
        &&& forall|c: int|
            0 <= c < self.chunk_count && self.pivots@[c] is Some ==> {
                let r = (#[trigger] self.pivots@[c]).unwrap() as int;
                &&& 0 <= r < self.data@.len()
                &&& is_lead(self.data@[r].cv(), c)
                &&& self.data@[r].cv()[c] == 1
            }
        &&& forall|c: int, r2: int|
            0 <= c < self.chunk_count && (#[trigger] self.pivots@[c]) is Some && 0 <= r2
                < self.data@.len() && r2 != self.pivots@[c].unwrap() as int ==> (
            #[trigger] self.data@[r2]).cv()[c] == 0
    }

    /// Creates a new, empty matrix for `chunk_count` chunks of
    /// `symbol_count` symbols each.
    pub fn new(chunk_count: usize, symbol_count: usize) -> (r: Self)
        ensures
            r.wf(),
            r.chunk_count == chunk_count,
            r.symbol_count == symbol_count,
            r.rank == 0,
            r.data@.len() == 0,
            forall|c: int| 0 <= c < chunk_count ==> r.pivots@[c] is None,
    {
        let mut pivots: Vec<Option<usize>> = Vec::new();
        let mut i: usize = 0;
        while i < chunk_count
            invariant
                i <= chunk_count,
                pivots@.len() == i,
                forall|c: int| 0 <= c < i ==> pivots@[c] is None,
            decreases chunk_count - i,
        {
            pivots.push(None);
            i = i + 1;
        }
        proof {
            lemma_count_some_none(pivots@);
        }
        Self { chunk_count, symbol_count, data: Vec::new(), pivots, rank: 0 }
    }

    /// Returns the number of linearly independent packets received.
    pub fn rank(&self) -> (r: usize)
        ensures
            r == self.rank,
    {
        self.rank
    }

    /// Returns true if the matrix has gathered a full set of linearly
    /// independent packets.
    pub fn can_decode(&self) -> (r: bool)
        ensures
            r == (self.rank >= self.chunk_count),
    {
        self.rank >= self.chunk_count
    }
}

/// The packet after reduction against the pivot rows of the first `upto`
/// columns, in ascending column order: at each occupied pivot column where
/// the running coding vector is non-zero, that multiple of the pivot row is
/// subtracted. Returns the coding-vector and data-vector values.
pub open spec fn eliminate_upto<F: Field>(
    m: Matrix<F>,
    cv: Seq<nat>,
    dv: Seq<nat>,
    upto: int,
) -> (Seq<nat>, Seq<nat>)
    decreases upto,
{
    if upto <= 0 {
        (cv, dv)
    } else {
        let prev = eliminate_upto(m, cv, dv, upto - 1);
        let c = upto - 1;
        if m.pivots@[c] is Some && prev.0[c] != 0 {
            let r = m.pivots@[c].unwrap() as int;
            (
                sub_scaled::<F>(prev.0, m.data@[r].cv(), prev.0[c]),
                sub_scaled::<F>(prev.1, m.data@[r].dv(), prev.0[c]),
            )
        } else {
            prev
        }
    }
}

/// The coding vector of the fully reduced packet.
pub open spec fn reduced_cv<F: Field>(m: Matrix<F>, p: RLNCPacket<F>) -> Seq<nat> {
    eliminate_upto(m, p.cv(), p.dv(), m.chunk_count as int).0
}

/// The data vector of the fully reduced packet.
pub open spec fn reduced_dv<F: Field>(m: Matrix<F>, p: RLNCPacket<F>) -> Seq<nat> {
    eliminate_upto(m, p.cv(), p.dv(), m.chunk_count as int).1
}

/// Whether a reduced coding vector still has a leading value.
pub open spec fn has_lead(s: Seq<nat>) -> bool {
    exists|c: int| is_lead(s, c)
}

impl<F: Field> Matrix<F> {
    /// Two distinct occupied pivot columns are owned by distinct rows: a
    /// row's leading column is unique.
    proof fn lemma_pivot_rows_distinct(self, c1: int, c2: int)
        requires
            self.wf(),
            0 <= c1 < self.chunk_count,
            0 <= c2 < self.chunk_count,
            c1 != c2,
            self.pivots@[c1] is Some,
            self.pivots@[c2] is Some,
        ensures
            self.pivots@[c1].unwrap() != self.pivots@[c2].unwrap(),
    {
        let r1 = self.pivots@[c1].unwrap() as int;
        let r2 = self.pivots@[c2].unwrap() as int;
        if r1 == r2 {
            assert(is_lead(self.data@[r1].cv(), c1));
            assert(is_lead(self.data@[r1].cv(), c2));
            if c1 < c2 {
                assert(self.data@[r1].cv()[c1] == 0);
            } else {
                assert(self.data@[r1].cv()[c2] == 0);
            }
        }
    }

    /// Reduction preserves the vector lengths, keeps every value in the
    /// field, and zeroes the coding vector at every occupied pivot column it
    /// has passed.
    proof fn lemma_eliminate_props(self, cv: Seq<nat>, dv: Seq<nat>, upto: int)
        requires
            self.wf(),
            0 <= upto <= self.chunk_count,
            cv.len() == self.chunk_count,
            dv.len() == self.symbol_count,
            forall|j: int| 0 <= j < cv.len() ==> F::in_range(#[trigger] cv[j]),
            forall|j: int| 0 <= j < dv.len() ==> F::in_range(#[trigger] dv[j]),
        ensures
            eliminate_upto::<F>(self, cv, dv, upto).0.len() == self.chunk_count,
            eliminate_upto::<F>(self, cv, dv, upto).1.len() == self.symbol_count,
            forall|j: int|
                0 <= j < self.chunk_count ==> F::in_range(
                    #[trigger] eliminate_upto::<F>(self, cv, dv, upto).0[j],
                ),
            forall|j: int|
                0 <= j < self.symbol_count ==> F::in_range(
                    #[trigger] eliminate_upto::<F>(self, cv, dv, upto).1[j],
                ),
            forall|c: int|
                0 <= c < upto && (#[trigger] self.pivots@[c]) is Some ==> eliminate_upto::<F>(
                    self,
                    cv,
                    dv,
                    upto,
                ).0[c] == 0,
        decreases upto,
    {
        if upto > 0 {
            self.lemma_eliminate_props(cv, dv, upto - 1);
            let prev = eliminate_upto::<F>(self, cv, dv, upto - 1);
            let cur = eliminate_upto::<F>(self, cv, dv, upto);
            let c = upto - 1;
            if self.pivots@[c] is Some && prev.0[c] != 0 {
                let r = self.pivots@[c].unwrap() as int;
                assert(self.row_wf(r));
                let row = self.data@[r];
                let a = prev.0[c];
                lemma_all_wf_in_range(row.coding_vector@);
                lemma_all_wf_in_range(row.data@);
                assert forall|j: int| 0 <= j < self.chunk_count implies F::in_range(
                    #[trigger] cur.0[j],
                ) by {
                    F::ops_in_range(a, row.cv()[j]);
                    F::ops_in_range(prev.0[j], F::fmul(a, row.cv()[j]));
                }
                assert forall|j: int| 0 <= j < self.symbol_count implies F::in_range(
                    #[trigger] cur.1[j],
                ) by {
                    F::ops_in_range(a, row.dv()[j]);
                    F::ops_in_range(prev.1[j], F::fmul(a, row.dv()[j]));
                }
                assert forall|c2: int|
                    0 <= c2 < upto && (#[trigger] self.pivots@[c2]) is Some implies cur.0[c2]
                    == 0 by {
                    if c2 < c {
                        // already zero, and the pivot row of column c is zero
                        // at column c2, since it is not the row owning c2
                        self.lemma_pivot_rows_distinct(c, c2);
                        assert(row.cv()[c2] == 0);
                        assert(prev.0[c2] == 0);
                        F::constants_in_range();
                        F::mul_zero(a);
                        F::sub_zero(0);
                        assert(cur.0[c2] == F::fsub(0, F::fmul(a, 0)));
                    } else {
                        // the processed column itself: a - a * 1 == 0
                        assert(c2 == c);
                        assert(row.cv()[c] == 1);
                        F::mul_one(a);
                        F::sub_self(a);
                        assert(cur.0[c] == F::fsub(a, F::fmul(a, 1)));
                    }
                }
            } else {
                assert(cur == prev);
            }
        }
    }

    /// Reduces a packet against every stored pivot row, in ascending column
    /// order.
    fn eliminate(&self, packet: &mut RLNCPacket<F>)
        requires
            self.wf(),
            old(packet).wf(),
            old(packet).cv().len() == self.chunk_count,
            old(packet).dv().len() == self.symbol_count,
        ensures
            final(packet).wf(),
            final(packet).cv() == eliminate_upto::<F>(
                *self,
                old(packet).cv(),
                old(packet).dv(),
                self.chunk_count as int,
            ).0,
            final(packet).dv() == eliminate_upto::<F>(
                *self,
                old(packet).cv(),
                old(packet).dv(),
                self.chunk_count as int,
            ).1,
    {
        let ghost ocv = old(packet).cv();
        let ghost odv = old(packet).dv();
        let mut c: usize = 0;
        let n = self.chunk_count;
        while c < n
            invariant
                c <= n,
                n == self.chunk_count,
                self.wf(),
                packet.wf(),
                ocv.len() == n,
                odv.len() == self.symbol_count,
                packet.cv().len() == n,
                packet.dv().len() == self.symbol_count,
                packet.cv() == eliminate_upto::<F>(*self, ocv, odv, c as int).0,
                packet.dv() == eliminate_upto::<F>(*self, ocv, odv, c as int).1,
            decreases n - c,
        {
            let coeff = packet.coding_vector[c];
            match self.pivots[c] {
                Some(row_idx) => {
                    if !coeff.is_zero() {
                        let row = &self.data[row_idx];
                        proof {
                            assert(self.pivots@[c as int] is Some);
                            assert(self.row_wf(row_idx as int));
                            assert(coeff.val() == packet.cv()[c as int]);
                        }
                        packet.subtract_row(row, coeff);
                    }
                },
                None => {
                },
            }
            proof {
                let cur = eliminate_upto::<F>(*self, ocv, odv, c + 1);
                let prev = eliminate_upto::<F>(*self, ocv, odv, c as int);
                assert(cur == if self.pivots@[c as int] is Some && prev.0[c as int] != 0 {
                    let r = self.pivots@[c as int].unwrap() as int;
                    (
                        sub_scaled::<F>(prev.0, self.data@[r].cv(), prev.0[c as int]),
                        sub_scaled::<F>(prev.1, self.data@[r].dv(), prev.0[c as int]),
                    )
                } else {
                    prev
                });
            }
            c = c + 1;
        }
    }
}

/// The state change of accepting an independent packet whose reduced form
/// `(rcv, rdv)` leads at column `c`: the normalized reduced packet becomes a
/// new last row owning pivot `c`, and every earlier row is back-substituted
/// against it with its own value at column `c` as the factor.
pub open spec fn accepted_state<F: Field>(
    pre: Matrix<F>,
    post: Matrix<F>,
    rcv: Seq<nat>,
    rdv: Seq<nat>,
    c: int,
) -> bool {
    let n = pre.data@.len() as int;
    &&& post.chunk_count == pre.chunk_count
    &&& post.symbol_count == pre.symbol_count
    &&& post.rank == pre.rank + 1
    &&& post.data@.len() == n + 1
    &&& post.pivots@ == pre.pivots@.update(c, Some(pre.data@.len() as usize))
    &&& exists|ik: nat|
        {
            &&& F::in_range(ik)
            &&& F::fmul(rcv[c], ik) == 1
            &&& (#[trigger] scaled::<F>(ik, rcv)) == post.data@[n].cv()
            &&& scaled::<F>(ik, rdv) == post.data@[n].dv()
        }
    &&& forall|i: int|
        0 <= i < n ==> (#[trigger] post.data@[i]).cv() == sub_scaled::<F>(
            pre.data@[i].cv(),
            post.data@[n].cv(),
            pre.data@[i].cv()[c],
        )
    &&& forall|i: int|
        0 <= i < n ==> (#[trigger] post.data@[i]).dv() == sub_scaled::<F>(
            pre.data@[i].dv(),
            post.data@[n].dv(),
            pre.data@[i].cv()[c],
        )
}

impl<F: Field> Matrix<F> {
    /// Reduces every earlier row against the freshly inserted row at
    /// `new_row_idx`, whose pivot column is `col`: each earlier row has its
    /// own value at `col` times the new row subtracted from it.
    fn back_substitute(&mut self, new_row_idx: usize, col: usize)
        requires
            col < old(self).chunk_count,
            new_row_idx + 1 == old(self).data@.len(),
            forall|r: int| 0 <= r < old(self).data@.len() ==> old(self).row_wf(r),
        ensures
            final(self).chunk_count == old(self).chunk_count,
            final(self).symbol_count == old(self).symbol_count,
            final(self).rank == old(self).rank,
            final(self).pivots@ == old(self).pivots@,
            final(self).data@.len() == old(self).data@.len(),
            final(self).data@[new_row_idx as int] == old(self).data@[new_row_idx as int],
            forall|r: int| 0 <= r < final(self).data@.len() ==> final(self).row_wf(r),
            forall|i: int|
                0 <= i < new_row_idx ==> (#[trigger] final(self).data@[i]).cv() == sub_scaled::<
                    F,
                >(
                    old(self).data@[i].cv(),
                    old(self).data@[new_row_idx as int].cv(),
                    old(self).data@[i].cv()[col as int],
                ),
            forall|i: int|
                0 <= i < new_row_idx ==> (#[trigger] final(self).data@[i]).dv() == sub_scaled::<
                    F,
                >(
                    old(self).data@[i].dv(),
                    old(self).data@[new_row_idx as int].dv(),
                    old(self).data@[i].cv()[col as int],
                ),
    {
        let src = self.data[new_row_idx].duplicate();
        let mut i: usize = 0;
        while i < new_row_idx
            invariant
                i <= new_row_idx,
                new_row_idx + 1 == self.data@.len(),
                col < self.chunk_count,
                self.chunk_count == old(self).chunk_count,
                self.symbol_count == old(self).symbol_count,
                self.rank == old(self).rank,
                self.pivots@ == old(self).pivots@,
                self.data@.len() == old(self).data@.len(),
                src.coding_vector@ == old(self).data@[new_row_idx as int].coding_vector@,
                src.data@ == old(self).data@[new_row_idx as int].data@,
                forall|r: int| i <= r < self.data@.len() ==> self.data@[r] == old(self).data@[r],
                forall|r: int| 0 <= r < self.data@.len() ==> self.row_wf(r),
                forall|j: int|
                    0 <= j < i ==> (#[trigger] self.data@[j]).cv() == sub_scaled::<F>(
                        old(self).data@[j].cv(),
                        old(self).data@[new_row_idx as int].cv(),
                        old(self).data@[j].cv()[col as int],
                    ),
                forall|j: int|
                    0 <= j < i ==> (#[trigger] self.data@[j]).dv() == sub_scaled::<F>(
                        old(self).data@[j].dv(),
                        old(self).data@[new_row_idx as int].dv(),
                        old(self).data@[j].cv()[col as int],
                    ),
            decreases new_row_idx - i,
        {
            proof {
                assert(self.row_wf(i as int));
                assert(self.row_wf(new_row_idx as int));
            }
            let ghost entry = *self;
            let f = self.data[i].coding_vector[col];
            let ghost prev = self.data@;
            let ghost old_row = self.data@[i as int];
            if !f.is_zero() {
                let mut row = self.data[i].duplicate();
                proof {
                    assert(row.cv() == old_row.cv());
                    assert(row.dv() == old_row.dv());
                }
                row.subtract_row(&src, f);
                self.data.set(i, row);
                proof {
                    assert(self.data@[i as int].cv() == sub_scaled::<F>(
                        old_row.cv(),
                        old(self).data@[new_row_idx as int].cv(),
                        f.val(),
                    ));
                    assert(self.data@[i as int].cv().len() == old_row.cv().len());
                    assert(self.data@[i as int].dv().len() == old_row.dv().len());
                    assert(self.row_wf(i as int));
                }
            } else {
                proof {
                    let srcp = old(self).data@[new_row_idx as int];
                    lemma_all_wf_in_range(old_row.coding_vector@);
                    lemma_all_wf_in_range(old_row.data@);
                    lemma_all_wf_in_range(srcp.coding_vector@);
                    lemma_all_wf_in_range(srcp.data@);
                    F::constants_in_range();
                    assert forall|j: int| 0 <= j < old_row.cv().len() implies old_row.cv()[j]
                        == sub_scaled::<F>(old_row.cv(), srcp.cv(), 0)[j] by {
                        F::mul_zero(srcp.cv()[j]);
                        F::sub_zero(old_row.cv()[j]);
                    }
                    assert forall|j: int| 0 <= j < old_row.dv().len() implies old_row.dv()[j]
                        == sub_scaled::<F>(old_row.dv(), srcp.dv(), 0)[j] by {
                        F::mul_zero(srcp.dv()[j]);
                        F::sub_zero(old_row.dv()[j]);
                    }
                    assert(old_row.cv() =~= sub_scaled::<F>(old_row.cv(), srcp.cv(), 0));
                    assert(old_row.dv() =~= sub_scaled::<F>(old_row.dv(), srcp.dv(), 0));
                }
            }
            proof {
                assert forall|r: int| 0 <= r < self.data@.len() implies self.row_wf(r) by {
                    assert(entry.row_wf(r));
                    if r != i {
                        assert(self.data@[r] == prev[r]);
                    } else {
                        assert(self.row_wf(i as int));
                    }
                }
            }
            i = i + 1;
        }
    }

    /// Pushes a new packet into the matrix. The packet is reduced against
    /// the stored rows; a packet whose reduction is zero is discarded, and
    /// an independent one is normalized, inserted as a new pivot row and
    /// back-substituted into the earlier rows. Returns whether the matrix
    /// has just become full rank.
    pub fn push_rref(&mut self, packet: RLNCPacket<F>) -> (r: bool)
        requires
            old(self).wf(),
            packet.wf(),
            packet.cv().len() == old(self).chunk_count,
            packet.dv().len() == old(self).symbol_count,
        ensures
            final(self).wf(),
            final(self).chunk_count == old(self).chunk_count,
            final(self).symbol_count == old(self).symbol_count,
            old(self).rank <= final(self).rank <= old(self).rank + 1,
            !has_lead(reduced_cv(*old(self), packet)) ==> *final(self) == *old(self) && r
                == false,
            forall|c: int|
                is_lead(reduced_cv(*old(self), packet), c) ==> accepted_state(
                    *old(self),
                    *final(self),
                    reduced_cv(*old(self), packet),
                    reduced_dv(*old(self), packet),
                    c,
                ),
            has_lead(reduced_cv(*old(self), packet)) ==> final(self).rank == old(self).rank + 1
                && r == (final(self).rank == final(self).chunk_count),
    {
        let ghost pre = *self;
        let mut packet = packet;
        proof {
            lemma_all_wf_in_range(packet.coding_vector@);
            lemma_all_wf_in_range(packet.data@);
            pre.lemma_eliminate_props(packet.cv(), packet.dv(), pre.chunk_count as int);
        }
        let ghost rcv = reduced_cv(pre, packet);
        let ghost rdv = reduced_dv(pre, packet);
        self.eliminate(&mut packet);
        proof {
            assert(packet.cv() == rcv);
            assert(packet.dv() == rdv);
        }
        match packet.leading_coefficient() {
            None => {
                proof {
                    assert(!has_lead(rcv)) by {
                        assert forall|c: int| !is_lead(rcv, c) by {
                            if 0 <= c < rcv.len() {
                                assert(rcv[c] == 0);
                            }
                        }
                    }
                }
                false
            },
            Some(col) => {
                proof {
                    assert(is_lead(rcv, col as int));
                    if pre.pivots@[col as int] is Some {
                        assert(rcv[col as int] == 0);
                        assert(false);
                    }
                    assert(has_lead(rcv));
                    assert forall|c: int| is_lead(rcv, c) implies c == col as int by {
                        if c < col as int {
                            assert(rcv[c] == 0);
                        } else if c > col as int {
                            assert(rcv[col as int] == 0);
                        }
                    }
                }
                match self.pivots[col] {
                    Some(_) => {
                        proof {
                            assert(false);
                        }
                        false
                    },
                    None => {
                        packet.normalize();
                        let row_idx = self.data.len();
                        proof {
                            lemma_count_some_lt(pre.pivots@, col as int);
                            assert(pre.rank < pre.chunk_count);
                        }
                        self.pivots.set(col, Some(row_idx));
                        self.data.push(packet);
                        self.rank = self.rank + 1;
                        proof {
                            let n = pre.data@.len() as int;
                            assert forall|r: int| 0 <= r < self.data@.len() implies self.row_wf(
                                r,
                            ) by {
                                if r < n {
                                    assert(self.data@[r] == pre.data@[r]);
                                    assert(pre.row_wf(r));
                                } else {
                                    assert(self.data@[r] == packet);
                                }
                            }
                        }
                        self.back_substitute(row_idx, col);
                        proof {
                            let n = pre.data@.len() as int;
                            let cc = pre.chunk_count as int;
                            let ik = choose|ik: nat|
                                {
                                    &&& F::in_range(ik)
                                    &&& F::fmul(rcv[col as int], ik) == 1
                                    &&& (#[trigger] scaled::<F>(ik, rcv)) == self.data@[n].cv()
                                    &&& scaled::<F>(ik, rdv) == self.data@[n].dv()
                                };
                            let newcv = self.data@[n].cv();
                            assert(newcv == scaled::<F>(ik, rcv));
                            F::constants_in_range();
                            assert forall|j: int| 0 <= j < cc implies F::in_range(
                                #[trigger] newcv[j],
                            ) && newcv[j] == F::fmul(ik, rcv[j]) by {
                                F::ops_in_range(ik, rcv[j]);
                            }
                            // the new row leads at `col` with a one
                            assert(newcv[col as int] == 1) by {
                                F::mul_comm(rcv[col as int], ik);
                            }
                            assert forall|j: int| 0 <= j < col as int implies newcv[j] == 0 by {
                                assert(rcv[j] == 0);
                                F::mul_zero(ik);
                            }
                            // pivots and earlier rows are those of `pre`
                            assert(self.pivots@ == pre.pivots@.update(
                                col as int,
                                Some(row_idx),
                            ));
                            assert(forall|i: int|
                                0 <= i < n ==> (#[trigger] self.data@[i]).cv() == sub_scaled::<
                                F,
                            >(pre.data@[i].cv(), newcv, pre.data@[i].cv()[col as int]));
                            lemma_count_some_update(pre.pivots@, col as int, row_idx);
                            // the pivot-ownership clause
                            assert forall|c2: int|
                                0 <= c2 < cc && (#[trigger] self.pivots@[c2]) is Some implies {
                                let r = self.pivots@[c2].unwrap() as int;
                                &&& 0 <= r < self.data@.len()
                                &&& is_lead(self.data@[r].cv(), c2)
                                &&& self.data@[r].cv()[c2] == 1
                            } by {
                                if c2 == col as int {
                                    assert(self.pivots@[c2].unwrap() as int == n);
                                    assert(is_lead(newcv, c2));
                                } else {
                                    assert(self.pivots@[c2] == pre.pivots@[c2]);
                                    let r = pre.pivots@[c2].unwrap() as int;
                                    assert(0 <= r < n);
                                    assert(pre.row_wf(r));
                                    let pcv = pre.data@[r].cv();
                                    lemma_all_wf_in_range(pre.data@[r].coding_vector@);
                                    let f = pcv[col as int];
                                    assert(self.data@[r].cv() == sub_scaled::<F>(
                                        pcv,
                                        newcv,
                                        f,
                                    ));
                                    assert(is_lead(pcv, c2));
                                    assert(rcv[c2] == 0);
                                    assert(newcv[c2] == 0) by {
                                        F::mul_zero(ik);
                                    }
                                    assert(self.data@[r].cv()[c2] == 1) by {
                                        F::mul_zero(f);
                                        F::sub_zero(1);
                                        assert(self.data@[r].cv()[c2] == F::fsub(
                                            pcv[c2],
                                            F::fmul(f, newcv[c2]),
                                        ));
                                    }
                                    let scv = self.data@[r].cv();
                                    assert forall|j: int| 0 <= j < c2 implies scv[j] == 0 by {
                                        assert(pcv[j] == 0);
                                        if (col as int) < c2 {
                                            assert(f == 0);
                                            F::mul_zero(newcv[j]);
                                            F::sub_zero(0);
                                            assert(scv[j] == F::fsub(0, F::fmul(0, newcv[j])));
                                        } else {
                                            assert(j < col as int);
                                            assert(newcv[j] == 0);
                                            F::mul_zero(f);
                                            F::sub_zero(0);
                                            assert(scv[j] == F::fsub(0, F::fmul(f, newcv[j])));
                                        }
                                    }
                                    assert(is_lead(self.data@[r].cv(), c2));
                                }
                            }
                            // the reduced clause
                            assert forall|c2: int, r2: int|
                                0 <= c2 < cc && (#[trigger] self.pivots@[c2]) is Some && 0 <= r2
                                    < self.data@.len() && r2 != self.pivots@[c2].unwrap() as int
                                implies (#[trigger] self.data@[r2]).cv()[c2] == 0 by {
                                if c2 == col as int {
                                    assert(r2 < n);
                                    assert(pre.row_wf(r2));
                                    lemma_all_wf_in_range(pre.data@[r2].coding_vector@);
                                    let f2 = pre.data@[r2].cv()[col as int];
                                    F::mul_one(f2);
                                    F::sub_self(f2);
                                    assert(self.data@[r2].cv()[c2] == F::fsub(
                                        f2,
                                        F::fmul(f2, newcv[c2]),
                                    ));
                                } else {
                                    assert(self.pivots@[c2] == pre.pivots@[c2]);
                                    assert(rcv[c2] == 0);
                                    assert(newcv[c2] == 0) by {
                                        F::mul_zero(ik);
                                    }
                                    if r2 == n {
                                    } else {
                                        assert(r2 < n);
                                        assert(pre.row_wf(r2));
                                        lemma_all_wf_in_range(pre.data@[r2].coding_vector@);
                                        let f2 = pre.data@[r2].cv()[col as int];
                                        assert(pre.data@[r2].cv()[c2] == 0);
                                        F::mul_zero(f2);
                                        F::sub_zero(0);
                                        assert(self.data@[r2].cv()[c2] == F::fsub(
                                            0,
                                            F::fmul(f2, newcv[c2]),
                                        ));
                                    }
                                }
                            }
                            assert(self.wf());
                            assert(accepted_state(pre, *self, rcv, rdv, col as int));
                        }
                        self.rank >= self.chunk_count
                    },
                }
            },
        }
    }
}

/// The bytes unpacked from one row's data vector: the low `safe_capacity`
/// little-endian bytes of each of the first `upto` symbol values, in order.
pub open spec fn row_bytes<F: Field>(dv: Seq<nat>, upto: int) -> Seq<u8>
    decreases upto,
{
    if upto <= 0 {
        Seq::empty()
    } else {
        row_bytes::<F>(dv, upto - 1) + crate::field::nat_bytes(dv[upto - 1], F::spec_cap())
    }
}

/// The concatenation, in pivot-column order, of the unpacked rows owning the
/// first `upto` columns.
pub open spec fn cols_bytes<F: Field>(m: Matrix<F>, upto: int) -> Seq<u8>
    decreases upto,
{
    if upto <= 0 {
        Seq::empty()
    } else {
        cols_bytes(m, upto - 1) + row_bytes::<F>(
            m.data@[m.pivots@[upto - 1].unwrap() as int].dv(),
            m.symbol_count as int,
        )
    }
}

/// The full reconstructed byte stream of a full-rank matrix, before the
/// boundary marker is sought.
pub open spec fn full_bytes<F: Field>(m: Matrix<F>) -> Seq<u8> {
    cols_bytes(m, m.chunk_count as int)
}

/// Position `p` holds the last boundary marker of the byte stream.
pub open spec fn is_last_marker(s: Seq<u8>, p: int) -> bool {
    &&& 0 <= p < s.len()
    &&& s[p] == BOUNDARY_MARKER
    &&& forall|k: int| p < k < s.len() ==> s[k] != BOUNDARY_MARKER
}

impl<F: Field> Matrix<F> {
    /// Extracts the decoded bytes from a full-rank matrix: each pivot row's
    /// data symbols are unpacked to bytes in pivot-column order, and the
    /// result truncated at the last boundary marker. Fails with
    /// `NotEnoughPackets` before full rank, and with `InvalidEncoding` when
    /// no boundary marker is present.
    pub fn decode(&self) -> (r: Result<Vec<u8>, RLNCError>)
        requires
            self.wf(),
        ensures
            self.rank < self.chunk_count <==> r == Result::<Vec<u8>, RLNCError>::Err(
                RLNCError::NotEnoughPackets(self.rank, self.chunk_count),
            ),
            self.rank >= self.chunk_count ==> (r is Ok <==> exists|k: int|
                0 <= k < full_bytes(*self).len() && full_bytes(*self)[k] == BOUNDARY_MARKER),
            r is Ok ==> forall|p: int|
                is_last_marker(full_bytes(*self), p) ==> r.unwrap()@ == full_bytes(*self).take(p),
            self.rank >= self.chunk_count && !(exists|k: int|
                0 <= k < full_bytes(*self).len() && full_bytes(*self)[k] == BOUNDARY_MARKER)
                ==> r == Result::<Vec<u8>, RLNCError>::Err(RLNCError::InvalidEncoding),
    {
        if self.rank < self.chunk_count {
            return Err(RLNCError::NotEnoughPackets(self.rank, self.chunk_count));
        }
        let mut decoded: Vec<u8> = Vec::new();
        let mut c: usize = 0;
        let n = self.chunk_count;
        while c < n
            invariant
                c <= n,
                n == self.chunk_count,
                self.wf(),
                self.rank >= self.chunk_count,
                decoded@ == cols_bytes(*self, c as int),
            decreases n - c,
        {
            proof {
                lemma_count_some_full(self.pivots@, c as int);
            }
            let row_idx = match self.pivots[c] {
                Some(r) => r,
                None => {
                    proof {
                        assert(false);
                    }
                    0
                },
            };
            proof {
                assert(self.pivots@[c as int].unwrap() == row_idx);
                assert(self.row_wf(row_idx as int));
            }
            let ghost col_base = decoded@;
            let mut j: usize = 0;
            let scount = self.symbol_count;
            while j < scount
                invariant
                    j <= scount,
                    scount == self.symbol_count,
                    self.wf(),
                    row_idx < self.data@.len(),
                    self.row_wf(row_idx as int),
                    decoded@ == col_base + row_bytes::<F>(
                        self.data@[row_idx as int].dv(),
                        j as int,
                    ),
                decreases scount - j,
            {
                let sym_bytes = self.data[row_idx].data[j].to_bytes();
                let ghost v = self.data@[row_idx as int].dv()[j as int];
                proof {
                    crate::field::lemma_le_nat_of_nat_bytes(v, F::spec_cap());
                    assert(le_nat(sym_bytes@) == v % pow256(F::spec_cap()));
                    lemma_le_nat_inj(sym_bytes@, crate::field::nat_bytes(v, F::spec_cap()));
                    assert(sym_bytes@ =~= crate::field::nat_bytes(v, F::spec_cap()));
                }
                let mut sb = sym_bytes;
                decoded.append(&mut sb);
                proof {
                    assert(decoded@ =~= col_base + row_bytes::<F>(
                        self.data@[row_idx as int].dv(),
                        j + 1,
                    ));
                }
                j = j + 1;
            }
            proof {
                assert(decoded@ =~= cols_bytes(*self, c + 1));
            }
            c = c + 1;
        }
        let ghost full = full_bytes(*self);
        proof {
            assert(decoded@ == full);
        }
        let mut p = decoded.len();
        while p > 0
            invariant
                self.wf(),
                self.rank >= self.chunk_count,
                full == full_bytes(*self),
                p <= decoded@.len(),
                decoded@ == full,
                forall|k: int| p <= k < decoded@.len() ==> decoded@[k] != BOUNDARY_MARKER,
            decreases p,
        {
            p = p - 1;
            if decoded[p] == BOUNDARY_MARKER {
                proof {
                    assert(is_last_marker(full, p as int));
                    assert forall|q: int| is_last_marker(full, q) implies q == p as int by {
                        if q > p as int {
                            assert(full[q] != BOUNDARY_MARKER);
                        } else if q < p as int {
                            assert(full[p as int] != BOUNDARY_MARKER);
                        }
                    }
                }
                let out = crate::chunks::copy_byte_range(decoded.as_slice(), 0, p);
                proof {
                    assert(out@ =~= full.take(p as int));
                }
                return Ok(out);
            }
        }
        proof {
            assert(forall|k: int| 0 <= k < full.len() ==> full[k] != BOUNDARY_MARKER);
        }
        Err(RLNCError::InvalidEncoding)
    }
}

/// Reducing a packet whose coding vector is all zero leaves it all zero: no
/// pivot step fires. Such a packet is linearly dependent, so `push_rref`
/// leaves the matrix unchanged.
pub proof fn lemma_zero_vector_dependent<F: Field>(m: Matrix<F>, p: RLNCPacket<F>)
    requires
        m.wf(),
        p.cv().len() == m.chunk_count,
        forall|j: int| 0 <= j < p.cv().len() ==> p.cv()[j] == 0,
    ensures
        !has_lead(reduced_cv(m, p)),
        reduced_cv(m, p) == p.cv(),
        reduced_dv(m, p) == p.dv(),
{
    lemma_eliminate_zero_cv(m, p.cv(), p.dv(), m.chunk_count as int);
    let rcv = reduced_cv(m, p);
    assert forall|c: int| !is_lead(rcv, c) by {
        if 0 <= c < rcv.len() {
            assert(rcv[c] == 0);
        }
    }
}

/// Reduction never fires on an all-zero coding vector.
proof fn lemma_eliminate_zero_cv<F: Field>(m: Matrix<F>, cv: Seq<nat>, dv: Seq<nat>, upto: int)
    requires
        forall|j: int| 0 <= j < cv.len() ==> cv[j] == 0,
        upto <= cv.len(),
    ensures
        eliminate_upto::<F>(m, cv, dv, upto) == (cv, dv),
    decreases upto,
{
    if upto > 0 {
        lemma_eliminate_zero_cv::<F>(m, cv, dv, upto - 1);
    }
}

/// The chunks have the matrix's shape: one coefficient per chunk, and one
/// well-formed symbol per data position.
pub open spec fn chunks_shape_ok<F: Field>(m: Matrix<F>, chunks: Seq<Chunk<F>>) -> bool {
    &&& chunks.len() == m.chunk_count
    &&& forall|i: int|
        0 <= i < chunks.len() ==> (#[trigger] chunks[i]).sym_vals().len() == m.symbol_count
            && crate::packet::all_wf(chunks[i].symbols@)
}

/// Every stored row's data vector is the linear combination of the chunks
/// that its coding vector claims. Coded packets from an encoder over these
/// chunks satisfy this, and the decoder preserves it, so at full rank the
/// pivot rows hold exactly the chunks.
pub open spec fn consistent<F: Field>(m: Matrix<F>, chunks: Seq<Chunk<F>>) -> bool {
    forall|r: int, j: int|
        0 <= r < m.data@.len() && 0 <= j < m.symbol_count ==> (#[trigger] m.data@[r].dv()[j])
            == lincomb_at::<F>(chunks, m.data@[r].cv(), j, m.chunk_count as int)
}

/// The shape hypothesis holds at every symbol position.
proof fn lemma_shape_gives_args_ok<F: Field>(
    m: Matrix<F>,
    chunks: Seq<Chunk<F>>,
    coeffs: Seq<nat>,
    j: int,
)
    requires
        chunks_shape_ok(m, chunks),
        0 <= j < m.symbol_count,
        forall|i: int| 0 <= i < coeffs.len() ==> F::in_range(#[trigger] coeffs[i]),
    ensures
        lincomb_args_ok(chunks, coeffs, j),
{
    assert forall|i: int| 0 <= i < chunks.len() implies 0 <= j < (
    #[trigger] chunks[i]).sym_vals().len() && F::in_range(chunks[i].sym_vals()[j]) by {
        chunks[i].symbols@[j].wf_in_range();
    }
}

/// Reduction against consistent rows keeps the packet consistent: the
/// reduced data vector is still the linear combination that the reduced
/// coding vector claims.
proof fn lemma_eliminate_consistent<F: Field>(
    m: Matrix<F>,
    chunks: Seq<Chunk<F>>,
    cv: Seq<nat>,
    dv: Seq<nat>,
    upto: int,
)
    requires
        m.wf(),
        consistent(m, chunks),
        chunks_shape_ok(m, chunks),
        0 <= upto <= m.chunk_count,
        cv.len() == m.chunk_count,
        dv.len() == m.symbol_count,
        forall|i: int| 0 <= i < cv.len() ==> F::in_range(#[trigger] cv[i]),
        forall|i: int| 0 <= i < dv.len() ==> F::in_range(#[trigger] dv[i]),
        forall|j: int|
            0 <= j < m.symbol_count ==> #[trigger] dv[j] == lincomb_at::<F>(
                chunks,
                cv,
                j,
                m.chunk_count as int,
            ),
    ensures
        forall|j: int|
            0 <= j < m.symbol_count ==> #[trigger] eliminate_upto::<F>(m, cv, dv, upto).1[j]
                == lincomb_at::<F>(
                chunks,
                eliminate_upto::<F>(m, cv, dv, upto).0,
                j,
                m.chunk_count as int,
            ),
    decreases upto,
{
    if upto > 0 {
        lemma_eliminate_consistent::<F>(m, chunks, cv, dv, upto - 1);
        m.lemma_eliminate_props(cv, dv, upto - 1);
        let prev = eliminate_upto::<F>(m, cv, dv, upto - 1);
        let cur = eliminate_upto::<F>(m, cv, dv, upto);
        let c = upto - 1;
        if m.pivots@[c] is Some && prev.0[c] != 0 {
            let r = m.pivots@[c].unwrap() as int;
            assert(m.row_wf(r));
            let row = m.data@[r];
            let a = prev.0[c];
            lemma_all_wf_in_range(row.coding_vector@);
            assert forall|j: int| 0 <= j < m.symbol_count implies #[trigger] cur.1[j]
                == lincomb_at::<F>(chunks, cur.0, j, m.chunk_count as int) by {
                lemma_shape_gives_args_ok(m, chunks, prev.0, j);
                lemma_shape_gives_args_ok(m, chunks, row.cv(), j);
                lemma_lincomb_sub_scaled::<F>(
                    chunks,
                    prev.0,
                    row.cv(),
                    a,
                    j,
                    m.chunk_count as int,
                );
                assert(row.dv()[j] == lincomb_at::<F>(chunks, row.cv(), j, m.chunk_count as int));
                assert(cur.1[j] == F::fsub(prev.1[j], F::fmul(a, row.dv()[j])));
            }
        }
    }
}

/// Accepting a consistent reduced packet keeps the whole matrix consistent.
proof fn lemma_accept_consistent<F: Field>(
    pre: Matrix<F>,
    post: Matrix<F>,
    chunks: Seq<Chunk<F>>,
    rcv: Seq<nat>,
    rdv: Seq<nat>,
    c: int,
)
    requires
        pre.wf(),
        consistent(pre, chunks),
        chunks_shape_ok(pre, chunks),
        accepted_state(pre, post, rcv, rdv, c),
        0 <= c < pre.chunk_count,
        rcv.len() == pre.chunk_count,
        rdv.len() == pre.symbol_count,
        forall|i: int| 0 <= i < rcv.len() ==> F::in_range(#[trigger] rcv[i]),
        forall|i: int| 0 <= i < rdv.len() ==> F::in_range(#[trigger] rdv[i]),
        forall|j: int|
            0 <= j < pre.symbol_count ==> #[trigger] rdv[j] == lincomb_at::<F>(
                chunks,
                rcv,
                j,
                pre.chunk_count as int,
            ),
    ensures
        consistent(post, chunks),
{
    let n = pre.data@.len() as int;
    let ik = choose|ik: nat|
        {
            &&& F::in_range(ik)
            &&& F::fmul(rcv[c], ik) == 1
            &&& (#[trigger] scaled::<F>(ik, rcv)) == post.data@[n].cv()
            &&& scaled::<F>(ik, rdv) == post.data@[n].dv()
        };
    let newcv = post.data@[n].cv();
    let newdv = post.data@[n].dv();
    assert forall|i: int| 0 <= i < newcv.len() implies F::in_range(#[trigger] newcv[i]) by {
        F::ops_in_range(ik, rcv[i]);
    }
    // the new row is consistent
    assert forall|j: int| 0 <= j < post.symbol_count implies #[trigger] newdv[j] == lincomb_at::<
        F,
    >(chunks, newcv, j, post.chunk_count as int) by {
        lemma_shape_gives_args_ok(pre, chunks, rcv, j);
        lemma_lincomb_scaled::<F>(chunks, rcv, ik, j, pre.chunk_count as int);
        assert(newdv[j] == F::fmul(ik, rdv[j]));
    }
    // the back-substituted rows are consistent
    assert forall|r: int, j: int|
        0 <= r < post.data@.len() && 0 <= j < post.symbol_count implies (
    #[trigger] post.data@[r].dv()[j]) == lincomb_at::<F>(
        chunks,
        post.data@[r].cv(),
        j,
        post.chunk_count as int,
    ) by {
        if r < n {
            assert(pre.row_wf(r));
            let prow = pre.data@[r];
            lemma_all_wf_in_range(prow.coding_vector@);
            let f = prow.cv()[c];
            assert(post.data@[r].cv() == sub_scaled::<F>(prow.cv(), newcv, f));
            assert(post.data@[r].dv() == sub_scaled::<F>(prow.dv(), newdv, f));
            lemma_shape_gives_args_ok(pre, chunks, prow.cv(), j);
            lemma_shape_gives_args_ok(pre, chunks, newcv, j);
            lemma_lincomb_sub_scaled::<F>(chunks, prow.cv(), newcv, f, j, pre.chunk_count as int);
            assert(prow.dv()[j] == lincomb_at::<F>(chunks, prow.cv(), j, pre.chunk_count as int));
            assert(newdv[j] == lincomb_at::<F>(chunks, newcv, j, pre.chunk_count as int));
            assert(post.data@[r].dv()[j] == F::fsub(prow.dv()[j], F::fmul(f, newdv[j])));
        }
    }
}

/// A matrix with no rows is consistent with any chunks.
pub proof fn lemma_empty_consistent<F: Field>(m: Matrix<F>, chunks: Seq<Chunk<F>>)
    requires
        m.data@.len() == 0,
    ensures
        consistent(m, chunks),
{
}

/// Feeding a consistent packet through `push_rref` keeps the matrix
/// consistent with the chunks, whether the packet was accepted or discarded.
/// The hypotheses about the old and the new state are exactly what
/// `push_rref` ensures.
pub proof fn lemma_push_preserves_consistency<F: Field>(
    pre: Matrix<F>,
    post: Matrix<F>,
    p: RLNCPacket<F>,
    chunks: Seq<Chunk<F>>,
)
    requires
        pre.wf(),
        p.wf(),
        p.cv().len() == pre.chunk_count,
        p.dv().len() == pre.symbol_count,
        consistent(pre, chunks),
        chunks_shape_ok(pre, chunks),
        forall|j: int|
            0 <= j < pre.symbol_count ==> #[trigger] p.dv()[j] == lincomb_at::<F>(
                chunks,
                p.cv(),
                j,
                pre.chunk_count as int,
            ),
        !has_lead(reduced_cv(pre, p)) ==> post == pre,
        forall|c: int|
            is_lead(reduced_cv(pre, p), c) ==> accepted_state(
                pre,
                post,
                reduced_cv(pre, p),
                reduced_dv(pre, p),
                c,
            ),
    ensures
        consistent(post, chunks),
{
    lemma_all_wf_in_range(p.coding_vector@);
    lemma_all_wf_in_range(p.data@);
    pre.lemma_eliminate_props(p.cv(), p.dv(), pre.chunk_count as int);
    lemma_eliminate_consistent::<F>(pre, chunks, p.cv(), p.dv(), pre.chunk_count as int);
    let rcv = reduced_cv(pre, p);
    let rdv = reduced_dv(pre, p);
    if has_lead(rcv) {
        let c = choose|c: int| is_lead(rcv, c);
        lemma_accept_consistent::<F>(pre, post, chunks, rcv, rdv, c);
    }
}

/// The padded byte stream ends in the boundary marker followed by zeros, so
/// its last marker sits exactly at the end of the original data.
pub proof fn lemma_padded_marker(data: Seq<u8>, total: nat)
    requires
        total >= data.len() + 1,
    ensures
        spec_padded(data, total).len() == total,
        is_last_marker(spec_padded(data, total), data.len() as int),
        spec_padded(data, total).take(data.len() as int) == data,
{
    let padded = spec_padded(data, total);
    let len = data.len() as int;
    assert(padded[len] == BOUNDARY_MARKER);
    assert forall|k: int| len < k < padded.len() implies padded[k] != BOUNDARY_MARKER by {
        assert(padded[k] == 0);
    }
    assert(padded.take(len) =~= data);
}

/// A full chunk packs its bytes group by group, so unpacking its symbols in
/// order reproduces the bytes.
proof fn lemma_row_bytes_of_chunk<F: Field>(chunk: Chunk<F>, bytes: Seq<u8>, upto: int)
    requires
        chunk.packs(bytes),
        bytes.len() == div_ceil_spec(bytes.len(), F::spec_cap()) * F::spec_cap(),
        0 <= upto <= chunk.symbols@.len(),
    ensures
        row_bytes::<F>(chunk.sym_vals(), upto) =~= bytes.subrange(0, upto * F::spec_cap() as int),
    decreases upto,
{
    let cap = F::spec_cap() as int;
    let scount = chunk.symbols@.len() as int;
    F::cap_at_least_one();
    if upto == 0 {
        assert(upto * F::spec_cap() as int == 0) by (nonlinear_arith)
            requires
                upto == 0,
        ;
        assert(row_bytes::<F>(chunk.sym_vals(), 0) =~= bytes.subrange(
            0,
            upto * F::spec_cap() as int,
        ));
    } else {
        lemma_row_bytes_of_chunk::<F>(chunk, bytes, upto - 1);
        let k = upto - 1;
        assert((k + 1) * cap == k * cap + cap) by (nonlinear_arith);
        assert(upto * cap <= scount * cap) by (nonlinear_arith)
            requires
                upto <= scount,
                cap >= 1,
        ;
        assert(scount * cap == bytes.len());
        let group = spec_group(bytes, F::spec_cap(), k);
        assert(group == bytes.subrange(k * cap, k * cap + cap));
        assert(group.len() == cap);
        assert(chunk.sym_vals()[k] == le_nat(group));
        lemma_byte_round_trip(group, F::spec_cap());
        assert(nat_bytes(le_nat(group), F::spec_cap()) =~= group);
        assert(row_bytes::<F>(chunk.sym_vals(), upto) == row_bytes::<F>(chunk.sym_vals(), k)
            + nat_bytes(chunk.sym_vals()[k], F::spec_cap()));
        assert(upto * F::spec_cap() as int == upto * cap);
        assert(row_bytes::<F>(chunk.sym_vals(), upto) =~= bytes.subrange(
            0,
            upto * F::spec_cap() as int,
        ));
    }
}

/// Concatenating the pivot rows' bytes in column order rebuilds the padded
/// stream prefix by prefix.
proof fn lemma_cols_bytes_prefix<F: Field>(m: Matrix<F>, padded: Seq<u8>, cs: int, upto: int)
    requires
        m.wf(),
        cs >= 0,
        0 <= upto <= m.chunk_count,
        padded.len() == m.chunk_count * cs,
        forall|c: int|
            0 <= c < m.chunk_count ==> (#[trigger] m.pivots@[c]) is Some && row_bytes::<F>(
                m.data@[m.pivots@[c].unwrap() as int].dv(),
                m.symbol_count as int,
            ) == padded.subrange(c * cs, (c + 1) * cs),
    ensures
        cols_bytes(m, upto) =~= padded.subrange(0, upto * cs),
    decreases upto,
{
    if upto == 0 {
        assert(upto * cs == 0) by (nonlinear_arith)
            requires
                upto == 0,
        ;
        assert(cols_bytes(m, 0) =~= padded.subrange(0, upto * cs));
    } else {
        lemma_cols_bytes_prefix::<F>(m, padded, cs, upto - 1);
        let c = upto - 1;
        assert((c + 1) * cs == c * cs + cs) by (nonlinear_arith);
        assert(upto * cs <= m.chunk_count * cs) by (nonlinear_arith)
            requires
                upto <= m.chunk_count,
                cs >= 0,
        ;
        assert(0 <= c * cs) by (nonlinear_arith)
            requires
                c >= 0,
                cs >= 0,
        ;
        assert(cols_bytes(m, upto) == cols_bytes(m, c) + row_bytes::<F>(
            m.data@[m.pivots@[c].unwrap() as int].dv(),
            m.symbol_count as int,
        ));
        assert(cols_bytes(m, upto) =~= padded.subrange(0, upto * cs));
    }
}

/// The central reconstruction theorem. A full-rank matrix that is consistent
/// with the prepared chunks of a payload reconstructs the padded payload
/// exactly: each pivot row's coding vector has collapsed to a unit vector,
/// so its data vector holds exactly one chunk; the concatenated unpacked
/// rows equal the padded byte stream; and its last boundary marker sits at
/// the end of the payload, so the truncated result is the payload itself.
pub proof fn lemma_full_rank_payload<F: Field>(
    m: Matrix<F>,
    ch: Chunks<F>,
    data: Seq<u8>,
    count: nat,
)
    requires
        m.wf(),
        ch.wf(),
        m.rank == m.chunk_count == count,
        ch.prepares(data, count),
        m.symbol_count == div_ceil_spec(ch.chunk_size as nat, F::spec_cap()),
        consistent(m, ch.inner@),
    ensures
        full_bytes(m) == spec_padded(data, (ch.chunk_size * count) as nat),
        is_last_marker(full_bytes(m), data.len() as int),
        full_bytes(m).take(data.len() as int) == data,
{
    let cc = m.chunk_count as int;
    let cs = ch.chunk_size as int;
    let cap = F::spec_cap() as int;
    let ss = m.symbol_count as int;
    let chunks = ch.inner@;
    let total = (ch.chunk_size * count) as nat;
    let padded = spec_padded(data, total);
    F::cap_at_least_one();
    F::constants_in_range();

    assert(total >= data.len() + 1) by {
        crate::chunks::lemma_div_ceil_mul_bound(data.len() + 1, count);
        crate::chunks::lemma_div_ceil_mul_bound(
            div_ceil_spec(data.len() + 1, count),
            F::spec_cap(),
        );
        let cs0 = div_ceil_spec(data.len() + 1, count);
        let sc = div_ceil_spec(cs0, F::spec_cap());
        assert(ch.chunk_size == sc * F::spec_cap());
        assert(sc * F::spec_cap() >= cs0);
        assert(total == (sc * F::spec_cap()) * count) by (nonlinear_arith)
            requires
                total == ch.chunk_size * count,
                ch.chunk_size == sc * F::spec_cap(),
        ;
        assert((sc * F::spec_cap()) * count >= cs0 * count) by (nonlinear_arith)
            requires
                sc * F::spec_cap() >= cs0,
                count >= 1,
        ;
        assert(cs0 * count >= data.len() + 1);
    }
    assert(padded.len() == total);

    // every pivot column is occupied
    assert forall|c: int| 0 <= c < cc implies (#[trigger] m.pivots@[c]) is Some by {
        lemma_count_some_full(m.pivots@, c);
    }

    // chunk shapes match the matrix
    assert(chunks_shape_ok(m, chunks));
    assert(cs == ss * cap) by {
        let q = cs / cap;
        assert(ch.chunk_size as nat % F::spec_cap() == 0);
        vstd::arithmetic::div_mod::lemma_fundamental_div_mod(cs, cap);
        assert(cs == cap * q);
        assert(cs + cap - 1 == q * cap + (cap - 1)) by (nonlinear_arith)
            requires
                cs == cap * q,
        ;
        vstd::arithmetic::div_mod::lemma_fundamental_div_mod_converse(
            cs + cap - 1,
            cap,
            q,
            cap - 1,
        );
        assert(div_ceil_spec(ch.chunk_size as nat, F::spec_cap()) == (cs + cap - 1) / cap);
        assert(ss == q);
        assert(ss * cap == cap * q) by (nonlinear_arith)
            requires
                ss == q,
        ;
    }

    // each pivot row's coding vector is a unit vector, so its data vector
    // holds exactly its chunk
    assert forall|c: int| 0 <= c < cc implies m.data@[(#[trigger] m.pivots@[c]).unwrap() as int].dv()
        =~= chunks[c].sym_vals() by {
        let r = m.pivots@[c].unwrap() as int;
        let rcv = m.data@[r].cv();
        assert(m.row_wf(r));
        lemma_all_wf_in_range(m.data@[r].coding_vector@);
        assert(rcv[c] == 1);
        assert forall|c2: int| 0 <= c2 < cc && c2 != c implies rcv[c2] == 0 by {
            m.lemma_pivot_rows_distinct(c, c2);
        }
        assert forall|j: int| 0 <= j < ss implies m.data@[r].dv()[j] == chunks[c].sym_vals()[j] by {
            lemma_shape_gives_args_ok(m, chunks, rcv, j);
            lemma_lincomb_unit::<F>(chunks, rcv, c, j, cc);
            assert(m.data@[r].dv()[j] == lincomb_at::<F>(chunks, rcv, j, cc));
        }
    }

    // each pivot row unpacks to its chunk's byte range of the padded stream
    assert(padded.len() == cc * cs) by (nonlinear_arith)
        requires
            padded.len() == total,
            total == ch.chunk_size * count,
            cc == count,
            cs == ch.chunk_size,
    ;
    assert forall|c: int| 0 <= c < cc implies row_bytes::<F>(
        m.data@[(#[trigger] m.pivots@[c]).unwrap() as int].dv(),
        ss,
    ) == padded.subrange(c * cs, (c + 1) * cs) by {
        let r = m.pivots@[c].unwrap() as int;
        assert(chunks[c].packs(padded.subrange(c * cs, (c + 1) * cs)));
        assert((c + 1) * cs - c * cs == cs) by (nonlinear_arith);
        let bytes = padded.subrange(c * cs, (c + 1) * cs);
        assert(bytes.len() == cs);
        assert(div_ceil_spec(bytes.len(), F::spec_cap()) == m.symbol_count);
        assert(bytes.len() == div_ceil_spec(bytes.len(), F::spec_cap()) * F::spec_cap());
        assert(chunks[c].symbols@.len() == m.symbol_count);
        lemma_row_bytes_of_chunk::<F>(chunks[c], bytes, ss);
        assert(row_bytes::<F>(chunks[c].sym_vals(), ss) =~= bytes.subrange(0, ss * cap));
        assert(ss * cap == cs);
        assert(bytes.subrange(0, cs) =~= bytes);
        assert(m.data@[r].dv() == chunks[c].sym_vals());
    }

    // the concatenation over all columns is the padded stream
    lemma_cols_bytes_prefix::<F>(m, padded, cs, cc);
    assert(full_bytes(m) =~= padded.subrange(0, cc * cs));
    assert(padded.subrange(0, cc * cs) =~= padded);

    lemma_padded_marker(data, total);
}

} // verus!
