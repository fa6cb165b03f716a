//! The coded packet: a coding vector paired with a data vector, with the row
//! operations that Gaussian elimination needs.

use vstd::prelude::*;

use crate::field::Field;

verus! {

/// The model values of a sequence of field elements.
pub open spec fn vals<F: Field>(s: Seq<F>) -> Seq<nat> {
    Seq::new(s.len(), |i: int| s[i].val())
}

/// Whether every element of a sequence is well-formed.
pub open spec fn all_wf<F: Field>(s: Seq<F>) -> bool {
    forall|i: int| 0 <= i < s.len() ==> (#[trigger] s[i]).wf()
}

/// Every value of a well-formed sequence is a field element.
pub proof fn lemma_all_wf_in_range<F: Field>(s: Seq<F>)
    requires
        all_wf(s),
    ensures
        forall|i: int| 0 <= i < s.len() ==> F::in_range(#[trigger] vals(s)[i]),
{
    assert forall|i: int| 0 <= i < s.len() implies F::in_range(#[trigger] vals(s)[i]) by {
        s[i].wf_in_range();
    }
}

/// The sequence scaled elementwise by `k` in the field `F`.
pub open spec fn scaled<F: Field>(k: nat, s: Seq<nat>) -> Seq<nat> {
    Seq::new(s.len(), |i: int| F::fmul(k, s[i]))
}

/// `dst` minus `factor` times `src`, elementwise in the field `F`.
pub open spec fn sub_scaled<F: Field>(dst: Seq<nat>, src: Seq<nat>, factor: nat) -> Seq<nat> {
    Seq::new(dst.len(), |i: int| F::fsub(dst[i], F::fmul(factor, src[i])))
}

/// Position `c` holds the leading (first non-zero) value of the sequence.
pub open spec fn is_lead(s: Seq<nat>, c: int) -> bool {
    &&& 0 <= c < s.len()
    &&& s[c] != 0
    &&& forall|j: int| 0 <= j < c ==> s[j] == 0
}

/// The number of non-zero values in the sequence.
pub open spec fn count_nonzero(s: Seq<nat>) -> nat
    decreases s.len(),
{
    if s.len() == 0 {
        0
    } else {
        count_nonzero(s.drop_last()) + (if s.last() != 0 {
            1nat
        } else {
            0nat
        })
    }
}

/// Multiplies every element of a vector by `k`, in place.
fn scale_in_place<F: Field>(v: &mut Vec<F>, k: F)
    requires
        all_wf(old(v)@),
        k.wf(),
    ensures
        all_wf(final(v)@),
        vals(final(v)@) == scaled::<F>(k.val(), vals(old(v)@)),
{
    let mut i: usize = 0;
    let n = v.len();
    while i < n
        invariant
            i <= n,
            n == v@.len(),
            v@.len() == old(v)@.len(),
            k.wf(),
            all_wf(v@),
            forall|j: int| 0 <= j < i ==> vals(v@)[j] == F::fmul(k.val(), vals(old(v)@)[j]),
            forall|j: int| i <= j < n ==> v@[j] == old(v)@[j],
        decreases n - i,
    {
        let ghost prev = v@;
        let x = k.mul(v[i]);
        v.set(i, x);
        proof {
            assert(v@ == prev.update(i as int, x));
            assert forall|j: int| 0 <= j < i + 1 implies vals(v@)[j] == F::fmul(
                k.val(),
                vals(old(v)@)[j],
            ) by {
                if j < i {
                    assert(v@[j] == prev[j]);
                    assert(vals(prev)[j] == F::fmul(k.val(), vals(old(v)@)[j]));
                } else {
                    assert(v@[j] == x);
                    assert(prev[j] == old(v)@[j]);
                }
            }
            assert(all_wf(v@)) by {
                assert(forall|j: int|
                    0 <= j < n && j != i ==> v@[j] == prev[j] && (#[trigger] prev[j]).wf());
            }
        }
        i = i + 1;
    }
    proof {
        assert(vals(v@) =~= scaled::<F>(k.val(), vals(old(v)@)));
    }
}

/// Replaces every element of `dst` with itself minus `factor` times the
/// matching element of `src`, in place.
fn sub_scaled_in_place<F: Field>(dst: &mut Vec<F>, src: &Vec<F>, factor: F)
    requires
        all_wf(old(dst)@),
        all_wf(src@),
        factor.wf(),
        src@.len() == old(dst)@.len(),
    ensures
        all_wf(final(dst)@),
        vals(final(dst)@) == sub_scaled::<F>(vals(old(dst)@), vals(src@), factor.val()),
{
    let mut i: usize = 0;
    let n = dst.len();
    while i < n
        invariant
            i <= n,
            n == dst@.len(),
            dst@.len() == old(dst)@.len(),
            src@.len() == n,
            factor.wf(),
            all_wf(src@),
            all_wf(dst@),
            forall|j: int|
                0 <= j < i ==> vals(dst@)[j] == F::fsub(
                    vals(old(dst)@)[j],
                    F::fmul(factor.val(), vals(src@)[j]),
                ),
            forall|j: int| i <= j < n ==> dst@[j] == old(dst)@[j],
        decreases n - i,
    {
        let ghost prev = dst@;
        let x = dst[i].sub(factor.mul(src[i]));
        dst.set(i, x);
        proof {
            assert(dst@ == prev.update(i as int, x));
            assert forall|j: int| 0 <= j < i + 1 implies vals(dst@)[j] == F::fsub(
                vals(old(dst)@)[j],
                F::fmul(factor.val(), vals(src@)[j]),
            ) by {
                if j < i {
                    assert(dst@[j] == prev[j]);
                    assert(vals(prev)[j] == F::fsub(
                        vals(old(dst)@)[j],
                        F::fmul(factor.val(), vals(src@)[j]),
                    ));
                } else {
                    assert(dst@[j] == x);
                    assert(prev[j] == old(dst)@[j]);
                }
            }
            assert(all_wf(dst@)) by {
                assert(forall|j: int|
                    0 <= j < n && j != i ==> dst@[j] == prev[j] && (#[trigger] prev[j]).wf());
            }
        }
        i = i + 1;
    }
    proof {
        assert(vals(dst@) =~= sub_scaled::<F>(vals(old(dst)@), vals(src@), factor.val()));
    }
}

/// A coded packet: a coding vector over the source chunks, and the data
/// symbols of the corresponding linear combination of the chunks.
#[derive(Debug, Clone)]
pub struct RLNCPacket<F: Field> {
    /// The coding vector (coefficients).
    pub coding_vector: Vec<F>,
    /// The actual data payload, containing a linear combination of the
    /// original data.
    pub data: Vec<F>,
}

impl<F: Field> RLNCPacket<F> {
    /// The model values of the coding vector.
    pub open spec fn cv(self) -> Seq<nat> {
        vals(self.coding_vector@)
    }

    /// The model values of the data vector.
    pub open spec fn dv(self) -> Seq<nat> {
        vals(self.data@)
    }

    /// Every element of the packet is well-formed.
    pub open spec fn wf(self) -> bool {
        all_wf(self.coding_vector@) && all_wf(self.data@)
    }

    /// Returns the number of non-zero coefficients in the coding vector.
    pub fn degree(&self) -> (r: usize)
        requires
            self.wf(),
        ensures
            r == count_nonzero(self.cv()),
    {
        let mut count: usize = 0;
        let mut i: usize = 0;
        let n = self.coding_vector.len();
        while i < n
            invariant
                i <= n,
                n == self.coding_vector@.len(),
                self.wf(),
                count == count_nonzero(self.cv().take(i as int)),
                count <= i,
            decreases n - i,
        {
            proof {
                assert(self.cv().take(i + 1).drop_last() =~= self.cv().take(i as int));
                assert(self.cv().take(i + 1).last() == self.cv()[i as int]);
            }
            if !self.coding_vector[i].is_zero() {
                count = count + 1;
            }
            i = i + 1;
        }
        proof {
            assert(self.cv().take(n as int) =~= self.cv());
        }
        count
    }

    /// Returns the index of the leading (first non-zero) coefficient, or
    /// `None` if the coding vector is all zero.
    pub fn leading_coefficient(&self) -> (r: Option<usize>)
        requires
            self.wf(),
        ensures
            match r {
                Some(c) => is_lead(self.cv(), c as int),
                None => forall|j: int| 0 <= j < self.cv().len() ==> self.cv()[j] == 0,
            },
    {
        let mut i: usize = 0;
        let n = self.coding_vector.len();
        while i < n
            invariant
                i <= n,
                n == self.coding_vector@.len(),
                self.wf(),
                forall|j: int| 0 <= j < i ==> self.cv()[j] == 0,
            decreases n - i,
        {
            if !self.coding_vector[i].is_zero() {
                return Some(i);
            }
            i = i + 1;
        }
        None
    }

    /// Scales the packet so the leading coefficient becomes one: every entry
    /// of both vectors is multiplied by the inverse of the leading
    /// coefficient. A packet with an all-zero coding vector is unchanged.
    pub fn normalize(&mut self)
        requires
            old(self).wf(),
        ensures
            final(self).wf(),
            final(self).cv().len() == old(self).cv().len(),
            final(self).dv().len() == old(self).dv().len(),
            (forall|j: int| 0 <= j < old(self).cv().len() ==> old(self).cv()[j] == 0)
                ==> *final(self) == *old(self),
            forall|c: int|
                is_lead(old(self).cv(), c) ==> exists|ik: nat|
                    {
                        &&& F::in_range(ik)
                        &&& F::fmul(old(self).cv()[c], ik) == 1
                        &&& final(self).cv() == scaled::<F>(ik, old(self).cv())
                        &&& final(self).dv() == scaled::<F>(ik, old(self).dv())
                    },
    {
        let lead = self.leading_coefficient();
        match lead {
            None => {
            },
            Some(col) => {
                let k = self.coding_vector[col];
                proof {
                    assert(k.val() != 0);
                }
                match k.inv() {
                    None => {
                        proof {
                            assert(false);
                        }
                    },
                    Some(ik) => {
                        scale_in_place(&mut self.coding_vector, ik);
                        scale_in_place(&mut self.data, ik);
                        proof {
                            assert forall|c: int| is_lead(old(self).cv(), c) implies exists|
                                ikv: nat,
                            |
                                {
                                    &&& F::in_range(ikv)
                                    &&& F::fmul(old(self).cv()[c], ikv) == 1
                                    &&& self.cv() == scaled::<F>(ikv, old(self).cv())
                                    &&& self.dv() == scaled::<F>(ikv, old(self).dv())
                                } by {
                                assert(c == col);
                                ik.wf_in_range();
                                assert(F::in_range(ik.val()) && F::fmul(old(self).cv()[c], ik.val())
                                    == 1 && self.cv() == scaled::<F>(ik.val(), old(self).cv())
                                    && self.dv() == scaled::<F>(ik.val(), old(self).dv()));
                            }
                        }
                    },
                }
            },
        }
    }

    /// Returns a packet holding the same coding vector and data.
    pub fn duplicate(&self) -> (r: Self)
        ensures
            r.coding_vector@ == self.coding_vector@,
            r.data@ == self.data@,
    {
        let mut cv: Vec<F> = Vec::new();
        let mut i: usize = 0;
        let n = self.coding_vector.len();
        while i < n
            invariant
                i <= n,
                n == self.coding_vector@.len(),
                cv@.len() == i,
                forall|j: int| 0 <= j < i ==> cv@[j] == self.coding_vector@[j],
            decreases n - i,
        {
            cv.push(self.coding_vector[i]);
            i = i + 1;
        }
        let mut dv: Vec<F> = Vec::new();
        let mut i: usize = 0;
        let n = self.data.len();
        while i < n
            invariant
                i <= n,
                n == self.data@.len(),
                dv@.len() == i,
                forall|j: int| 0 <= j < i ==> dv@[j] == self.data@[j],
            decreases n - i,
        {
            dv.push(self.data[i]);
            i = i + 1;
        }
        proof {
            assert(cv@ =~= self.coding_vector@);
            assert(dv@ =~= self.data@);
        }
        RLNCPacket { coding_vector: cv, data: dv }
    }

    /// Subtracts `factor` times the `src` row from this row, elementwise over
    /// both the coding vector and the data vector.
    pub fn subtract_row(&mut self, src: &RLNCPacket<F>, factor: F)
        requires
            old(self).wf(),
            src.wf(),
            factor.wf(),
            src.cv().len() == old(self).cv().len(),
            src.dv().len() == old(self).dv().len(),
        ensures
            final(self).wf(),
            final(self).cv() == sub_scaled::<F>(old(self).cv(), src.cv(), factor.val()),
            final(self).dv() == sub_scaled::<F>(old(self).dv(), src.dv(), factor.val()),
    {
        sub_scaled_in_place(&mut self.coding_vector, &src.coding_vector, factor);
        sub_scaled_in_place(&mut self.data, &src.data, factor);
    }
}

} // verus!
