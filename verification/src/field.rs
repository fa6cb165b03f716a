//! The field abstraction: a uniform arithmetic surface over finite fields.
//!
//! Every backend models its elements by natural numbers. The trait states the
//! field laws as proof obligations, so the encoder and the decoder can be
//! verified once, for every backend.

use vstd::prelude::*;

verus! {

/// 256 raised to the power `n`: the number of byte strings of length `n`.
pub open spec fn pow256(n: nat) -> nat
    decreases n,
{
    if n == 0 {
        1
    } else {
        256 * pow256((n - 1) as nat)
    }
}

/// The value of a byte string read as a little-endian unsigned integer.
pub open spec fn le_nat(s: Seq<u8>) -> nat
    decreases s.len(),
{
    if s.len() == 0 {
        0
    } else {
        (s[0] + 256 * le_nat(s.subrange(1, s.len() as int))) as nat
    }
}

/// A little-endian value is bounded by 256 to the power of the length.
pub proof fn lemma_le_nat_bound(s: Seq<u8>)
    ensures
        le_nat(s) < pow256(s.len()),
    decreases s.len(),
{
    if s.len() > 0 {
        lemma_le_nat_bound(s.subrange(1, s.len() as int));
    }
}

/// A little-endian value is zero exactly when every byte is zero.
pub proof fn lemma_le_nat_zero(s: Seq<u8>)
    ensures
        le_nat(s) == 0 <==> (forall|i: int| 0 <= i < s.len() ==> s[i] == 0),
    decreases s.len(),
{
    if s.len() > 0 {
        let rest = s.subrange(1, s.len() as int);
        lemma_le_nat_zero(rest);
        if le_nat(s) == 0 {
            assert(forall|i: int| 0 <= i < s.len() ==> s[i] == 0) by {
                assert(forall|i: int| 1 <= i < s.len() ==> s[i] == rest[i - 1]);
            }
        } else {
            if forall|i: int| 0 <= i < s.len() ==> s[i] == 0 {
                assert(forall|i: int| 0 <= i < rest.len() ==> rest[i] == s[i + 1]);
                assert(le_nat(s) == 0);
            }
        }
    }
}

/// Appending zero bytes does not change the little-endian value.
pub proof fn lemma_le_nat_pad(s: Seq<u8>, t: Seq<u8>)
    requires
        forall|i: int| 0 <= i < t.len() ==> t[i] == 0,
    ensures
        le_nat(s + t) == le_nat(s),
    decreases s.len(), t.len(),
{
    if s.len() == 0 {
        assert(s + t =~= t);
        lemma_le_nat_zero(t);
        if t.len() > 0 {
            lemma_le_nat_zero(t.subrange(1, t.len() as int));
        }
    } else {
        assert((s + t).subrange(1, (s + t).len() as int) =~= s.subrange(1, s.len() as int) + t);
        lemma_le_nat_pad(s.subrange(1, s.len() as int), t);
    }
}

/// Byte `i` of a little-endian value is the value divided by 256^i, mod 256.
pub proof fn lemma_le_nat_byte(s: Seq<u8>, i: int)
    requires
        0 <= i < s.len(),
    ensures
        s[i] == (le_nat(s) as int / pow256(i as nat) as int) % 256,
    decreases i,
{
    let rest = s.subrange(1, s.len() as int);
    if i == 0 {
        let v = le_nat(s) as int;
        let r = le_nat(rest) as int;
        assert(v == s[0] + 256 * r);
        assert(v / 1 == v);
        assert((s[0] + 256 * r) % 256 == s[0]) by (nonlinear_arith)
            requires
                0 <= s[0] < 256,
                r >= 0,
        ;
    } else {
        lemma_le_nat_byte(rest, i - 1);
        let v = le_nat(s) as int;
        let r = le_nat(rest) as int;
        let p = pow256((i - 1) as nat) as int;
        assert(pow256(i as nat) == 256 * p);
        assert(p > 0) by {
            lemma_pow256_pos((i - 1) as nat);
        }
        assert(v == s[0] + 256 * r);
        assert(v / (256 * p) == r / p) by (nonlinear_arith)
            requires
                0 <= s[0] < 256,
                r >= 0,
                p > 0,
                v == s[0] + 256 * r,
        ;
        assert(rest[i - 1] == s[i]);
    }
}

/// 256^n is positive.
pub proof fn lemma_pow256_pos(n: nat)
    ensures
        pow256(n) >= 1,
    decreases n,
{
    if n > 0 {
        lemma_pow256_pos((n - 1) as nat);
    }
}

/// Two byte strings of equal length with the same little-endian value are
/// equal.
pub proof fn lemma_le_nat_inj(s1: Seq<u8>, s2: Seq<u8>)
    requires
        s1.len() == s2.len(),
        le_nat(s1) == le_nat(s2),
    ensures
        s1 =~= s2,
{
    assert forall|i: int| 0 <= i < s1.len() implies s1[i] == s2[i] by {
        lemma_le_nat_byte(s1, i);
        lemma_le_nat_byte(s2, i);
    }
}

/// A little-endian value splits at any position `k`: the low `k` bytes plus
/// 256^k times the rest.
pub proof fn lemma_le_nat_split(s: Seq<u8>, k: int)
    requires
        0 <= k <= s.len(),
    ensures
        le_nat(s) == le_nat(s.subrange(0, k)) + pow256(k as nat) * le_nat(
            s.subrange(k, s.len() as int),
        ),
    decreases k,
{
    if k == 0 {
        assert(s.subrange(0, 0).len() == 0);
        assert(le_nat(s.subrange(0, 0)) == 0);
        assert(pow256(0) == 1);
        assert(s.subrange(0, s.len() as int) =~= s);
        assert(le_nat(s.subrange(0, k)) == 0);
        assert(pow256(k as nat) == 1);
        assert(le_nat(s.subrange(k, s.len() as int)) == le_nat(s));
        assert(le_nat(s) == le_nat(s.subrange(0, k)) + pow256(k as nat) * le_nat(s.subrange(k, s.len() as int)));
    } else {
        let rest = s.subrange(1, s.len() as int);
        lemma_le_nat_split(rest, k - 1);
        let lo = s.subrange(0, k);
        let lo_rest = lo.subrange(1, lo.len() as int);
        assert(lo_rest =~= rest.subrange(0, k - 1));
        assert(s.subrange(k, s.len() as int) =~= rest.subrange(k - 1, rest.len() as int));
        let a = le_nat(rest.subrange(0, k - 1)) as int;
        let b = le_nat(rest.subrange(k - 1, rest.len() as int)) as int;
        let p = pow256((k - 1) as nat) as int;
        assert(le_nat(rest) == a + p * b);
        assert(le_nat(s) == s[0] + 256 * (a + p * b));
        assert(le_nat(lo) == s[0] + 256 * a);
        assert(pow256(k as nat) == 256 * p);
        assert(s[0] + 256 * (a + p * b) == (s[0] + 256 * a) + (256 * p) * b) by (nonlinear_arith);
        assert(le_nat(s.subrange(k, s.len() as int)) == b);
        assert(le_nat(s) == le_nat(lo) + (256 * p) * b);
        assert(le_nat(s) == le_nat(s.subrange(0, k)) + pow256(k as nat) * le_nat(s.subrange(k, s.len() as int)));
    }
}

/// Byte `j` of the little-endian encoding of the value `v`.
pub open spec fn nat_byte(v: nat, j: int) -> u8 {
    (((v as int / pow256(j as nat) as int) % 256) as u8)
}

/// The little-endian bytes of `v`, `n` of them.
pub open spec fn nat_bytes(v: nat, n: nat) -> Seq<u8> {
    Seq::new(n, |j: int| nat_byte(v, j))
}

/// Reading back the `n` little-endian bytes of `v` gives `v` modulo 256^n.
pub proof fn lemma_le_nat_of_nat_bytes(v: nat, n: nat)
    ensures
        le_nat(nat_bytes(v, n)) == v % pow256(n),
    decreases n,
{
    let s = nat_bytes(v, n);
    if n == 0 {
        assert(s.len() == 0);
        assert(pow256(0) == 1);
        assert((v as int) % 1 == 0) by (nonlinear_arith);
    } else {
        let v1 = v / 256;
        lemma_le_nat_of_nat_bytes(v1, (n - 1) as nat);
        let rest = s.subrange(1, s.len() as int);
        assert forall|j: int| 0 <= j < n - 1 implies rest[j] == nat_bytes(v1, (n - 1) as nat)[j] by {
            assert(rest[j] == nat_byte(v, j + 1));
            lemma_pow256_pos(j as nat);
            vstd::arithmetic::div_mod::lemma_div_denominator(
                v as int,
                256,
                pow256(j as nat) as int,
            );
            assert(pow256((j + 1) as nat) == 256 * pow256(j as nat));
            assert(nat_byte(v, j + 1) == nat_byte(v1, j));
        }
        assert(rest =~= nat_bytes(v1, (n - 1) as nat));
        assert(s[0] == nat_byte(v, 0));
        assert(pow256(0) == 1);
        assert((v as int) / 1 == v);
        assert(s[0] == (v as int % 256) as u8);
        assert(le_nat(s) == s[0] + 256 * le_nat(rest));
        assert(le_nat(rest) == v1 % pow256((n - 1) as nat));
        lemma_pow256_pos((n - 1) as nat);
        vstd::arithmetic::div_mod::lemma_breakdown(v as int, 256, pow256((n - 1) as nat) as int);
        assert(pow256(n) == 256 * pow256((n - 1) as nat));
        assert(v as int % (256 * pow256((n - 1) as nat) as int) == 256 * ((v as int / 256) % pow256(
            (n - 1) as nat,
        ) as int) + v as int % 256);
    }
}

/// Packing at most `n` bytes into a value and unpacking `n` bytes again
/// yields the original bytes followed by zero padding.
pub proof fn lemma_byte_round_trip(b: Seq<u8>, n: nat)
    requires
        b.len() <= n,
    ensures
        nat_bytes(le_nat(b), n) == b + Seq::new((n - b.len()) as nat, |i: int| 0u8),
{
    let pad = Seq::new((n - b.len()) as nat, |i: int| 0u8);
    let padded = b + pad;
    lemma_le_nat_pad(b, pad);
    lemma_le_nat_bound(padded);
    lemma_small_mod_le_nat(padded, n);
    lemma_le_nat_of_nat_bytes(le_nat(b), n);
    lemma_le_nat_inj(nat_bytes(le_nat(b), n), padded);
}

/// A little-endian value of `n` bytes is below 256^n, so the modulo is a
/// no-op.
proof fn lemma_small_mod_le_nat(s: Seq<u8>, n: nat)
    requires
        s.len() == n,
    ensures
        le_nat(s) % pow256(n) == le_nat(s),
{
    lemma_le_nat_bound(s);
    vstd::arithmetic::div_mod::lemma_small_mod(le_nat(s), pow256(n));
}

/// A finite field whose elements are modelled by natural numbers.
///
/// `val` maps an element to its model value and `in_range` bounds the model
/// (for GF(2^8): below 256; for a prime field: below the modulus). The spec
/// functions `fadd`, `fsub`, `fneg` and `fmul` are the field operations on
/// model values; zero and one are the model values 0 and 1. The proof
/// obligations below oblige every backend to the field laws.
pub trait Field: Sized + Copy {
    /// The model value of this element.
    spec fn val(self) -> nat;

    /// Whether this element is a well-formed representation.
    spec fn wf(self) -> bool;

    /// Whether a model value is a field element.
    spec fn in_range(a: nat) -> bool;

    /// Field addition on model values.
    spec fn fadd(a: nat, b: nat) -> nat;

    /// Field subtraction on model values.
    spec fn fsub(a: nat, b: nat) -> nat;

    /// Field additive inverse on model values.
    spec fn fneg(a: nat) -> nat;

    /// Field multiplication on model values.
    spec fn fmul(a: nat, b: nat) -> nat;

    /// The number of bytes of arbitrary content that one element can carry
    /// losslessly.
    spec fn spec_cap() -> nat;

    /// A well-formed element's model value is a field element.
    proof fn wf_in_range(self)
        requires
            self.wf(),
        ensures
            Self::in_range(self.val()),
    ;

    /// Zero and one are field elements, and differ.
    proof fn constants_in_range()
        ensures
            Self::in_range(0),
            Self::in_range(1),
    ;

    /// One byte always fits into an element.
    proof fn cap_at_least_one()
        ensures
            Self::spec_cap() >= 1,
    ;

    /// The operations stay within the field.
    proof fn ops_in_range(a: nat, b: nat)
        requires
            Self::in_range(a),
            Self::in_range(b),
        ensures
            Self::in_range(Self::fadd(a, b)),
            Self::in_range(Self::fsub(a, b)),
            Self::in_range(Self::fneg(a)),
            Self::in_range(Self::fmul(a, b)),
    ;

    /// Zero is the additive identity.
    proof fn add_zero(a: nat)
        requires
            Self::in_range(a),
        ensures
            Self::fadd(a, 0) == a,
            Self::fadd(0, a) == a,
    ;

    /// Addition is commutative.
    proof fn add_comm(a: nat, b: nat)
        requires
            Self::in_range(a),
            Self::in_range(b),
        ensures
            Self::fadd(a, b) == Self::fadd(b, a),
    ;

    /// Addition is associative.
    proof fn add_assoc(a: nat, b: nat, c: nat)
        requires
            Self::in_range(a),
            Self::in_range(b),
            Self::in_range(c),
        ensures
            Self::fadd(Self::fadd(a, b), c) == Self::fadd(a, Self::fadd(b, c)),
    ;

    /// Adding the additive inverse yields zero.
    proof fn add_neg(a: nat)
        requires
            Self::in_range(a),
        ensures
            Self::fadd(a, Self::fneg(a)) == 0,
    ;

    /// Subtraction is addition of the additive inverse.
    proof fn sub_is_add_neg(a: nat, b: nat)
        requires
            Self::in_range(a),
            Self::in_range(b),
        ensures
            Self::fsub(a, b) == Self::fadd(a, Self::fneg(b)),
    ;

    /// Subtracting an element from itself yields zero.
    proof fn sub_self(a: nat)
        requires
            Self::in_range(a),
        ensures
            Self::fsub(a, a) == 0,
    ;

    /// Subtracting zero changes nothing.
    proof fn sub_zero(a: nat)
        requires
            Self::in_range(a),
        ensures
            Self::fsub(a, 0) == a,
    ;

    /// Zero annihilates under multiplication.
    proof fn mul_zero(a: nat)
        requires
            Self::in_range(a),
        ensures
            Self::fmul(a, 0) == 0,
            Self::fmul(0, a) == 0,
    ;

    /// One is the multiplicative identity.
    proof fn mul_one(a: nat)
        requires
            Self::in_range(a),
        ensures
            Self::fmul(a, 1) == a,
            Self::fmul(1, a) == a,
    ;

    /// Multiplication is commutative.
    proof fn mul_comm(a: nat, b: nat)
        requires
            Self::in_range(a),
            Self::in_range(b),
        ensures
            Self::fmul(a, b) == Self::fmul(b, a),
    ;

    /// Multiplication is associative.
    proof fn mul_assoc(a: nat, b: nat, c: nat)
        requires
            Self::in_range(a),
            Self::in_range(b),
            Self::in_range(c),
        ensures
            Self::fmul(Self::fmul(a, b), c) == Self::fmul(a, Self::fmul(b, c)),
    ;

    /// Multiplication distributes over addition.
    proof fn mul_distrib(a: nat, b: nat, c: nat)
        requires
            Self::in_range(a),
            Self::in_range(b),
            Self::in_range(c),
        ensures
            Self::fmul(a, Self::fadd(b, c)) == Self::fadd(Self::fmul(a, b), Self::fmul(a, c)),
    ;

    /// Returns the additive identity element.
    fn zero() -> (r: Self)
        ensures
            r.wf(),
            r.val() == 0,
    ;

    /// Returns the multiplicative identity element.
    fn one() -> (r: Self)
        ensures
            r.wf(),
            r.val() == 1,
    ;

    /// The number of bytes of arbitrary content that one element can carry
    /// losslessly.
    fn safe_capacity() -> (r: usize)
        ensures
            r == Self::spec_cap(),
            r >= 1,
    ;

    /// Tests for the additive identity.
    fn is_zero(&self) -> (r: bool)
        requires
            self.wf(),
        ensures
            r == (self.val() == 0),
    ;

    /// Field addition.
    fn add(self, rhs: Self) -> (r: Self)
        requires
            self.wf(),
            rhs.wf(),
        ensures
            r.wf(),
            r.val() == Self::fadd(self.val(), rhs.val()),
    ;

    /// Field subtraction.
    fn sub(self, rhs: Self) -> (r: Self)
        requires
            self.wf(),
            rhs.wf(),
        ensures
            r.wf(),
            r.val() == Self::fsub(self.val(), rhs.val()),
    ;

    /// Field multiplication.
    fn mul(self, rhs: Self) -> (r: Self)
        requires
            self.wf(),
            rhs.wf(),
        ensures
            r.wf(),
            r.val() == Self::fmul(self.val(), rhs.val()),
    ;

    /// Multiplicative inverse; `None` exactly for the zero element.
    fn inv(&self) -> (r: Option<Self>)
        requires
            self.wf(),
        ensures
            r is Some <==> self.val() != 0,
            r is Some ==> r.unwrap().wf() && Self::fmul(self.val(), r.unwrap().val()) == 1
                && Self::fmul(r.unwrap().val(), self.val()) == 1,
    ;

    /// Builds an element from at most `safe_capacity` little-endian bytes,
    /// zero-extended.
    fn from_bytes(bytes: &[u8]) -> (r: Self)
        requires
            bytes@.len() <= Self::spec_cap(),
        ensures
            r.wf(),
            r.val() == le_nat(bytes@),
    ;

    /// The low `safe_capacity` little-endian bytes of the element's value.
    fn to_bytes(&self) -> (r: Vec<u8>)
        requires
            self.wf(),
        ensures
            r@.len() == Self::spec_cap(),
            le_nat(r@) == self.val() % pow256(Self::spec_cap()),
    ;
}

/// The additive inverse is unique: anything that sums with `x` to zero is
/// `fneg(x)`.
pub proof fn lemma_neg_unique<F: Field>(x: nat, u: nat)
    requires
        F::in_range(x),
        F::in_range(u),
        F::fadd(x, u) == 0,
    ensures
        u == F::fneg(x),
{
    F::constants_in_range();
    F::ops_in_range(x, x);
    F::add_zero(u);
    F::add_neg(x);
    F::add_assoc(u, x, F::fneg(x));
    F::add_comm(u, x);
    F::add_zero(F::fneg(x));
    F::add_comm(u, 0);
    assert(F::fadd(u, F::fadd(x, F::fneg(x))) == u);
    assert(F::fadd(F::fadd(u, x), F::fneg(x)) == u);
    assert(F::fadd(F::fadd(x, u), F::fneg(x)) == u);
}

/// Multiplication moves through the additive inverse.
pub proof fn lemma_mul_neg<F: Field>(c: nat, v: nat)
    requires
        F::in_range(c),
        F::in_range(v),
    ensures
        F::fmul(c, F::fneg(v)) == F::fneg(F::fmul(c, v)),
{
    F::constants_in_range();
    F::ops_in_range(c, v);
    F::ops_in_range(v, v);
    F::mul_distrib(c, v, F::fneg(v));
    F::add_neg(v);
    F::mul_zero(c);
    F::ops_in_range(c, F::fneg(v));
    lemma_neg_unique::<F>(F::fmul(c, v), F::fmul(c, F::fneg(v)));
}

/// Multiplication distributes over subtraction.
pub proof fn lemma_mul_sub<F: Field>(c: nat, u: nat, v: nat)
    requires
        F::in_range(c),
        F::in_range(u),
        F::in_range(v),
    ensures
        F::fmul(c, F::fsub(u, v)) == F::fsub(F::fmul(c, u), F::fmul(c, v)),
{
    F::ops_in_range(u, v);
    F::ops_in_range(c, u);
    F::ops_in_range(c, v);
    F::sub_is_add_neg(u, v);
    F::sub_is_add_neg(F::fmul(c, u), F::fmul(c, v));
    F::ops_in_range(v, v);
    F::mul_distrib(c, u, F::fneg(v));
    lemma_mul_neg::<F>(c, v);
}

/// Sums of differences regroup into a difference of sums.
pub proof fn lemma_sub_add_shuffle<F: Field>(a: nat, b: nat, c: nat, d: nat)
    requires
        F::in_range(a),
        F::in_range(b),
        F::in_range(c),
        F::in_range(d),
    ensures
        F::fadd(F::fsub(a, b), F::fsub(c, d)) == F::fsub(F::fadd(a, c), F::fadd(b, d)),
{
    F::constants_in_range();
    F::ops_in_range(a, b);
    F::ops_in_range(c, d);
    F::ops_in_range(b, b);
    F::ops_in_range(d, d);
    F::ops_in_range(a, c);
    F::ops_in_range(b, d);
    F::sub_is_add_neg(a, b);
    F::sub_is_add_neg(c, d);
    F::sub_is_add_neg(F::fadd(a, c), F::fadd(b, d));
    let nb = F::fneg(b);
    let nd = F::fneg(d);
    // fneg(b + d) == fneg(b) + fneg(d)
    F::ops_in_range(nb, nd);
    F::add_neg(b);
    F::add_neg(d);
    assert(F::fadd(F::fadd(b, d), F::fadd(nb, nd)) == 0) by {
        // (b + d) + (nb + nd) == (b + nb) + (d + nd) == 0
        lemma_add_shuffle4::<F>(b, d, nb, nd);
        F::constants_in_range();
        F::add_zero(0);
    }
    lemma_neg_unique::<F>(F::fadd(b, d), F::fadd(nb, nd));
    // (a + nb) + (c + nd) == (a + c) + (nb + nd)
    lemma_add_shuffle4::<F>(a, nb, c, nd);
}

/// Four-way regrouping of a sum: (a + b) + (c + d) == (a + c) + (b + d).
pub proof fn lemma_add_shuffle4<F: Field>(a: nat, b: nat, c: nat, d: nat)
    requires
        F::in_range(a),
        F::in_range(b),
        F::in_range(c),
        F::in_range(d),
    ensures
        F::fadd(F::fadd(a, b), F::fadd(c, d)) == F::fadd(F::fadd(a, c), F::fadd(b, d)),
{
    F::ops_in_range(a, b);
    F::ops_in_range(c, d);
    F::ops_in_range(a, c);
    F::ops_in_range(b, d);
    F::ops_in_range(b, c);
    F::add_assoc(F::fadd(a, b), c, d);
    F::add_assoc(a, b, c);
    F::add_comm(b, c);
    F::add_assoc(a, c, b);
    F::add_assoc(F::fadd(a, c), b, d);
}

} // verus!
