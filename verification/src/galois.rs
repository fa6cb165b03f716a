//! The Galois field GF(2^8) with the irreducible polynomial
//! x^8 + x^4 + x^3 + x^2 + 1.
//!
//! An element is one byte. Addition and subtraction are bitwise XOR;
//! multiplication is carry-less polynomial multiplication reduced modulo the
//! field polynomial, computed bit by bit.

use vstd::prelude::*;
use vstd::relations::injective_on;
use vstd::set_lib::lemma_map_size;

use crate::field::{le_nat, pow256, Field};

verus! {

/// Multiplication by the polynomial x, reduced modulo the field polynomial.
/// When the high bit is set, shifting out x^8 is compensated by XOR-ing the
/// low bits of the polynomial, 0x1d.
pub open spec fn xt(v: u8) -> u8 {
    if v & 0x80 == 0x80 {
        (v << 1) ^ 0x1d
    } else {
        v << 1
    }
}

/// Carry-less product of `a` and `b` modulo the field polynomial: the sum,
/// over every set bit k of `b`, of x^k * a.
pub open spec fn pmul(a: u8, b: u8) -> u8 {
    0 ^ (if b & 0x01 != 0 { a } else { 0 })
      ^ (if b & 0x02 != 0 { xt(a) } else { 0 })
      ^ (if b & 0x04 != 0 { xt(xt(a)) } else { 0 })
      ^ (if b & 0x08 != 0 { xt(xt(xt(a))) } else { 0 })
      ^ (if b & 0x10 != 0 { xt(xt(xt(xt(a)))) } else { 0 })
      ^ (if b & 0x20 != 0 { xt(xt(xt(xt(xt(a))))) } else { 0 })
      ^ (if b & 0x40 != 0 { xt(xt(xt(xt(xt(xt(a)))))) } else { 0 })
      ^ (if b & 0x80 != 0 { xt(xt(xt(xt(xt(xt(xt(a))))))) } else { 0 })
}

/// GF(2^8) field element.
#[derive(Default, Clone, Copy, Debug, PartialEq, Eq, Structural)]
pub struct GF256 {
    pub p: u8,
}

impl GF256 {
    /// Field addition: bitwise XOR.
    pub open spec fn sadd(a: GF256, b: GF256) -> GF256 {
        GF256 { p: a.p ^ b.p }
    }

    /// Field multiplication: carry-less product modulo the field polynomial.
    pub open spec fn smul(a: GF256, b: GF256) -> GF256 {
        GF256 { p: pmul(a.p, b.p) }
    }

    /// Creates an element from a byte value.
    pub fn new(p: u8) -> (r: Self)
        ensures
            r.p == p,
    {
        Self { p }
    }

    /// Returns the additive identity element (0).
    pub fn zero() -> (r: Self)
        ensures
            r.p == 0,
    {
        Self { p: 0 }
    }

    /// Returns the multiplicative identity element (1).
    pub fn one() -> (r: Self)
        ensures
            r.p == 1,
    {
        Self { p: 1 }
    }

    /// Returns the primitive element x of the field.
    pub fn primitive_element() -> (r: Self)
        ensures
            r.p == 2,
    {
        Self { p: 2 }
    }

    /// Performs addition (XOR) of two elements.
    pub fn add(self, rhs: Self) -> (r: Self)
        ensures
            r == Self::sadd(self, rhs),
    {
        Self { p: self.p ^ rhs.p }
    }

    /// Computes the additive inverse (the element itself, as XOR is
    /// self-inverse).
    pub fn neg(self) -> (r: Self)
        ensures
            r == self,
    {
        self
    }

    /// Performs subtraction (XOR) of two elements.
    pub fn sub(self, rhs: Self) -> (r: Self)
        ensures
            r == Self::sadd(self, rhs),
    {
        Self { p: self.p ^ rhs.p }
    }

    /// Multiplication by x, reduced modulo the field polynomial.
    fn xtime(v: u8) -> (r: u8)
        ensures
            r == xt(v),
    {
        if v & 0x80 == 0x80 {
            (v << 1) ^ 0x1d
        } else {
            v << 1
        }
    }

    /// Performs multiplication of two elements, bit by bit.
    pub fn mul(self, rhs: Self) -> (r: Self)
        ensures
            r == Self::smul(self, rhs),
    {
        let b = rhs.p;
        let t0 = self.p;
        let t1 = Self::xtime(t0);
        let t2 = Self::xtime(t1);
        let t3 = Self::xtime(t2);
        let t4 = Self::xtime(t3);
        let t5 = Self::xtime(t4);
        let t6 = Self::xtime(t5);
        let t7 = Self::xtime(t6);
        let mut acc: u8 = 0;
        acc = acc ^ (if b & 0x01 != 0 { t0 } else { 0 });
        acc = acc ^ (if b & 0x02 != 0 { t1 } else { 0 });
        acc = acc ^ (if b & 0x04 != 0 { t2 } else { 0 });
        acc = acc ^ (if b & 0x08 != 0 { t3 } else { 0 });
        acc = acc ^ (if b & 0x10 != 0 { t4 } else { 0 });
        acc = acc ^ (if b & 0x20 != 0 { t5 } else { 0 });
        acc = acc ^ (if b & 0x40 != 0 { t6 } else { 0 });
        acc = acc ^ (if b & 0x80 != 0 { t7 } else { 0 });
        Self { p: acc }
    }
}

/// Addition is commutative.
pub proof fn lemma_add_comm(a: GF256, b: GF256)
    ensures
        GF256::sadd(a, b) == GF256::sadd(b, a),
{
    let x = a.p;
    let y = b.p;
    assert(x ^ y == y ^ x) by (bit_vector);
}

/// Addition is associative.
pub proof fn lemma_add_assoc(a: GF256, b: GF256, c: GF256)
    ensures
        GF256::sadd(GF256::sadd(a, b), c) == GF256::sadd(a, GF256::sadd(b, c)),
{
    let x = a.p;
    let y = b.p;
    let z = c.p;
    assert((x ^ y) ^ z == x ^ (y ^ z)) by (bit_vector);
}

/// Zero is the additive identity.
pub proof fn lemma_add_zero(a: GF256)
    ensures
        GF256::sadd(a, GF256 { p: 0 }) == a,
        GF256::sadd(GF256 { p: 0 }, a) == a,
{
    let x = a.p;
    assert(x ^ 0 == x) by (bit_vector);
    assert(0 ^ x == x) by (bit_vector);
}

/// Every element is its own additive inverse: x + (-x) = x + x = zero.
pub proof fn lemma_add_self_inverse(a: GF256)
    ensures
        GF256::sadd(a, a) == (GF256 { p: 0 }),
{
    let x = a.p;
    assert(x ^ x == 0) by (bit_vector);
}

/// Multiplication is commutative.
#[verifier::rlimit(100)]
pub proof fn lemma_mul_comm(a: GF256, b: GF256)
    ensures
        GF256::smul(a, b) == GF256::smul(b, a),
{
    let x = a.p;
    let y = b.p;
    assert(pmul(x, y) == pmul(y, x)) by (bit_vector);
}

/// One is the multiplicative identity.
pub proof fn lemma_mul_one(a: GF256)
    ensures
        GF256::smul(a, GF256 { p: 1 }) == a,
        GF256::smul(GF256 { p: 1 }, a) == a,
{
    let x = a.p;
    assert(pmul(x, 1) == x) by (bit_vector);
    assert(pmul(1, x) == x) by (bit_vector);
}

/// Zero annihilates under multiplication.
pub proof fn lemma_mul_zero(a: GF256)
    ensures
        GF256::smul(a, GF256 { p: 0 }) == (GF256 { p: 0 }),
        GF256::smul(GF256 { p: 0 }, a) == (GF256 { p: 0 }),
{
    let x = a.p;
    assert(pmul(x, 0) == 0) by (bit_vector);
    assert(pmul(0, x) == 0) by (bit_vector);
}

/// Multiplication distributes over addition.
pub proof fn lemma_mul_distrib(a: GF256, b: GF256, c: GF256)
    ensures
        GF256::smul(a, GF256::sadd(b, c)) == GF256::sadd(GF256::smul(a, b), GF256::smul(a, c)),
{
    let x = a.p;
    let y = b.p;
    let z = c.p;
    assert(pmul(x, y ^ z) == pmul(x, y) ^ pmul(x, z)) by (bit_vector);
}

/// Multiplying the first factor by x multiplies the product by x.
proof fn lemma_pmul_xt_left(x: u8, z: u8)
    by (bit_vector)
    ensures
        pmul(xt(x), z) == xt(pmul(x, z)),
{
}

/// The factor x can move from one operand to the other.
proof fn lemma_pmul_xt_swap(x: u8, y: u8)
    by (bit_vector)
    ensures
        pmul(x, xt(y)) == pmul(xt(x), y),
{
}

/// The product is linear in its second operand.
proof fn lemma_pmul_linear(x: u8, u: u8, v: u8)
    by (bit_vector)
    ensures
        pmul(x, u ^ v) == pmul(x, u) ^ pmul(x, v),
{
}

/// Zero annihilates as a second operand.
proof fn lemma_pmul_zero_right(x: u8)
    by (bit_vector)
    ensures
        pmul(x, 0) == 0,
{
}

/// Multiplication is associative.
pub proof fn lemma_mul_assoc(a: GF256, b: GF256, c: GF256)
    ensures
        GF256::smul(GF256::smul(a, b), c) == GF256::smul(a, GF256::smul(b, c)),
{
    let x = a.p;
    let y = b.p;
    let z = c.p;
    let pxy = pmul(x, y);

    // Iterated applications of x on the left factor: xt^k(x * y) == xt^k(x) * y.
    lemma_pmul_xt_left(x, y);
    lemma_pmul_xt_left(xt(x), y);
    lemma_pmul_xt_left(xt(xt(x)), y);
    lemma_pmul_xt_left(xt(xt(xt(x))), y);
    lemma_pmul_xt_left(xt(xt(xt(xt(x)))), y);
    lemma_pmul_xt_left(xt(xt(xt(xt(xt(x))))), y);
    lemma_pmul_xt_left(xt(xt(xt(xt(xt(xt(x)))))), y);
    assert(xt(pxy) == pmul(xt(x), y));
    assert(xt(xt(pxy)) == pmul(xt(xt(x)), y));
    assert(xt(xt(xt(pxy))) == pmul(xt(xt(xt(x))), y));
    assert(xt(xt(xt(xt(pxy)))) == pmul(xt(xt(xt(xt(x)))), y));
    assert(xt(xt(xt(xt(xt(pxy))))) == pmul(xt(xt(xt(xt(xt(x))))), y));
    assert(xt(xt(xt(xt(xt(xt(pxy)))))) == pmul(xt(xt(xt(xt(xt(xt(x)))))), y));
    assert(xt(xt(xt(xt(xt(xt(xt(pxy))))))) == pmul(xt(xt(xt(xt(xt(xt(xt(x))))))), y));

    // Move powers of x across the product: x * (xt^k(y)) == xt^k(x) * y.
    lemma_pmul_xt_swap(x, y);
    lemma_pmul_xt_swap(x, xt(y));
    lemma_pmul_xt_swap(xt(x), y);
    lemma_pmul_xt_swap(x, xt(xt(y)));
    lemma_pmul_xt_swap(xt(x), xt(y));
    lemma_pmul_xt_swap(xt(xt(x)), y);
    lemma_pmul_xt_swap(x, xt(xt(xt(y))));
    lemma_pmul_xt_swap(xt(x), xt(xt(y)));
    lemma_pmul_xt_swap(xt(xt(x)), xt(y));
    lemma_pmul_xt_swap(xt(xt(xt(x))), y);
    lemma_pmul_xt_swap(x, xt(xt(xt(xt(y)))));
    lemma_pmul_xt_swap(xt(x), xt(xt(xt(y))));
    lemma_pmul_xt_swap(xt(xt(x)), xt(xt(y)));
    lemma_pmul_xt_swap(xt(xt(xt(x))), xt(y));
    lemma_pmul_xt_swap(xt(xt(xt(xt(x)))), y);
    lemma_pmul_xt_swap(x, xt(xt(xt(xt(xt(y))))));
    lemma_pmul_xt_swap(xt(x), xt(xt(xt(xt(y)))));
    lemma_pmul_xt_swap(xt(xt(x)), xt(xt(xt(y))));
    lemma_pmul_xt_swap(xt(xt(xt(x))), xt(xt(y)));
    lemma_pmul_xt_swap(xt(xt(xt(xt(x)))), xt(y));
    lemma_pmul_xt_swap(xt(xt(xt(xt(xt(x))))), y);
    lemma_pmul_xt_swap(x, xt(xt(xt(xt(xt(xt(y)))))));
    lemma_pmul_xt_swap(xt(x), xt(xt(xt(xt(xt(y))))));
    lemma_pmul_xt_swap(xt(xt(x)), xt(xt(xt(xt(y)))));
    lemma_pmul_xt_swap(xt(xt(xt(x))), xt(xt(xt(y))));
    lemma_pmul_xt_swap(xt(xt(xt(xt(x)))), xt(xt(y)));
    lemma_pmul_xt_swap(xt(xt(xt(xt(xt(x))))), xt(y));
    lemma_pmul_xt_swap(xt(xt(xt(xt(xt(xt(x)))))), y);
    assert(pmul(x, xt(y)) == pmul(xt(x), y));
    assert(pmul(x, xt(xt(y))) == pmul(xt(xt(x)), y));
    assert(pmul(x, xt(xt(xt(y)))) == pmul(xt(xt(xt(x))), y));
    assert(pmul(x, xt(xt(xt(xt(y))))) == pmul(xt(xt(xt(xt(x)))), y));
    assert(pmul(x, xt(xt(xt(xt(xt(y)))))) == pmul(xt(xt(xt(xt(xt(x))))), y));
    assert(pmul(x, xt(xt(xt(xt(xt(xt(y))))))) == pmul(xt(xt(xt(xt(xt(xt(x)))))), y));
    assert(pmul(x, xt(xt(xt(xt(xt(xt(xt(y)))))))) == pmul(xt(xt(xt(xt(xt(xt(xt(x))))))), y));

    // Expand x * (y * z) linearly over the eight terms of y * z.
    lemma_pmul_zero_right(x);
    let v0: u8 = if z & 0x01 != 0 { y } else { 0 };
    let v1: u8 = if z & 0x02 != 0 { xt(y) } else { 0 };
    let v2: u8 = if z & 0x04 != 0 { xt(xt(y)) } else { 0 };
    let v3: u8 = if z & 0x08 != 0 { xt(xt(xt(y))) } else { 0 };
    let v4: u8 = if z & 0x10 != 0 { xt(xt(xt(xt(y)))) } else { 0 };
    let v5: u8 = if z & 0x20 != 0 { xt(xt(xt(xt(xt(y))))) } else { 0 };
    let v6: u8 = if z & 0x40 != 0 { xt(xt(xt(xt(xt(xt(y)))))) } else { 0 };
    let v7: u8 = if z & 0x80 != 0 { xt(xt(xt(xt(xt(xt(xt(y))))))) } else { 0 };
    let s0: u8 = 0 ^ v0;
    let s1: u8 = s0 ^ v1;
    let s2: u8 = s1 ^ v2;
    let s3: u8 = s2 ^ v3;
    let s4: u8 = s3 ^ v4;
    let s5: u8 = s4 ^ v5;
    let s6: u8 = s5 ^ v6;
    let s7: u8 = s6 ^ v7;
    assert(pmul(y, z) == s7);
    lemma_pmul_linear(x, 0, v0);
    lemma_pmul_linear(x, s0, v1);
    lemma_pmul_linear(x, s1, v2);
    lemma_pmul_linear(x, s2, v3);
    lemma_pmul_linear(x, s3, v4);
    lemma_pmul_linear(x, s4, v5);
    lemma_pmul_linear(x, s5, v6);
    lemma_pmul_linear(x, s6, v7);
    assert(pmul(x, s7)
        == ((((((((pmul(x, 0) ^ pmul(x, v0)) ^ pmul(x, v1)) ^ pmul(x, v2)) ^ pmul(x, v3))
            ^ pmul(x, v4)) ^ pmul(x, v5)) ^ pmul(x, v6)) ^ pmul(x, v7)));

    // Each expanded term matches the corresponding term of (x * y) * z.
    assert(pmul(x, v0) == (if z & 0x01 != 0 { pxy } else { 0 }));
    assert(pmul(x, v1) == (if z & 0x02 != 0 { xt(pxy) } else { 0 }));
    assert(pmul(x, v2) == (if z & 0x04 != 0 { xt(xt(pxy)) } else { 0 }));
    assert(pmul(x, v3) == (if z & 0x08 != 0 { xt(xt(xt(pxy))) } else { 0 }));
    assert(pmul(x, v4) == (if z & 0x10 != 0 { xt(xt(xt(xt(pxy)))) } else { 0 }));
    assert(pmul(x, v5) == (if z & 0x20 != 0 { xt(xt(xt(xt(xt(pxy))))) } else { 0 }));
    assert(pmul(x, v6) == (if z & 0x40 != 0 { xt(xt(xt(xt(xt(xt(pxy)))))) } else { 0 }));
    assert(pmul(x, v7) == (if z & 0x80 != 0 { xt(xt(xt(xt(xt(xt(xt(pxy))))))) } else { 0 }));
    assert(pmul(pxy, z) == pmul(x, pmul(y, z)));
}

/// The field has no zero divisors.
#[verifier::rlimit(100)]
proof fn lemma_pmul_no_zero_divisors(x: u8, w: u8)
    by (bit_vector)
    ensures
        x != 0 && w != 0 ==> pmul(x, w) != 0,
{
}

/// Every non-zero element has a multiplicative inverse: the map y -> x * y is
/// injective, so by counting it covers all 256 bytes, in particular 1.
pub proof fn lemma_inv_exists(x: u8)
    ensures
        x != 0 ==> exists|y: u8| pmul(x, y) == 1,
{
    broadcast use vstd::set::group_set_axioms;

    if x != 0 {
        let f = |y: u8| pmul(x, y);
        let s = Set::<u8>::full();
        assert(injective_on(f, s)) by {
            assert forall|y1: u8, y2: u8|
                s.contains(y1) && s.contains(y2) && #[trigger] f(y1) == #[trigger] f(y2)
            implies y1 == y2 by {
                lemma_pmul_linear(x, y1, y2);
                lemma_pmul_no_zero_divisors(x, y1 ^ y2);
                let p1 = pmul(x, y1);
                let p2 = pmul(x, y2);
                assert(p1 == p2 ==> p1 ^ p2 == 0) by (bit_vector);
                assert(y1 ^ y2 == 0 ==> y1 == y2) by (bit_vector);
            }
        }
        let img = s.map(f);
        assert(s.finite()) by {
            <u8 as vstd::set_lib::FiniteFull>::full_properties();
        }
        lemma_map_size(s, img, f);
        if !img.contains(1u8) {
            img.lemma_subset_not_in_lt(s, 1u8);
            assert(false);
        }
        let y = choose|y: u8| s.contains(y) && 1u8 == f(y);
        assert(pmul(x, y) == 1);
    }
}

impl GF256 {
    /// Computes the multiplicative inverse of the element, by searching the
    /// field for the witness that `lemma_inv_exists` promises. Returns `None`
    /// for the zero element.
    pub fn inv(self) -> (r: Option<Self>)
        ensures
            self.p == 0 ==> r is None,
            self.p != 0 ==> r is Some
                && Self::smul(self, r.unwrap()) == (GF256 { p: 1 })
                && Self::smul(r.unwrap(), self) == (GF256 { p: 1 }),
    {
        if self.p == 0 {
            return None;
        }
        let mut y: u16 = 0;
        while y < 256
            invariant
                self.p != 0,
                y <= 256,
                forall|z: u8| (z as u16) < y ==> pmul(self.p, z) != 1,
            decreases 256 - y,
        {
            let cand = GF256 { p: y as u8 };
            let prod = self.mul(cand);
            if prod.p == 1 {
                proof {
                    lemma_mul_comm(self, cand);
                }
                return Some(cand);
            }
            proof {
                assert forall|z: u8| (z as u16) < y + 1 implies pmul(self.p, z) != 1 by {
                    if (z as u16) < y {
                    } else {
                        assert(z == y as u8);
                    }
                }
            }
            y = y + 1;
        }
        proof {
            lemma_inv_exists(self.p);
            let w = choose|w: u8| pmul(self.p, w) == 1;
            assert((w as u16) < 256);
            assert(false);
        }
        None
    }

    /// Performs division using the multiplicative inverse. Returns `None` when
    /// dividing by zero; otherwise the quotient q satisfies q * rhs == self.
    pub fn div(self, rhs: Self) -> (r: Option<Self>)
        ensures
            rhs.p == 0 ==> r is None,
            rhs.p != 0 ==> r is Some && Self::smul(r.unwrap(), rhs) == self,
    {
        match rhs.inv() {
            None => None,
            Some(i) => {
                let q = self.mul(i);
                proof {
                    lemma_mul_assoc(self, i, rhs);
                    lemma_mul_one(self);
                }
                Some(q)
            }
        }
    }
}

impl Field for GF256 {
    open spec fn val(self) -> nat {
        self.p as nat
    }

    open spec fn wf(self) -> bool {
        true
    }

    open spec fn in_range(a: nat) -> bool {
        a < 256
    }

    open spec fn fadd(a: nat, b: nat) -> nat {
        ((a as u8) ^ (b as u8)) as nat
    }

    open spec fn fsub(a: nat, b: nat) -> nat {
        ((a as u8) ^ (b as u8)) as nat
    }

    open spec fn fneg(a: nat) -> nat {
        a
    }

    open spec fn fmul(a: nat, b: nat) -> nat {
        pmul(a as u8, b as u8) as nat
    }

    open spec fn spec_cap() -> nat {
        1
    }

    proof fn wf_in_range(self) {
    }

    proof fn constants_in_range() {
    }

    proof fn cap_at_least_one() {
    }

    proof fn ops_in_range(a: nat, b: nat) {
    }

    proof fn add_zero(a: nat) {
        lemma_add_zero(GF256 { p: a as u8 });
    }

    proof fn add_comm(a: nat, b: nat) {
        lemma_add_comm(GF256 { p: a as u8 }, GF256 { p: b as u8 });
    }

    proof fn add_assoc(a: nat, b: nat, c: nat) {
        lemma_add_assoc(GF256 { p: a as u8 }, GF256 { p: b as u8 }, GF256 { p: c as u8 });
    }

    proof fn add_neg(a: nat) {
        lemma_add_self_inverse(GF256 { p: a as u8 });
    }

    proof fn sub_is_add_neg(a: nat, b: nat) {
    }

    proof fn sub_self(a: nat) {
        lemma_add_self_inverse(GF256 { p: a as u8 });
    }

    proof fn sub_zero(a: nat) {
        lemma_add_zero(GF256 { p: a as u8 });
    }

    proof fn mul_zero(a: nat) {
        lemma_mul_zero(GF256 { p: a as u8 });
    }

    proof fn mul_one(a: nat) {
        lemma_mul_one(GF256 { p: a as u8 });
    }

    proof fn mul_comm(a: nat, b: nat) {
        lemma_mul_comm(GF256 { p: a as u8 }, GF256 { p: b as u8 });
    }

    proof fn mul_assoc(a: nat, b: nat, c: nat) {
        lemma_mul_assoc(GF256 { p: a as u8 }, GF256 { p: b as u8 }, GF256 { p: c as u8 });
    }

    proof fn mul_distrib(a: nat, b: nat, c: nat) {
        lemma_mul_distrib(GF256 { p: a as u8 }, GF256 { p: b as u8 }, GF256 { p: c as u8 });
    }

    fn zero() -> (r: Self) {
        GF256 { p: 0 }
    }

    fn one() -> (r: Self) {
        GF256 { p: 1 }
    }

    fn safe_capacity() -> (r: usize) {
        1
    }

    fn is_zero(&self) -> (r: bool) {
        self.p == 0
    }

    fn add(self, rhs: Self) -> (r: Self) {
        GF256 { p: self.p ^ rhs.p }
    }

    fn sub(self, rhs: Self) -> (r: Self) {
        GF256 { p: self.p ^ rhs.p }
    }

    fn mul(self, rhs: Self) -> (r: Self) {
        GF256::mul(self, rhs)
    }

    fn inv(&self) -> (r: Option<Self>) {
        GF256::inv(*self)
    }

    fn from_bytes(bytes: &[u8]) -> (r: Self) {
        if bytes.len() >= 1 {
            proof {
                let s = bytes@;
                let rest = s.subrange(1, s.len() as int);
                assert(rest.len() == 0);
                assert(le_nat(rest) == 0);
                assert(le_nat(s) == s[0]);
            }
            GF256 { p: bytes[0] }
        } else {
            proof {
                assert(le_nat(bytes@) == 0);
            }
            GF256 { p: 0 }
        }
    }

    fn to_bytes(&self) -> (r: Vec<u8>) {
        let mut v: Vec<u8> = Vec::new();
        v.push(self.p);
        proof {
            let s = v@;
            let rest = s.subrange(1, s.len() as int);
            assert(rest.len() == 0);
            assert(le_nat(rest) == 0);
            assert(le_nat(s) == s[0]);
            assert(pow256(1) == 256 * pow256(0));
            assert(pow256(0) == 1);
            assert((self.p as nat) % 256 == self.p as nat);
        }
        v
    }
}

} // verus!
