//! The BLS12-381 scalar field backend.
//!
//! An element is held as its canonical little-endian 32-byte representation,
//! a value strictly below the field order. The arithmetic itself is done by
//! the `blstrs` crate behind trusted wrappers; everything this module states
//! about the wrapped operations is plain modular arithmetic on the byte
//! values, which the field laws are then proved from.

use vstd::arithmetic::div_mod::{
    lemma_add_mod_noop, lemma_mod_division_less_than_divisor, lemma_mod_multiples_vanish,
    lemma_mod_self_0, lemma_mul_mod_noop_left, lemma_mul_mod_noop_right, lemma_small_mod,
};
use vstd::arithmetic::mul::{
    lemma_mul_is_associative, lemma_mul_is_commutative, lemma_mul_is_distributive_add,
};
use vstd::prelude::*;

use group::ff::Field as BlsFieldOps;

use crate::field::{
    le_nat, lemma_le_nat_bound, lemma_le_nat_pad, lemma_le_nat_split, lemma_le_nat_zero, pow256,
    Field,
};

verus! {

broadcast use vstd::array::group_array_axioms;

/// The order of the BLS12-381 scalar field: a 255-bit prime.
pub open spec fn r_mod() -> nat {
    0x73eda753299d7d483339d80809a1d80553bda402fffe5bfeffffffff00000001nat
}

/// An element of the BLS12-381 scalar field, as its canonical little-endian
/// 32-byte representation. 31 bytes of arbitrary content always stay below
/// the field order, so `SAFE_CAPACITY` is 31.
#[derive(Clone, Copy, Debug, PartialEq, Eq)]
pub struct Scalar {
    pub b: [u8; 32],
}

/// Relies on `blstrs::Scalar::from_bytes_le` (accepts exactly the canonical
/// representations, the values below the field order), the `Add` impl
/// (addition in the field of that order) and `to_bytes_le` (canonical
/// little-endian bytes of the result).
#[verifier::external_body]
fn bls_add(a: &[u8; 32], b: &[u8; 32]) -> (r: [u8; 32])
    requires
        le_nat(a@) < r_mod(),
        le_nat(b@) < r_mod(),
    ensures
        le_nat(r@) == (le_nat(a@) + le_nat(b@)) % r_mod(),
{
    let x = blstrs::Scalar::from_bytes_le(a).unwrap();
    let y = blstrs::Scalar::from_bytes_le(b).unwrap();
    (x + y).to_bytes_le()
}

/// Relies on `blstrs::Scalar::from_bytes_le`, the `Sub` impl (subtraction in
/// the field) and `to_bytes_le`, as in `bls_add`.
#[verifier::external_body]
fn bls_sub(a: &[u8; 32], b: &[u8; 32]) -> (r: [u8; 32])
    requires
        le_nat(a@) < r_mod(),
        le_nat(b@) < r_mod(),
    ensures
        le_nat(r@) == ((le_nat(a@) + r_mod() - le_nat(b@)) as nat) % r_mod(),
{
    let x = blstrs::Scalar::from_bytes_le(a).unwrap();
    let y = blstrs::Scalar::from_bytes_le(b).unwrap();
    (x - y).to_bytes_le()
}

/// Relies on `blstrs::Scalar::from_bytes_le`, the `Mul` impl (multiplication
/// in the field) and `to_bytes_le`, as in `bls_add`.
#[verifier::external_body]
fn bls_mul(a: &[u8; 32], b: &[u8; 32]) -> (r: [u8; 32])
    requires
        le_nat(a@) < r_mod(),
        le_nat(b@) < r_mod(),
    ensures
        le_nat(r@) == (le_nat(a@) * le_nat(b@)) % r_mod(),
{
    let x = blstrs::Scalar::from_bytes_le(a).unwrap();
    let y = blstrs::Scalar::from_bytes_le(b).unwrap();
    (x * y).to_bytes_le()
}

/// Relies on `blstrs::Scalar::from_bytes_le`, `ff::Field::invert` (the
/// multiplicative inverse, defined exactly for non-zero elements) and
/// `to_bytes_le`.
#[verifier::external_body]
fn bls_inv(a: &[u8; 32]) -> (r: Option<[u8; 32]>)
    requires
        le_nat(a@) < r_mod(),
    ensures
        r is Some <==> le_nat(a@) != 0,
        r is Some ==> le_nat(r.unwrap()@) < r_mod() && (le_nat(a@) * le_nat(r.unwrap()@))
            % r_mod() == 1,
{
    let x = blstrs::Scalar::from_bytes_le(a).unwrap();
    let inv: Option<blstrs::Scalar> = x.invert().into();
    inv.map(|v| v.to_bytes_le())
}

/// 256^31 is below the field order: 31 arbitrary bytes always form a
/// canonical representation.
proof fn lemma_pow256_31_below_r()
    ensures
        pow256(31) < r_mod(),
{
    reveal_with_fuel(pow256, 32);
}

/// 256^len is monotone in the length.
proof fn lemma_pow256_le(a: nat, b: nat)
    requires
        a <= b,
    ensures
        pow256(a) <= pow256(b),
    decreases b,
{
    if a < b {
        lemma_pow256_le(a, (b - 1) as nat);
        crate::field::lemma_pow256_pos(a);
    }
}

impl Field for Scalar {
    open spec fn val(self) -> nat {
        le_nat(self.b@)
    }

    open spec fn wf(self) -> bool {
        self.val() < r_mod()
    }

    open spec fn in_range(a: nat) -> bool {
        a < r_mod()
    }

    open spec fn fadd(a: nat, b: nat) -> nat {
        (a + b) % r_mod()
    }

    open spec fn fsub(a: nat, b: nat) -> nat {
        ((a + r_mod() - b) as nat) % r_mod()
    }

    open spec fn fneg(a: nat) -> nat {
        ((r_mod() - a) as nat) % r_mod()
    }

    open spec fn fmul(a: nat, b: nat) -> nat {
        (a * b) % r_mod()
    }

    open spec fn spec_cap() -> nat {
        31
    }

    proof fn wf_in_range(self) {
    }

    proof fn constants_in_range() {
    }

    proof fn cap_at_least_one() {
    }

    proof fn ops_in_range(a: nat, b: nat) {
        let r = r_mod() as int;
        lemma_mod_division_less_than_divisor((a + b) as int, r);
        lemma_mod_division_less_than_divisor((a + r_mod() - b) as int, r);
        lemma_mod_division_less_than_divisor((r_mod() - a) as int, r);
        lemma_mod_division_less_than_divisor((a * b) as int, r);
    }

    proof fn add_zero(a: nat) {
        lemma_small_mod(a, r_mod());
    }

    proof fn add_comm(a: nat, b: nat) {
    }

    proof fn add_assoc(a: nat, b: nat, c: nat) {
        let r = r_mod() as int;
        lemma_small_mod(a, r_mod());
        lemma_small_mod(c, r_mod());
        lemma_add_mod_noop((a + b) as int, c as int, r);
        lemma_add_mod_noop(a as int, (b + c) as int, r);
    }

    proof fn add_neg(a: nat) {
        if a == 0 {
            lemma_mod_self_0(r_mod() as int);
            lemma_small_mod(0, r_mod());
        } else {
            lemma_small_mod((r_mod() - a) as nat, r_mod());
            lemma_mod_self_0(r_mod() as int);
        }
    }

    proof fn sub_is_add_neg(a: nat, b: nat) {
        if b == 0 {
            lemma_mod_self_0(r_mod() as int);
            lemma_small_mod(0, r_mod());
            lemma_mod_multiples_vanish(1, a as int, r_mod() as int);
            lemma_small_mod(a, r_mod());
        } else {
            lemma_small_mod((r_mod() - b) as nat, r_mod());
        }
    }

    proof fn sub_self(a: nat) {
        lemma_mod_self_0(r_mod() as int);
    }

    proof fn sub_zero(a: nat) {
        lemma_mod_multiples_vanish(1, a as int, r_mod() as int);
        lemma_small_mod(a, r_mod());
    }

    proof fn mul_zero(a: nat) {
        lemma_small_mod(0, r_mod());
    }

    proof fn mul_one(a: nat) {
        lemma_small_mod(a, r_mod());
    }

    proof fn mul_comm(a: nat, b: nat) {
        lemma_mul_is_commutative(a as int, b as int);
    }

    proof fn mul_assoc(a: nat, b: nat, c: nat) {
        let r = r_mod() as int;
        lemma_mul_mod_noop_left((a * b) as int, c as int, r);
        lemma_mul_mod_noop_right(a as int, (b * c) as int, r);
        lemma_mul_is_associative(a as int, b as int, c as int);
    }

    proof fn mul_distrib(a: nat, b: nat, c: nat) {
        let r = r_mod() as int;
        lemma_mul_mod_noop_right(a as int, (b + c) as int, r);
        lemma_mul_is_distributive_add(a as int, b as int, c as int);
        lemma_add_mod_noop((a * b) as int, (a * c) as int, r);
    }

    fn zero() -> (r: Self) {
        let b = [0u8; 32];
        proof {
            lemma_le_nat_zero(b@);
        }
        Scalar { b }
    }

    fn one() -> (r: Self) {
        let mut b = [0u8; 32];
        b[0] = 1;
        proof {
            let s = b@;
            let rest = s.subrange(1, 32);
            lemma_le_nat_zero(rest);
            assert(le_nat(s) == 1 + 256 * le_nat(rest));
            assert(le_nat(rest) == 0);
        }
        Scalar { b }
    }

    fn safe_capacity() -> (r: usize) {
        31
    }

    fn is_zero(&self) -> (r: bool)
    {
        let mut i: usize = 0;
        let mut all_zero = true;
        while i < 32
            invariant
                i <= 32,
                all_zero <==> (forall|j: int| 0 <= j < i ==> self.b@[j] == 0),
            decreases 32 - i,
        {
            if self.b[i] != 0 {
                all_zero = false;
            }
            i = i + 1;
        }
        proof {
            lemma_le_nat_zero(self.b@);
        }
        all_zero
    }

    fn add(self, rhs: Self) -> (r: Self) {
        let out = bls_add(&self.b, &rhs.b);
        proof {
            lemma_mod_division_less_than_divisor((self.val() + rhs.val()) as int, r_mod() as int);
        }
        Scalar { b: out }
    }

    fn sub(self, rhs: Self) -> (r: Self) {
        let out = bls_sub(&self.b, &rhs.b);
        proof {
            lemma_mod_division_less_than_divisor(
                (self.val() + r_mod() - rhs.val()) as int,
                r_mod() as int,
            );
        }
        Scalar { b: out }
    }

    fn mul(self, rhs: Self) -> (r: Self) {
        let out = bls_mul(&self.b, &rhs.b);
        proof {
            lemma_mod_division_less_than_divisor((self.val() * rhs.val()) as int, r_mod() as int);
        }
        Scalar { b: out }
    }

    fn inv(&self) -> (r: Option<Self>) {
        match bls_inv(&self.b) {
            None => None,
            Some(out) => {
                let res = Scalar { b: out };
                proof {
                    lemma_mul_is_commutative(self.val() as int, res.val() as int);
                }
                Some(res)
            }
        }
    }

    fn from_bytes(bytes: &[u8]) -> (r: Self) {
        let mut b = [0u8; 32];
        let mut i: usize = 0;
        let n = bytes.len();
        while i < n
            invariant
                i <= n,
                n == bytes@.len() <= 31,
                b@.len() == 32,
                forall|j: int| 0 <= j < i ==> b@[j] == bytes@[j],
                forall|j: int| i <= j < 32 ==> b@[j] == 0,
            decreases n - i,
        {
            b[i] = bytes[i];
            i = i + 1;
        }
        proof {
            let pad = b@.subrange(n as int, 32);
            assert(b@ =~= bytes@ + pad);
            lemma_le_nat_pad(bytes@, pad);
            lemma_le_nat_bound(bytes@);
            lemma_pow256_le(bytes@.len(), 31);
            lemma_pow256_31_below_r();
        }
        Scalar { b }
    }

    fn to_bytes(&self) -> (r: Vec<u8>) {
        let mut v: Vec<u8> = Vec::new();
        let mut i: usize = 0;
        while i < 31
            invariant
                i <= 31,
                v@.len() == i,
                forall|j: int| 0 <= j < i ==> v@[j] == self.b@[j],
            decreases 31 - i,
        {
            v.push(self.b[i]);
            i = i + 1;
        }
        proof {
            let s = self.b@;
            assert(v@ =~= s.subrange(0, 31));
            lemma_le_nat_split(s, 31);
            lemma_le_nat_bound(v@);
            let hi = le_nat(s.subrange(31, 32)) as int;
            lemma_mod_multiples_vanish(hi, le_nat(v@) as int, pow256(31) as int);
            lemma_small_mod(le_nat(v@), pow256(31));
            assert(self.val() as int == le_nat(v@) + pow256(31) * hi);
        }
        v
    }
}

} // verus!
