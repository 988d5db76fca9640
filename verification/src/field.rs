//! Elements of the prime field and the arithmetic on them.
//!
//! An element is held as four little-endian 64-bit limbs. Any limbs are
//! accepted: the element that they stand for is their integer reduced by the
//! modulus. The arithmetic itself is done by `pasta_curves`, as re-exported by
//! `halo2_proofs`.

use halo2_proofs::pasta::group::ff::PrimeField;
use halo2_proofs::pasta::Fp;
use vstd::arithmetic::div_mod::{
    lemma_add_mod_noop, lemma_fundamental_div_mod, lemma_mod_equivalence,
    lemma_mod_multiples_basic, lemma_mod_multiples_vanish, lemma_mod_pos_bound,
    lemma_mul_mod_noop_general, lemma_small_mod,
};
use vstd::prelude::*;

verus! {

/// The order of the field, the base field of the Pallas curve.
pub open spec fn modulus() -> nat {
    0x40000000000000000000000000000000224698fc094cf91b992d30ed00000001nat
}

/// The integer that four little-endian limbs spell.
pub open spec fn limbs_value(l: [u64; 4]) -> nat {
    (l[0] as nat) + (l[1] as nat) * 0x1_0000_0000_0000_0000nat + (l[2] as nat)
        * 0x1_0000_0000_0000_0000_0000_0000_0000_0000nat + (l[3] as nat)
        * 0x1_0000_0000_0000_0000_0000_0000_0000_0000_0000_0000_0000_0000nat
}

/// Sum in the field.
pub open spec fn fadd(a: nat, b: nat) -> nat {
    (a + b) % modulus()
}

/// Product in the field.
pub open spec fn fmul(a: nat, b: nat) -> nat {
    (a * b) % modulus()
}

/// Additive inverse in the field.
pub open spec fn fneg(a: nat) -> nat {
    ((modulus() - a % modulus()) as nat) % modulus()
}

/// A field element, as four little-endian limbs.
///
/// The limbs need not be reduced. What the element is, its view, is the
/// integer of the limbs reduced by the modulus: see [`lemma_view`].
#[derive(Clone, Copy, Debug)]
pub struct Fe {
    pub limbs: [u64; 4],
}

impl View for Fe {
    type V = nat;

    closed spec fn view(&self) -> nat {
        limbs_value(self.limbs) % modulus()
    }
}

impl Fe {
    /// Zero, with reduced limbs.
    pub open spec fn spec_zero() -> Fe {
        Fe { limbs: [0, 0, 0, 0] }
    }

    /// One, with reduced limbs.
    pub open spec fn spec_one() -> Fe {
        Fe { limbs: [1, 0, 0, 0] }
    }

    /// The element of a 64-bit integer, with reduced limbs.
    pub open spec fn spec_from_u64(v: u64) -> Fe {
        Fe { limbs: [v, 0, 0, 0] }
    }

    /// The element of a 128-bit integer, with reduced limbs.
    pub open spec fn spec_from_u128(v: u128) -> Fe {
        Fe { limbs: [(v & 0xffff_ffff_ffff_ffff) as u64, (v >> 64) as u64, 0, 0] }
    }

    /// The element that the limbs stand for.
    pub fn from_limbs(limbs: [u64; 4]) -> (r: Fe)
        ensures
            r.limbs == limbs,
            r@ == limbs_value(limbs) % modulus(),
    {
        Fe { limbs }
    }

    /// The additive identity.
    pub fn zero() -> (r: Fe)
        ensures
            r == Fe::spec_zero(),
            r@ == 0,
    {
        Fe { limbs: [0, 0, 0, 0] }
    }

    /// The multiplicative identity.
    pub fn one() -> (r: Fe)
        ensures
            r == Fe::spec_one(),
            r@ == 1,
    {
        let r = Fe { limbs: [1, 0, 0, 0] };
        proof {
            lemma_small_mod(1, modulus());
        }
        r
    }

    /// The element of a 64-bit integer.
    pub fn from_u64(v: u64) -> (r: Fe)
        ensures
            r == Fe::spec_from_u64(v),
            r@ == v,
    {
        let r = Fe { limbs: [v, 0, 0, 0] };
        proof {
            lemma_small_mod(v as nat, modulus());
        }
        r
    }

    /// The element of a 128-bit integer.
    pub fn from_u128(v: u128) -> (r: Fe)
        ensures
            r == Fe::spec_from_u128(v),
            r@ == v,
    {
        let lo: u128 = v & 0xffff_ffff_ffff_ffff;
        let hi: u128 = v >> 64;
        proof {
            assert(lo <= 0xffff_ffff_ffff_ffff && hi <= 0xffff_ffff_ffff_ffff && v == lo + hi
                * 0x1_0000_0000_0000_0000) by (bit_vector)
                requires
                    lo == v & 0xffff_ffff_ffff_ffff,
                    hi == v >> 64,
            ;
            lemma_small_mod(v as nat, modulus());
        }
        Fe { limbs: [lo as u64, hi as u64, 0, 0] }
    }

    /// The sum of two elements.
    ///
    /// Calls `Fp`'s `+`, between `Fp::from_raw` on each operand and
    /// `PrimeField::to_repr` on the result. `from_raw` gives the element
    /// congruent to the integer of the limbs, `+` adds in the field, and
    /// `to_repr` gives the sum's canonical little-endian bytes.
    #[verifier::external_body]
    pub(crate) fn add(&self, rhs: &Fe) -> (r: Fe)
        ensures
            r@ == fadd(self@, rhs@),
    {
        let b = (Fp::from_raw(self.limbs) + Fp::from_raw(rhs.limbs)).to_repr();
        Fe {
            limbs: [
                u64::from_le_bytes(b[0..8].try_into().unwrap()),
                u64::from_le_bytes(b[8..16].try_into().unwrap()),
                u64::from_le_bytes(b[16..24].try_into().unwrap()),
                u64::from_le_bytes(b[24..32].try_into().unwrap()),
            ],
        }
    }

    /// The product of two elements.
    ///
    /// Calls `Fp`'s `*`, between `Fp::from_raw` on each operand and
    /// `PrimeField::to_repr` on the result: the product in the field, as its
    /// canonical little-endian bytes.
    #[verifier::external_body]
    pub(crate) fn mul(&self, rhs: &Fe) -> (r: Fe)
        ensures
            r@ == fmul(self@, rhs@),
    {
        let b = (Fp::from_raw(self.limbs) * Fp::from_raw(rhs.limbs)).to_repr();
        Fe {
            limbs: [
                u64::from_le_bytes(b[0..8].try_into().unwrap()),
                u64::from_le_bytes(b[8..16].try_into().unwrap()),
                u64::from_le_bytes(b[16..24].try_into().unwrap()),
                u64::from_le_bytes(b[24..32].try_into().unwrap()),
            ],
        }
    }

    /// The additive inverse of an element.
    ///
    /// Calls `Fp`'s unary `-`, between `Fp::from_raw` on the operand and
    /// `PrimeField::to_repr` on the result: the element that sums with the
    /// operand to zero, as its canonical little-endian bytes.
    #[verifier::external_body]
    pub(crate) fn neg(&self) -> (r: Fe)
        ensures
            r@ == fneg(self@),
    {
        let b = (-Fp::from_raw(self.limbs)).to_repr();
        Fe {
            limbs: [
                u64::from_le_bytes(b[0..8].try_into().unwrap()),
                u64::from_le_bytes(b[8..16].try_into().unwrap()),
                u64::from_le_bytes(b[16..24].try_into().unwrap()),
                u64::from_le_bytes(b[24..32].try_into().unwrap()),
            ],
        }
    }

    /// Whether two elements are the same element of the field.
    ///
    /// Calls `Fp`'s `==` on `Fp::from_raw` of each operand. `Fp` keeps every
    /// element reduced, so its `==` is equality in the field.
    #[verifier::external_body]
    pub(crate) fn equals(&self, rhs: &Fe) -> (r: bool)
        ensures
            r == (self@ == rhs@),
    {
        Fp::from_raw(self.limbs) == Fp::from_raw(rhs.limbs)
    }
}

/// The constants with reduced limbs are zero and one.
pub proof fn lemma_constants()
    ensures
        Fe::spec_zero()@ == 0,
        Fe::spec_one()@ == 1,
{
    lemma_small_mod(0, modulus());
    lemma_small_mod(1, modulus());
}

/// The view of an element is the integer of its limbs, reduced.
pub proof fn lemma_view(x: Fe)
    ensures
        x@ == limbs_value(x.limbs) % modulus(),
{
}

/// Minus one is the modulus less one.
pub proof fn lemma_minus_one()
    ensures
        fneg(1) == modulus() - 1,
{
    lemma_small_mod(1, modulus());
    lemma_small_mod((modulus() - 1) as nat, modulus());
}

/// A gate row closes when one slot, with coefficient minus one, carries the
/// sum of all the other terms, reduced.
pub proof fn lemma_minus_one_closes(s: nat, out: nat)
    requires
        out == s % modulus(),
    ensures
        (s + fneg(1) * out) % modulus() == 0,
{
    let p = modulus() as int;
    let q = (s as int) / p;
    lemma_minus_one();
    lemma_fundamental_div_mod(s as int, p);
    assert(s + (p - 1) * out == (q + out) * p) by (nonlinear_arith)
        requires
            s == p * q + out,
    ;
    lemma_mod_multiples_basic(q + out, p);
}

/// In a row that closes, the slot with coefficient minus one carries the sum
/// of all the other terms, reduced: no other value below the modulus closes
/// the row.
pub proof fn lemma_minus_one_determines(s: nat, out: nat)
    requires
        (s + fneg(1) * out) % modulus() == 0,
        out < modulus(),
    ensures
        out == s % modulus(),
{
    let p = modulus() as int;
    lemma_minus_one();
    assert(s + (p - 1) * out == p * out + (s - out)) by (nonlinear_arith);
    lemma_mod_multiples_vanish(out as int, s - out, p);
    lemma_mod_equivalence(s as int, out as int, p);
    lemma_small_mod(out, modulus());
}

/// The only value below the modulus that sums with the inverse of `v` to a
/// multiple of the modulus is `v`.
pub proof fn lemma_neg_determines(v: nat, x: nat)
    requires
        (x + fneg(v)) % modulus() == 0,
        x < modulus(),
        v < modulus(),
    ensures
        x == v,
{
    let p = modulus();
    lemma_small_mod(v, p);
    lemma_small_mod(x, p);
    if v == 0 {
        lemma_mod_multiples_basic(1, p as int);
    } else {
        lemma_small_mod((p - v) as nat, p);
        lemma_mod_multiples_vanish(1, x - v, p as int);
        lemma_mod_equivalence(x as int, v as int, p as int);
    }
}

/// An element and its inverse sum to a multiple of the modulus.
pub proof fn lemma_neg_cancels(v: nat)
    requires
        v < modulus(),
    ensures
        (v + fneg(v)) % modulus() == 0,
{
    let p = modulus();
    lemma_small_mod(v, p);
    if v == 0 {
        lemma_mod_multiples_basic(1, p as int);
        lemma_small_mod(0, p);
    } else {
        lemma_small_mod((p - v) as nat, p);
        lemma_mod_multiples_basic(1, p as int);
    }
}

/// Reducing one summand first does not change a reduced sum.
pub proof fn lemma_fadd_absorbs(a: nat, b: nat)
    ensures
        fadd(a % modulus(), b) == (a + b) % modulus(),
        fadd(a, b % modulus()) == (a + b) % modulus(),
        fadd(a % modulus(), b % modulus()) == (a + b) % modulus(),
{
    let p = modulus() as int;
    lemma_add_mod_noop(a as int, b as int, p);
    lemma_add_mod_noop((a % modulus()) as int, b as int, p);
    lemma_add_mod_noop(a as int, (b % modulus()) as int, p);
    lemma_small_mod(a % modulus(), modulus());
    lemma_small_mod(b % modulus(), modulus());
}

/// Adding a reduced term to a reduced sum gives the reduced sum of both.
pub proof fn lemma_accumulate(s: nat, acc: nat, t: nat)
    requires
        acc == s % modulus(),
    ensures
        fadd(acc, t % modulus()) == (s + t) % modulus(),
        fadd(acc, t) == (s + t) % modulus(),
{
    lemma_fadd_absorbs(s, t);
}

/// The value of an element lies below the modulus.
pub proof fn lemma_reduced(x: Fe)
    ensures
        x@ < modulus(),
        x@ % modulus() == x@,
{
    lemma_mod_pos_bound(limbs_value(x.limbs) as int, modulus() as int);
    lemma_small_mod(x@, modulus());
}

/// Reducing one factor first does not change a reduced product.
pub proof fn lemma_fmul_absorbs(a: nat, b: nat)
    ensures
        fmul(a % modulus(), b) == (a * b) % modulus(),
        fmul(a, b % modulus()) == (a * b) % modulus(),
        fmul(a % modulus(), b % modulus()) == (a * b) % modulus(),
{
    let p = modulus() as int;
    lemma_mul_mod_noop_general(a as int, b as int, p);
}

} // verus!
