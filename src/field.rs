//! Elements of the BN254 scalar field, held as canonical little-endian limbs.
//! The arithmetic itself is done by `ark_bn254::Fr`.

use ark_bn254::Fr;
use ark_ff::{BigInt, BigInteger, Field, PrimeField};
use vstd::arithmetic::div_mod::lemma_fundamental_div_mod_converse;
use vstd::arithmetic::power::pow;
use vstd::prelude::*;

verus! {

/// The radix of one limb.
pub open spec fn limb_base() -> int {
    0x1_0000_0000_0000_0000
}

/// The integer held by four little-endian 64-bit limbs.
pub open spec fn limbs_value(l0: int, l1: int, l2: int, l3: int) -> int {
    l0 + limb_base() * (l1 + limb_base() * (l2 + limb_base() * l3))
}

/// The prime order of the BN254 scalar field.
pub open spec fn modulus() -> int {
    limbs_value(0x43e1f593f0000001, 0x2833e84879b97091, 0xb85045b68181585d, 0x30644e72e131a029)
}

pub open spec fn fadd(a: int, b: int) -> int {
    (a + b) % modulus()
}

pub open spec fn fsub(a: int, b: int) -> int {
    (a - b) % modulus()
}

pub open spec fn fmul(a: int, b: int) -> int {
    (a * b) % modulus()
}

/// Some multiplicative inverse of `a`, where one exists.
pub open spec fn finv(a: int) -> int {
    choose|c: int| 0 <= c < modulus() && fmul(a, c) == 1
}

/// Division; a zero divisor gives zero.
pub open spec fn fdiv(a: int, b: int) -> int {
    if b % modulus() == 0 {
        0
    } else {
        fmul(a, finv(b))
    }
}

/// The value of a big-endian byte string.
pub open spec fn be_value(s: Seq<u8>) -> int
    decreases s.len(),
{
    if s.len() == 0 {
        0
    } else {
        be_value(s.drop_last()) * 256 + s.last()
    }
}

/// The 32-byte big-endian encoding of `v`.
pub open spec fn be_bytes32(v: int) -> Seq<u8> {
    Seq::new(32, |i: int| ((v / pow(256, (31 - i) as nat)) % 256) as u8)
}

/// A field element. The limbs are little-endian and always encode a value
/// below the modulus, so that equal elements have equal limbs.
#[derive(Clone, Copy, Debug, PartialEq, Eq, Structural)]
pub struct Fe {
    l0: u64,
    l1: u64,
    l2: u64,
    l3: u64,
}

impl View for Fe {
    type V = int;

    closed spec fn view(&self) -> int {
        limbs_value(self.l0 as int, self.l1 as int, self.l2 as int, self.l3 as int)
    }
}

proof fn lemma_limb_split(a0: int, ra: int, b0: int, rb: int)
    requires
        0 <= a0 < limb_base(),
        0 <= b0 < limb_base(),
        a0 + limb_base() * ra == b0 + limb_base() * rb,
    ensures
        a0 == b0,
        ra == rb,
{
    let x = a0 + limb_base() * ra;
    assert(x == ra * limb_base() + a0) by (nonlinear_arith)
        requires x == a0 + limb_base() * ra;
    assert(x == rb * limb_base() + b0) by (nonlinear_arith)
        requires x == b0 + limb_base() * rb;
    lemma_fundamental_div_mod_converse(x, limb_base(), ra, a0);
    lemma_fundamental_div_mod_converse(x, limb_base(), rb, b0);
}

impl Fe {
    /// Every element is canonical: its value lies in `[0, modulus())`.
    #[verifier::type_invariant]
    pub open spec fn canonical(self) -> bool {
        0 <= self@ < modulus()
    }

    proof fn lemma_view_injective(a: Fe, b: Fe)
        requires
            a@ == b@,
        ensures
            a == b,
    {
        let base = limb_base();
        lemma_limb_split(
            a.l0 as int,
            a.l1 + base * (a.l2 + base * a.l3),
            b.l0 as int,
            b.l1 + base * (b.l2 + base * b.l3),
        );
        lemma_limb_split(a.l1 as int, a.l2 + base * a.l3, b.l1 as int, b.l2 + base * b.l3);
        lemma_limb_split(a.l2 as int, a.l3 as int, b.l2 as int, b.l3 as int);
    }

    pub fn zero() -> (r: Fe)
        ensures
            r@ == 0,
    {
        Fe { l0: 0, l1: 0, l2: 0, l3: 0 }
    }

    pub fn one() -> (r: Fe)
        ensures
            r@ == 1,
    {
        Fe { l0: 1, l1: 0, l2: 0, l3: 0 }
    }

    pub fn from_u64(v: u64) -> (r: Fe)
        ensures
            r@ == v as int,
    {
        Fe { l0: v, l1: 0, l2: 0, l3: 0 }
    }


    /// The residue of a signed integer.
    pub fn from_i64(v: i64) -> (r: Fe)
        ensures
            r@ == (v as int) % modulus(),
    {
        fr_from_i64(v)
    }

    pub fn add(&self, o: &Fe) -> (r: Fe)
        ensures
            r@ == fadd(self@, o@),
    {
        fr_add(self, o)
    }

    pub fn sub(&self, o: &Fe) -> (r: Fe)
        ensures
            r@ == fsub(self@, o@),
    {
        fr_sub(self, o)
    }

    pub fn mul(&self, o: &Fe) -> (r: Fe)
        ensures
            r@ == fmul(self@, o@),
    {
        fr_mul(self, o)
    }

    /// The element raised to `e`.
    pub fn pow(&self, e: u64) -> (r: Fe)
        ensures
            r@ == pow(self@, e as nat) % modulus(),
    {
        fr_pow(self, e)
    }

    /// The multiplicative inverse; zero has none.
    pub fn inverse(&self) -> (r: Option<Fe>)
        ensures
            r is None <==> self@ == 0,
            r matches Some(c) ==> fmul(self@, c@) == 1,
    {
        fr_inverse(self)
    }

    /// The 32-byte big-endian encoding.
    pub fn to_bytes_be(&self) -> (r: Vec<u8>)
        ensures
            r@ == be_bytes32(self@),
    {
        fr_to_bytes_be(self)
    }

    /// The big-endian integer of `bytes`, reduced.
    pub fn from_be_bytes_mod_order(bytes: &[u8]) -> (r: Fe)
        ensures
            r@ == be_value(bytes@) % modulus(),
    {
        fr_from_be_bytes_mod_order(bytes)
    }

    /// Equality of the values.
    pub fn equals(&self, o: &Fe) -> (r: bool)
        ensures
            r == (self@ == o@),
    {
        proof {
            if self@ == o@ {
                Fe::lemma_view_injective(*self, *o);
            }
        }
        self.l0 == o.l0 && self.l1 == o.l1 && self.l2 == o.l2 && self.l3 == o.l3
    }

    pub fn is_zero(&self) -> (r: bool)
        ensures
            r == (self@ == 0),
    {
        self.l0 == 0 && self.l1 == 0 && self.l2 == 0 && self.l3 == 0
    }






    /// Division by `o`; dividing by zero gives zero.
    pub fn div(&self, o: &Fe) -> (r: Fe)
        ensures
            r@ == fdiv(self@, o@),
    {
        proof {
            use_type_invariant(self);
            use_type_invariant(o);
            vstd::arithmetic::div_mod::lemma_small_mod(o@ as nat, modulus() as nat);
        }
        match o.inverse() {
            Some(c) => {
                proof {
                    use_type_invariant(&c);
                    lemma_inverse_unique(o@, c@, finv(o@));
                }
                self.mul(&c)
            },
            None => Fe::zero(),
        }
    }



    /// The limbs, least significant first.
    pub fn limbs(&self) -> (r: [u64; 4])
        ensures
            limbs_value(r@[0] as int, r@[1] as int, r@[2] as int, r@[3] as int) == self@,
    {
        [self.l0, self.l1, self.l2, self.l3]
    }
}

/// Relies on `Fr: From<i64>`: a negative integer maps to its residue.
#[verifier::external_body]
fn fr_from_i64(v: i64) -> (r: Fe)
    ensures
        r@ == (v as int) % modulus(),
{
    let b = Fr::from(v).into_bigint().0;
    Fe { l0: b[0], l1: b[1], l2: b[2], l3: b[3] }
}

/// Relies on `Fr`'s addition; the canonical limbs are read by
/// `Fr::from_bigint` and written by `Fr::into_bigint`.
#[verifier::external_body]
fn fr_add(a: &Fe, b: &Fe) -> (r: Fe)
    ensures
        r@ == fadd(a@, b@),
{
    let x = Fr::from_bigint(BigInt::new([a.l0, a.l1, a.l2, a.l3])).unwrap();
    let y = Fr::from_bigint(BigInt::new([b.l0, b.l1, b.l2, b.l3])).unwrap();
    let l = (x + y).into_bigint().0;
    Fe { l0: l[0], l1: l[1], l2: l[2], l3: l[3] }
}

/// Relies on `Fr`'s subtraction (limbs converted as for `fr_add`).
#[verifier::external_body]
fn fr_sub(a: &Fe, b: &Fe) -> (r: Fe)
    ensures
        r@ == fsub(a@, b@),
{
    let x = Fr::from_bigint(BigInt::new([a.l0, a.l1, a.l2, a.l3])).unwrap();
    let y = Fr::from_bigint(BigInt::new([b.l0, b.l1, b.l2, b.l3])).unwrap();
    let l = (x - y).into_bigint().0;
    Fe { l0: l[0], l1: l[1], l2: l[2], l3: l[3] }
}

/// Relies on `Fr`'s multiplication (limbs converted as for `fr_add`).
#[verifier::external_body]
fn fr_mul(a: &Fe, b: &Fe) -> (r: Fe)
    ensures
        r@ == fmul(a@, b@),
{
    let x = Fr::from_bigint(BigInt::new([a.l0, a.l1, a.l2, a.l3])).unwrap();
    let y = Fr::from_bigint(BigInt::new([b.l0, b.l1, b.l2, b.l3])).unwrap();
    let l = (x * y).into_bigint().0;
    Fe { l0: l[0], l1: l[1], l2: l[2], l3: l[3] }
}

/// Relies on `Field::pow` with a one-limb exponent: `a` raised to `e`.
#[verifier::external_body]
fn fr_pow(a: &Fe, e: u64) -> (r: Fe)
    ensures
        r@ == pow(a@, e as nat) % modulus(),
{
    let x = Fr::from_bigint(BigInt::new([a.l0, a.l1, a.l2, a.l3])).unwrap();
    let l = x.pow([e]).into_bigint().0;
    Fe { l0: l[0], l1: l[1], l2: l[2], l3: l[3] }
}

/// Relies on `Field::inverse`: `None` for zero, else the inverse.
#[verifier::external_body]
fn fr_inverse(a: &Fe) -> (r: Option<Fe>)
    ensures
        r is None <==> a@ == 0,
        r matches Some(c) ==> fmul(a@, c@) == 1,
{
    let x = Fr::from_bigint(BigInt::new([a.l0, a.l1, a.l2, a.l3])).unwrap();
    match x.inverse() {
        Some(c) => {
            let l = c.into_bigint().0;
            Some(Fe { l0: l[0], l1: l[1], l2: l[2], l3: l[3] })
        },
        None => None,
    }
}

/// Relies on `BigInteger::to_bytes_be` of `Fr::into_bigint`: the 32 bytes
/// of the canonical value, most significant first.
#[verifier::external_body]
fn fr_to_bytes_be(a: &Fe) -> (r: Vec<u8>)
    ensures
        r@ == be_bytes32(a@),
{
    let x = Fr::from_bigint(BigInt::new([a.l0, a.l1, a.l2, a.l3])).unwrap();
    x.into_bigint().to_bytes_be()
}

/// Relies on `PrimeField::from_be_bytes_mod_order`: the big-endian integer
/// reduced by the modulus.
#[verifier::external_body]
fn fr_from_be_bytes_mod_order(bytes: &[u8]) -> (r: Fe)
    ensures
        r@ == be_value(bytes@) % modulus(),
{
    let l = Fr::from_be_bytes_mod_order(bytes).into_bigint().0;
    Fe { l0: l[0], l1: l[1], l2: l[2], l3: l[3] }
}

/// An element has at most one inverse.
proof fn lemma_inverse_unique(a: int, c: int, d: int)
    requires
        0 <= c < modulus(),
        0 <= d < modulus(),
        fmul(a, c) == 1,
        fmul(a, d) == 1,
    ensures
        c == d,
{
    let p = modulus();
    // c == c * (a * d) == (c * a) * d == d, all modulo p
    vstd::arithmetic::div_mod::lemma_mul_mod_noop_right(c, a * d, p);
    vstd::arithmetic::div_mod::lemma_mul_mod_noop_left(c * a, d, p);
    assert(c * (a * d) == (c * a) * d) by (nonlinear_arith);
    assert(c * a == a * c) by (nonlinear_arith);
    vstd::arithmetic::div_mod::lemma_small_mod(c as nat, p as nat);
    vstd::arithmetic::div_mod::lemma_small_mod(d as nat, p as nat);
}

} // verus!
