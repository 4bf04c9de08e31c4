//! Elements of the BN254 scalar field, held as the four 64-bit limbs of
//! their canonical (least) non-negative representative.
//!
//! The protocol engine only reads the representative: equality, order (for
//! the hypercube enumerator's bounded counting), and zero tests are decided
//! on the limbs in verified code. The field operations themselves — addition,
//! multiplication, exponentiation modulo the prime — are delegated to the
//! `ark_ff` / `ark_bn254` arithmetic behind trusted wrappers.

use ark_ff::Field;
use ark_ff::PrimeField;
use vstd::prelude::*;

verus! {

/// 2^64, the radix of the limb representation.
pub open spec fn b64() -> int {
    0x10000000000000000
}

/// The BN254 scalar field modulus, in the limb radix. Its decimal value is
/// 21888242871839275222246405745257275088548364400416034343698204186575808495617.
pub open spec fn prime() -> int {
    0x43e1f593f0000001 + b64() * (0x2833e84879b97091 + b64() * (0xb85045b68181585d
        + b64() * 0x30644e72e131a029))
}

/// A field element: four little-endian 64-bit limbs of the canonical
/// representative.
#[derive(Clone, Copy, PartialEq, Eq, Structural, Debug)]
pub struct Scalar {
    pub l0: u64,
    pub l1: u64,
    pub l2: u64,
    pub l3: u64,
}

impl Scalar {
    /// The integer value represented by the limbs.
    pub open spec fn val(self) -> int {
        self.l0 + b64() * (self.l1 + b64() * (self.l2 + b64() * self.l3))
    }

    /// Well-formed: the representative is canonical (below the modulus).
    pub open spec fn wf(self) -> bool {
        self.val() < prime()
    }

    /// The additive identity.
    pub fn zero() -> (r: Scalar)
        ensures
            r.val() == 0,
            r.wf(),
    {
        Scalar { l0: 0, l1: 0, l2: 0, l3: 0 }
    }

    /// The multiplicative identity.
    pub fn one() -> (r: Scalar)
        ensures
            r.val() == 1,
            r.wf(),
    {
        Scalar { l0: 1, l1: 0, l2: 0, l3: 0 }
    }

    /// Embeds a small non-negative integer.
    pub fn from_u64(x: u64) -> (r: Scalar)
        ensures
            r.val() == x,
            r.wf(),
    {
        Scalar { l0: x, l1: 0, l2: 0, l3: 0 }
    }

    /// Zero test on the canonical representative.
    pub fn is_zero(&self) -> (r: bool)
        ensures
            r == (self.val() == 0),
    {
        self.l0 == 0 && self.l1 == 0 && self.l2 == 0 && self.l3 == 0
    }
}

/// One mixed-radix digit: equality and order of `x0 + b*xh` against
/// `y0 + b*yh` are decided digit-wise when the low digits are below `b`.
proof fn lemma_digit(b: int, x0: int, xh: int, y0: int, yh: int)
    by (nonlinear_arith)
    requires
        b > 0,
        0 <= x0 < b,
        0 <= y0 < b,
    ensures
        (x0 + b * xh == y0 + b * yh) <==> (x0 == y0 && xh == yh),
        (x0 + b * xh < y0 + b * yh) <==> (xh < yh || (xh == yh && x0 < y0)),
{
}

/// The represented value is never negative.
pub proof fn lemma_val_nonneg(a: Scalar)
    ensures
        a.val() >= 0,
{
}

/// Two limb vectors represent the same integer only if they are identical.
pub proof fn lemma_val_injective(a: Scalar, b: Scalar)
    requires
        a.val() == b.val(),
    ensures
        a == b,
{
    lemma_digit(b64(), a.l0 as int, a.l1 + b64() * (a.l2 + b64() * a.l3),
        b.l0 as int, b.l1 + b64() * (b.l2 + b64() * b.l3));
    lemma_digit(b64(), a.l1 as int, a.l2 + b64() * a.l3,
        b.l1 as int, b.l2 + b64() * b.l3);
    lemma_digit(b64(), a.l2 as int, a.l3 as int, b.l2 as int, b.l3 as int);
}

/// Order on the canonical representatives, used by the hypercube enumerator
/// to count 0, 1, 2, ... up to its bound.
pub fn scalar_lt(a: &Scalar, b: &Scalar) -> (r: bool)
    ensures
        r == (a.val() < b.val()),
{
    proof {
        lemma_digit(b64(), a.l0 as int, a.l1 + b64() * (a.l2 + b64() * a.l3),
            b.l0 as int, b.l1 + b64() * (b.l2 + b64() * b.l3));
        lemma_digit(b64(), a.l1 as int, a.l2 + b64() * a.l3,
            b.l1 as int, b.l2 + b64() * b.l3);
        lemma_digit(b64(), a.l2 as int, a.l3 as int, b.l2 as int, b.l3 as int);
    }
    if a.l3 != b.l3 {
        a.l3 < b.l3
    } else if a.l2 != b.l2 {
        a.l2 < b.l2
    } else if a.l1 != b.l1 {
        a.l1 < b.l1
    } else {
        a.l0 < b.l0
    }
}

/// The integer values of a sequence of field elements.
pub open spec fn vals(s: Seq<Scalar>) -> Seq<int> {
    s.map_values(|x: Scalar| x.val())
}

/// `base` raised to the `e`-th power, reduced modulo the field prime at
/// every step.
pub open spec fn pow_mod(base: int, e: nat) -> int
    decreases e,
{
    if e == 0 {
        1
    } else {
        (base * pow_mod(base, (e - 1) as nat)) % prime()
    }
}

/// Field addition. Relies on `ark_bn254::Fr`: addition of two canonical
/// representatives is addition of the integers modulo the field prime, and
/// `ark_ff::PrimeField::into_bigint` returns the canonical representative.
#[verifier::external_body]
pub(crate) fn fe_add(a: &Scalar, b: &Scalar) -> (r: Scalar)
    requires
        a.wf(),
        b.wf(),
    ensures
        r.val() == (a.val() + b.val()) % prime(),
        r.wf(),
{
    let x = ark_bn254::Fr::from_bigint(ark_ff::BigInt([a.l0, a.l1, a.l2, a.l3])).unwrap();
    let y = ark_bn254::Fr::from_bigint(ark_ff::BigInt([b.l0, b.l1, b.l2, b.l3])).unwrap();
    let s = (x + y).into_bigint().0;
    Scalar { l0: s[0], l1: s[1], l2: s[2], l3: s[3] }
}

/// Field multiplication. Relies on `ark_bn254::Fr`: multiplication of two
/// canonical representatives is multiplication of the integers modulo the
/// field prime, and `into_bigint` returns the canonical representative.
#[verifier::external_body]
pub(crate) fn fe_mul(a: &Scalar, b: &Scalar) -> (r: Scalar)
    requires
        a.wf(),
        b.wf(),
    ensures
        r.val() == (a.val() * b.val()) % prime(),
        r.wf(),
{
    let x = ark_bn254::Fr::from_bigint(ark_ff::BigInt([a.l0, a.l1, a.l2, a.l3])).unwrap();
    let y = ark_bn254::Fr::from_bigint(ark_ff::BigInt([b.l0, b.l1, b.l2, b.l3])).unwrap();
    let s = (x * y).into_bigint().0;
    Scalar { l0: s[0], l1: s[1], l2: s[2], l3: s[3] }
}

/// Field exponentiation by a 64-bit exponent. Relies on
/// `ark_ff::Field::pow`, which returns `self^exp` in the field — that is,
/// the `e`-fold product of `a` with itself, reduced modulo the prime.
#[verifier::external_body]
pub(crate) fn fe_pow(a: &Scalar, e: u64) -> (r: Scalar)
    requires
        a.wf(),
    ensures
        r.val() == pow_mod(a.val(), e as nat),
        r.wf(),
{
    let x = ark_bn254::Fr::from_bigint(ark_ff::BigInt([a.l0, a.l1, a.l2, a.l3])).unwrap();
    let s = x.pow([e]).into_bigint().0;
    Scalar { l0: s[0], l1: s[1], l2: s[2], l3: s[3] }
}

} // verus!
