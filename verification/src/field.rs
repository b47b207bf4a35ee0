//! Elements of the scalar field of BLS12-381.
//!
//! A [`Scalar`] holds the canonical representative of a residue class as four
//! little-endian 64-bit limbs; that the limbs stay below the modulus is the
//! type's invariant. Its view is the representative as a natural number. The
//! arithmetic itself is delegated to `ark_ff`; the contracts of the
//! delegating functions state the arithmetic of the integers modulo
//! [`modulus`].

use ark_bls12_381::Fr;
use ark_ff::{BigInteger256, Field, PrimeField, UniformRand};
use ark_std::rand::rngs::StdRng;
use vstd::arithmetic::div_mod::{lemma_mul_mod_noop, lemma_small_mod};
use vstd::prelude::*;

verus! {

/// The order of the field:
/// 52435875175126190479447740508185965837690552500527637822603658699938581184513.
pub open spec fn modulus() -> nat {
    0x73eda753299d7d483339d80809a1d80553bda402fffe5bfeffffffff00000001nat
}

/// The number that four little-endian 64-bit limbs stand for.
pub open spec fn limbs_value(l0: u64, l1: u64, l2: u64, l3: u64) -> nat {
    (l0 as nat) + (l1 as nat) * 0x1_0000_0000_0000_0000nat + (l2 as nat)
        * 0x1_0000_0000_0000_0000_0000_0000_0000_0000nat + (l3 as nat)
        * 0x1_0000_0000_0000_0000_0000_0000_0000_0000_0000_0000_0000_0000nat
}

/// Sum of two residues.
pub open spec fn add_mod(a: nat, b: nat) -> nat {
    (a + b) % modulus()
}

/// Difference of two residues.
pub open spec fn sub_mod(a: nat, b: nat) -> nat {
    ((a as int - b as int) % (modulus() as int)) as nat
}

/// Product of two residues.
pub open spec fn mul_mod(a: nat, b: nat) -> nat {
    (a * b) % modulus()
}

/// Additive inverse of a residue.
pub open spec fn neg_mod(a: nat) -> nat {
    ((-(a as int)) % (modulus() as int)) as nat
}

/// Multiplicative inverse of a residue that is not zero: the residue whose
/// product with it is one.
pub open spec fn inverse_mod(a: nat) -> nat {
    choose|y: nat| y < modulus() && mul_mod(a, y) == 1
}

/// Least significant limb of the modulus.
pub const MODULUS_LIMB_0: u64 = 0xffffffff00000001;

/// Second limb of the modulus.
pub const MODULUS_LIMB_1: u64 = 0x53bda402fffe5bfe;

/// Third limb of the modulus.
pub const MODULUS_LIMB_2: u64 = 0x3339d80809a1d805;

/// Most significant limb of the modulus.
pub const MODULUS_LIMB_3: u64 = 0x73eda753299d7d48;

/// An element of the scalar field of BLS12-381.
#[derive(Clone, Copy, Debug, PartialEq, Eq, Hash, Structural)]
pub struct Scalar {
    pub(crate) l0: u64,
    pub(crate) l1: u64,
    pub(crate) l2: u64,
    pub(crate) l3: u64,
}

impl View for Scalar {
    type V = nat;

    closed spec fn view(&self) -> nat {
        limbs_value(self.l0, self.l1, self.l2, self.l3)
    }
}

impl Scalar {
    /// The limbs hold a number below the modulus.
    #[verifier::type_invariant]
    closed spec fn canonical(self) -> bool {
        limbs_value(self.l0, self.l1, self.l2, self.l3) < modulus()
    }

    /// Makes the type's invariant known to the caller: the view of a scalar
    /// is below the modulus.
    pub fn reduced(&self)
        ensures
            self@ < modulus(),
    {
        proof {
            use_type_invariant(self);
        }
    }

    /// Two scalars are the same scalar exactly when they have the same view.
    pub proof fn lemma_view_injective(a: Scalar, b: Scalar)
        ensures
            (a@ == b@) == (a == b),
    {
    }

    /// The additive identity.
    pub fn zero() -> (r: Scalar)
        ensures
            r@ == 0,
    {
        Scalar { l0: 0, l1: 0, l2: 0, l3: 0 }
    }

    /// The multiplicative identity.
    pub fn one() -> (r: Scalar)
        ensures
            r@ == 1,
    {
        Scalar { l0: 1, l1: 0, l2: 0, l3: 0 }
    }

    /// Embeds an unsigned 64-bit integer.
    pub fn from_u64(x: u64) -> (r: Scalar)
        ensures
            r@ == x,
    {
        Scalar { l0: x, l1: 0, l2: 0, l3: 0 }
    }

    /// Builds a scalar from little-endian limbs, if they hold a number below
    /// the modulus.
    pub fn from_limbs(limbs: [u64; 4]) -> (r: Option<Scalar>)
        ensures
            match r {
                Some(s) => s@ == limbs_value(limbs[0], limbs[1], limbs[2], limbs[3]) && s@
                    < modulus(),
                None => limbs_value(limbs[0], limbs[1], limbs[2], limbs[3]) >= modulus(),
            },
    {
        let l0: u64 = limbs[0];
        let l1: u64 = limbs[1];
        let l2: u64 = limbs[2];
        let l3: u64 = limbs[3];
        let below = l3 < MODULUS_LIMB_3 || (l3 == MODULUS_LIMB_3 && (l2 < MODULUS_LIMB_2 || (l2
            == MODULUS_LIMB_2 && (l1 < MODULUS_LIMB_1 || (l1 == MODULUS_LIMB_1 && l0
            < MODULUS_LIMB_0)))));
        if below {
            Some(Scalar { l0, l1, l2, l3 })
        } else {
            None
        }
    }

    /// The little-endian limbs of the canonical representative.
    pub fn limbs(&self) -> (r: [u64; 4])
        ensures
            limbs_value(r[0], r[1], r[2], r[3]) == self@,
    {
        [self.l0, self.l1, self.l2, self.l3]
    }

    /// Whether this is the additive identity.
    pub fn is_zero(&self) -> (r: bool)
        ensures
            r == (self@ == 0),
    {
        self.l0 == 0 && self.l1 == 0 && self.l2 == 0 && self.l3 == 0
    }

    /// Sum in the field.
    pub fn add(&self, rhs: &Scalar) -> (r: Scalar)
        ensures
            r@ == add_mod(self@, rhs@),
    {
        fr_add(self, rhs)
    }

    /// Difference in the field.
    pub fn sub(&self, rhs: &Scalar) -> (r: Scalar)
        ensures
            r@ == sub_mod(self@, rhs@),
    {
        fr_sub(self, rhs)
    }

    /// Product in the field.
    pub fn mul(&self, rhs: &Scalar) -> (r: Scalar)
        ensures
            r@ == mul_mod(self@, rhs@),
    {
        fr_mul(self, rhs)
    }

    /// Additive inverse in the field.
    pub fn neg(&self) -> (r: Scalar)
        ensures
            r@ == neg_mod(self@),
    {
        fr_neg(self)
    }

    /// An element of the field drawn with the generator. Which element is
    /// drawn is for the generator to decide; whatever it is, its view is
    /// below the modulus.
    pub fn rand(rng: &mut StdRng) -> (r: Scalar)
        ensures
            r@ < modulus(),
    {
        let r = fr_rand(rng);
        r.reduced();
        r
    }

    /// Multiplicative inverse in the field; zero has none.
    pub fn inverse(&self) -> (r: Option<Scalar>)
        ensures
            self@ == 0 ==> r is None,
            self@ != 0 ==> r is Some && r->0@ == inverse_mod(self@) && mul_mod(self@, r->0@)
                == 1,
    {
        let r = fr_inverse(self);
        if let Some(y) = r {
            y.reduced();
            proof {
                lemma_inverse_unique(self@, y@, inverse_mod(self@));
            }
        }
        r
    }
}

/// The views of a sequence of field elements.
pub open spec fn scalar_views(s: Seq<Scalar>) -> Seq<nat> {
    Seq::new(s.len(), |i: int| s[i]@)
}

/// An element of the field has at most one inverse.
pub proof fn lemma_inverse_unique(a: nat, y: nat, z: nat)
    requires
        y < modulus(),
        z < modulus(),
        mul_mod(a, y) == 1,
        mul_mod(a, z) == 1,
    ensures
        y == z,
{
    let p = modulus() as int;
    // y = y * (a * z) = (a * y) * z = z, all modulo p
    lemma_mul_mod_noop(y as int, (a * z) as int, p);
    lemma_mul_mod_noop((a * y) as int, z as int, p);
    lemma_small_mod(y, modulus());
    lemma_small_mod(z, modulus());
    assert(y * (a * z) == (a * y) * z) by (nonlinear_arith);
    assert((y % modulus()) * 1 == y);
    assert(1 * (z % modulus()) == z);
}

/// The random number generator `StdRng` of the `rand` crate, as
/// `ark_std` hands it on. Nothing is known of its state.
#[verifier::external_type_specification]
#[verifier::external_body]
pub struct ExStdRng(StdRng);

/// Calls `ark_ff::UniformRand::rand` for `ark_bls12_381::Fr`. The contract
/// claims nothing of the element that is drawn, nor of the state that the
/// generator is left in.
#[verifier::external_body]
fn fr_rand(rng: &mut StdRng) -> (r: Scalar) {
    let z = Fr::rand(rng).into_repr().0;
    Scalar { l0: z[0], l1: z[1], l2: z[2], l3: z[3] }
}

/// Calls `+` of `ark_bls12_381::Fr`. The contract claims that it adds the
/// canonical representatives modulo the field order. By the invariant of
/// [`Scalar`] the limbs are below the modulus, so the conversion succeeds.
#[verifier::external_body]
fn fr_add(a: &Scalar, b: &Scalar) -> (r: Scalar)
    ensures
        r@ == add_mod(a@, b@),
{
    let x = Fr::from_repr(BigInteger256([a.l0, a.l1, a.l2, a.l3])).unwrap();
    let y = Fr::from_repr(BigInteger256([b.l0, b.l1, b.l2, b.l3])).unwrap();
    let z = (x + y).into_repr().0;
    Scalar { l0: z[0], l1: z[1], l2: z[2], l3: z[3] }
}

/// Calls `-` of `ark_bls12_381::Fr`. The contract claims that it subtracts
/// the canonical representatives modulo the field order. By the invariant of
/// [`Scalar`] the limbs are below the modulus, so the conversion succeeds.
#[verifier::external_body]
fn fr_sub(a: &Scalar, b: &Scalar) -> (r: Scalar)
    ensures
        r@ == sub_mod(a@, b@),
{
    let x = Fr::from_repr(BigInteger256([a.l0, a.l1, a.l2, a.l3])).unwrap();
    let y = Fr::from_repr(BigInteger256([b.l0, b.l1, b.l2, b.l3])).unwrap();
    let z = (x - y).into_repr().0;
    Scalar { l0: z[0], l1: z[1], l2: z[2], l3: z[3] }
}

/// Calls `*` of `ark_bls12_381::Fr`. The contract claims that it multiplies
/// the canonical representatives modulo the field order. By the invariant of
/// [`Scalar`] the limbs are below the modulus, so the conversion succeeds.
#[verifier::external_body]
fn fr_mul(a: &Scalar, b: &Scalar) -> (r: Scalar)
    ensures
        r@ == mul_mod(a@, b@),
{
    let x = Fr::from_repr(BigInteger256([a.l0, a.l1, a.l2, a.l3])).unwrap();
    let y = Fr::from_repr(BigInteger256([b.l0, b.l1, b.l2, b.l3])).unwrap();
    let z = (x * y).into_repr().0;
    Scalar { l0: z[0], l1: z[1], l2: z[2], l3: z[3] }
}

/// Calls unary `-` of `ark_bls12_381::Fr`. The contract claims that it
/// negates the canonical representative modulo the field order. By the
/// invariant of [`Scalar`] the limbs are below the modulus, so the conversion
/// succeeds.
#[verifier::external_body]
fn fr_neg(a: &Scalar) -> (r: Scalar)
    ensures
        r@ == neg_mod(a@),
{
    let x = Fr::from_repr(BigInteger256([a.l0, a.l1, a.l2, a.l3])).unwrap();
    let z = (-x).into_repr().0;
    Scalar { l0: z[0], l1: z[1], l2: z[2], l3: z[3] }
}

/// Calls `ark_ff::Field::inverse` on `ark_bls12_381::Fr`. The contract claims
/// that zero has no inverse and that every other element has one, whose
/// product with the element is one. By the invariant of [`Scalar`] the limbs
/// are below the modulus, so the conversion succeeds.
#[verifier::external_body]
fn fr_inverse(a: &Scalar) -> (r: Option<Scalar>)
    ensures
        a@ == 0 ==> r is None,
        a@ != 0 ==> r is Some && mul_mod(a@, r->0@) == 1,
{
    let x = Fr::from_repr(BigInteger256([a.l0, a.l1, a.l2, a.l3])).unwrap();
    match x.inverse() {
        Some(y) => {
            let z = y.into_repr().0;
            Some(Scalar { l0: z[0], l1: z[1], l2: z[2], l3: z[3] })
        },
        None => None,
    }
}

} // verus!
