use ark_bls12_381::Fr;
use ark_ff::{BigInteger256, Field, One, PrimeField, Zero};
use plonk_circuit::field::Scalar;

fn to_fr(s: &Scalar) -> Fr {
    Fr::from_repr(BigInteger256(s.limbs())).unwrap()
}

fn from_fr(f: Fr) -> Scalar {
    Scalar::from_limbs(f.into_repr().0).unwrap()
}

#[test]
fn zero_and_one_are_the_identities() {
    assert_eq!(to_fr(&Scalar::zero()), Fr::zero());
    assert_eq!(to_fr(&Scalar::one()), Fr::one());
    assert!(Scalar::zero().is_zero());
    assert!(!Scalar::one().is_zero());
}

#[test]
fn from_u64_embeds_the_integer() {
    assert_eq!(to_fr(&Scalar::from_u64(0)), Fr::zero());
    assert_eq!(to_fr(&Scalar::from_u64(17)), Fr::from(17u64));
    assert_eq!(to_fr(&Scalar::from_u64(u64::MAX)), Fr::from(u64::MAX));
    assert_eq!(Scalar::from_u64(5).limbs(), [5, 0, 0, 0]);
}

#[test]
fn from_limbs_accepts_exactly_the_canonical_representatives() {
    let modulus = [
        0xffffffff00000001u64,
        0x53bda402fffe5bfe,
        0x3339d80809a1d805,
        0x73eda753299d7d48,
    ];
    assert!(Scalar::from_limbs(modulus).is_none());
    let mut below = modulus;
    below[0] -= 1;
    let largest = Scalar::from_limbs(below).unwrap();
    assert_eq!(largest, Scalar::one().neg());
    assert_eq!(largest.limbs(), below);
    assert!(Scalar::from_limbs([0, 0, 0, 0x73eda753299d7d49]).is_none());
    assert!(Scalar::from_limbs([u64::MAX, u64::MAX, u64::MAX, u64::MAX]).is_none());
    assert_eq!(Scalar::from_limbs([9, 0, 0, 0]), Some(Scalar::from_u64(9)));
}

#[test]
fn addition_wraps_at_the_modulus() {
    let minus_one = Scalar::one().neg();
    assert_eq!(minus_one.add(&Scalar::one()), Scalar::zero());
    assert_eq!(minus_one.add(&Scalar::from_u64(3)), Scalar::from_u64(2));
    assert_eq!(Scalar::from_u64(4).add(&Scalar::from_u64(5)), Scalar::from_u64(9));
}

#[test]
fn subtraction_wraps_below_zero() {
    assert_eq!(Scalar::from_u64(9).sub(&Scalar::from_u64(4)), Scalar::from_u64(5));
    assert_eq!(Scalar::zero().sub(&Scalar::one()), Scalar::one().neg());
    assert_eq!(
        to_fr(&Scalar::from_u64(3).sub(&Scalar::from_u64(10))),
        Fr::from(3u64) - Fr::from(10u64)
    );
}

#[test]
fn multiplication_reduces_the_product() {
    assert_eq!(Scalar::from_u64(6).mul(&Scalar::from_u64(7)), Scalar::from_u64(42));
    let minus_one = Scalar::one().neg();
    assert_eq!(minus_one.mul(&minus_one), Scalar::one());
    let big = Scalar::from_u64(u64::MAX);
    assert_eq!(to_fr(&big.mul(&big)), Fr::from(u64::MAX) * Fr::from(u64::MAX));
    assert_eq!(
        big.mul(&big).limbs(),
        [1, 0xffff_ffff_ffff_fffe, 0, 0]
    );
}

#[test]
fn negation_is_the_additive_inverse() {
    assert_eq!(Scalar::zero().neg(), Scalar::zero());
    let five = Scalar::from_u64(5);
    assert_eq!(five.neg().add(&five), Scalar::zero());
    assert_eq!(
        five.neg().limbs(),
        [
            0xffffffff00000001u64 - 5,
            0x53bda402fffe5bfe,
            0x3339d80809a1d805,
            0x73eda753299d7d48
        ]
    );
}

#[test]
fn inverse_of_zero_is_none_and_others_multiply_to_one() {
    assert!(Scalar::zero().inverse().is_none());
    assert_eq!(Scalar::one().inverse(), Some(Scalar::one()));
    let three = Scalar::from_u64(3);
    let third = three.inverse().unwrap();
    assert_eq!(three.mul(&third), Scalar::one());
    assert_eq!(to_fr(&third), Fr::from(3u64).inverse().unwrap());
    assert_eq!(from_fr(Fr::from(3u64).inverse().unwrap()), third);
}
