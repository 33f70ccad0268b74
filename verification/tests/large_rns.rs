use grid_algebra::arith::bigint::BigUint;
use grid_algebra::arith::large_rns::{LargeRnsProfile, Rns3V0, Rns3V0Profile};
use grid_algebra::arith::composite::CompositeRing;
use grid_algebra::arith::ring::{ring_add_assign_slice, ring_sub_assign_slice};
use grid_algebra::arith::rns::RnsBasis;
use std::sync::Arc;
use grid_algebra::arith::{LargeCanonicalRing, Ring};
use grid_algebra::serialize::{CanonicalDeserialize, CanonicalSerialize};

fn residues_of(v: u128) -> [u64; 3] {
    let m = <Rns3V0Profile as LargeRnsProfile<3>>::MODULI;
    [(v % m[0] as u128) as u64, (v % m[1] as u128) as u64, (v % m[2] as u128) as u64]
}

#[test]
fn rns3_reconstructs_small_values() {
    let x = Rns3V0::try_from_residues(residues_of(12345)).unwrap();
    assert_eq!(x.reconstruct_canonical().limbs, [12345, 0, 0]);
    let zero = Rns3V0::try_from_residues([0, 0, 0]).unwrap();
    assert_eq!(zero.reconstruct_canonical().limbs, [0, 0, 0]);
}

#[test]
fn rns3_reconstructs_values_above_two_limbs_of_residues() {
    // 2^100 + 7
    let x = Rns3V0::try_from_residues([11294452008712, 15744791377675, 370533037836]).unwrap();
    assert_eq!(x.reconstruct_canonical().limbs, [7, 68719476736, 0]);
    // M - 1 has residues m_i - 1.
    let top = Rns3V0::try_from_residues([17592216453120, 17592247910400, 17592258396160]).unwrap();
    assert_eq!(top.reconstruct_canonical().limbs, [12690746826397057024, 2761981420379660, 16]);
}

#[test]
fn rns3_rejects_a_residue_not_below_its_modulus() {
    let m = <Rns3V0Profile as LargeRnsProfile<3>>::MODULI;
    assert!(Rns3V0::try_from_residues([m[0], 0, 0]).is_err());
    assert!(Rns3V0::try_from_residues([0, 0, m[2] + 1]).is_err());
    let ok = Rns3V0::try_from_residues([m[0] - 1, 1, 2]).unwrap();
    assert_eq!(ok.residues(), &[m[0] - 1, 1, 2]);
}

#[test]
fn rns3_residue_arithmetic_matches_integer_arithmetic() {
    let a = Rns3V0::from_small_u64(10);
    let b = Rns3V0::from_small_u64(20);
    assert_eq!(a.add_residues(&b).reconstruct_canonical().limbs, [30, 0, 0]);
    assert_eq!(b.sub_residues(&a).reconstruct_canonical().limbs, [10, 0, 0]);
    assert_eq!(a.mul_residues(&b).reconstruct_canonical().limbs, [200, 0, 0]);
    // 10 - 20 = M - 10.
    let m = <Rns3V0Profile as LargeRnsProfile<3>>::MODULUS;
    assert_eq!(a.sub_residues(&b).reconstruct_canonical().limbs, [m[0] - 10, m[1], m[2]]);
    assert_eq!(a.neg_residues().add_residues(&a).reconstruct_canonical().limbs, [0, 0, 0]);
    // A product above 2^64 reconstructs exactly.
    let x = Rns3V0::from_small_u64(12345678901234);
    let y = Rns3V0::from_small_u64(98765432109876);
    let p = 12345678901234u128 * 98765432109876u128;
    assert_eq!(x.mul_residues(&y).reconstruct_canonical().limbs, [p as u64, (p >> 64) as u64, 0]);
}

#[test]
fn rns3_canonical_round_trip() {
    let v = BigUint::<3> { limbs: [11, 7, 5] };
    let x = Rns3V0::from_canonical(&v);
    assert_eq!(x.residues(), &[12779413277930, 3247911122729, 15365914535211]);
    assert_eq!(x.to_canonical().limbs, [11, 7, 5]);
    // A value above M comes back reduced modulo M.
    let w = BigUint::<3> { limbs: [99, u64::MAX, 123] };
    assert_eq!(
        Rns3V0::from_canonical(&w).to_canonical().limbs,
        [3398492583768359004, 18427410203766893990, 11]
    );
}

fn canon(x: &Rns3V0) -> [u64; 3] {
    <Rns3V0 as LargeCanonicalRing>::to_canonical(x).limbs
}

fn small(v: u64) -> Rns3V0 {
    <Rns3V0 as LargeCanonicalRing>::from_small_u64(v)
}

#[test]
fn test_rns3_v0_large_rns_backend() {
    // Ring axioms on 3, 5, 7.
    let (a3, a5, a7) = (small(3), small(5), small(7));
    assert_eq!(canon(&(a3 + a5)), canon(&(a5 + a3)));
    assert_eq!(canon(&(a3 * a5)), canon(&(a5 * a3)));
    assert_eq!(canon(&((a3 + a5) + a7)), canon(&(a3 + (a5 + a7))));
    assert_eq!(canon(&((a3 * a5) * a7)), canon(&(a3 * (a5 * a7))));
    assert_eq!(canon(&(a3 * (a5 + a7))), canon(&((a3 * a5) + (a3 * a7))));
    assert_eq!(canon(&(a3 + Rns3V0::zero())), canon(&a3));
    assert_eq!(canon(&(a3 * Rns3V0::one())), canon(&a3));
    assert_eq!(canon(&(a3 + (-a3))), [0, 0, 0]);
    assert_eq!(canon(&(a3 - a5)), canon(&(a3 + (-a5))));
    assert!(Rns3V0::zero().is_zero());
    assert!(Rns3V0::one().is_one());
    assert!(!a3.is_zero());

    let a = small(1234);
    let b = small(5678);
    assert_eq!((a + b).try_to_u128(), Some(6912));
    assert_eq!((a * b).try_to_u128(), Some(1234u128.wrapping_mul(5678u128)));

    let modulus = Rns3V0::modulus_canonical();
    let (modulus_minus_one, borrow) = modulus.sub_small(1);
    assert!(!borrow);
    let (modulus_plus_five, carry) = modulus.add_small(5);
    assert!(!carry);
    assert!(<Rns3V0 as LargeCanonicalRing>::from_canonical(&modulus_minus_one)
        .try_to_u128()
        .is_none());
    assert_eq!(<Rns3V0 as LargeCanonicalRing>::from_canonical(&modulus_plus_five).try_to_u64(), Some(5));

    let bytes = a.serialize().unwrap();
    assert_eq!(bytes.len(), 3 * 8);
    let mut canonical_bytes = Vec::new();
    for limb in canon(&a) {
        canonical_bytes.extend_from_slice(&limb.to_le_bytes());
    }
    assert_eq!(bytes, canonical_bytes);
    let (decoded, consumed) = Rns3V0::deserialize(&bytes).unwrap();
    assert_eq!(consumed, 3 * 8);
    assert_eq!(decoded.residues(), a.residues());
}

#[test]
fn test_large_rns_deserialize_rejects_value_at_modulus() {
    let mut bytes = Vec::new();
    for limb in Rns3V0::modulus_canonical().limbs {
        bytes.extend_from_slice(&limb.to_le_bytes());
    }
    assert!(Rns3V0::deserialize(&bytes).is_err());
    // One below the modulus decodes to M - 1.
    bytes[0] -= 1;
    let (top, _) = Rns3V0::deserialize(&bytes).unwrap();
    assert_eq!(canon(&top), [0xb01e_9700_09d0_0000, 0x0009_d001_e970_1e0c, 0x10]);
    assert!(Rns3V0::deserialize(&bytes[..23]).is_err());
}

#[test]
fn test_large_rns_slice_hooks_match_scalar_ops() {
    let lhs = [small(1), small(2), small(3), small(4), small(5)];
    let rhs = [small(9), small(8), small(7), small(6), small(5)];
    let mut add_actual = lhs;
    let mut sub_actual = lhs;
    ring_add_assign_slice(&mut add_actual, &rhs);
    ring_sub_assign_slice(&mut sub_actual, &rhs);
    for i in 0..5 {
        assert_eq!(add_actual[i].residues(), (lhs[i] + rhs[i]).residues());
        assert_eq!(sub_actual[i].residues(), (lhs[i] - rhs[i]).residues());
    }
    assert_eq!(canon(&add_actual[0]), [10, 0, 0]);
    // 1 - 9 = M - 8.
    let m = <Rns3V0Profile as LargeRnsProfile<3>>::MODULUS;
    assert_eq!(canon(&sub_actual[0]), [m[0] - 8, m[1], m[2]]);
}

#[test]
fn test_large_rns_composite_interop_round_trip() {
    let value = small(123456789);
    let dynamic = value.to_composite();
    assert_eq!(dynamic.to_canonical::<3>().limbs, canon(&value));
    assert_eq!(Rns3V0::try_from_composite(&dynamic).unwrap().residues(), value.residues());
}

#[test]
fn test_large_rns_try_from_composite_rejects_basis_mismatch() {
    let wrong = CompositeRing::from_u64_with_basis(1, Arc::new(RnsBasis::new(vec![7, 11, 13])));
    assert!(Rns3V0::try_from_composite(&wrong).is_err());
}
