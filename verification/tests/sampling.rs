use grid_algebra::arith::bigint::BigUint;
use grid_algebra::arith::large_prime::Bn254Fr;
use grid_algebra::arith::large_rns::Rns3V0;
use grid_algebra::arith::{IntegerRing, LargeCanonicalRing, PrimeField, Z2K};
use grid_algebra::lattice::sampling::toy::{
    CBDSampler, LargeCBDSampler, LargeTernarySampler, LargeUniformSampler, TernarySampler,
    UniformSampler, cbd_from_counts, cbd_large_from_counts, encode_signed_large, encode_signed_word,
    ternary_from_choice, ternary_large_from_choice, uniform_from_word, uniform_large_from_words,
};

type F17 = PrimeField<17>;
type Z2_64 = Z2K<64>;

#[test]
fn sampling_encode_signed_word() {
    assert_eq!(encode_signed_word::<F17>(5).to_u64(), 5);
    assert_eq!(encode_signed_word::<F17>(-1).to_u64(), 16);
    assert_eq!(encode_signed_word::<F17>(-17).to_u64(), 0);
    assert_eq!(encode_signed_word::<F17>(-18).to_u64(), 16);
    assert_eq!(encode_signed_word::<F17>(i64::MIN).to_u64(), (17 - (1u64 << 63) % 17) % 17);
    assert_eq!(encode_signed_word::<Z2_64>(-1).to_u64(), u64::MAX);
    assert_eq!(encode_signed_word::<Z2_64>(i64::MIN).to_u64(), 1u64 << 63);
}

#[test]
fn sampling_uniform_rejection_region() {
    // 2^64 mod 17 = 1, so only u64::MAX is rejected.
    assert_eq!(uniform_from_word::<F17>(u64::MAX), None);
    assert_eq!(uniform_from_word::<F17>(u64::MAX - 1).map(|e| e.to_u64()), Some((u64::MAX - 1) % 17));
    assert_eq!(uniform_from_word::<F17>(35).map(|e| e.to_u64()), Some(1));
    assert_eq!(uniform_from_word::<Z2_64>(u64::MAX).map(|e| e.to_u64()), Some(u64::MAX));
}

#[test]
fn sampling_ternary_and_cbd() {
    assert_eq!(ternary_from_choice::<F17>(0).to_u64(), 0);
    assert_eq!(ternary_from_choice::<F17>(1).to_u64(), 1);
    assert_eq!(ternary_from_choice::<F17>(2).to_u64(), 16);
    assert_eq!(cbd_from_counts::<F17>(3, 1).to_u64(), 2);
    assert_eq!(cbd_from_counts::<F17>(0, 2).to_u64(), 15);
    assert_eq!(cbd_from_counts::<F17>(2, 2).to_u64(), 0);
}

#[test]
fn sampling_constructors() {
    let _u = UniformSampler::<F17>::new();
    let _t = TernarySampler::<F17>::new();
    let _lu = LargeUniformSampler::<F17>::new();
    let _lt = LargeTernarySampler::<F17>::new();
    assert_eq!(CBDSampler::<F17>::new(3).eta(), 3);
    assert_eq!(LargeCBDSampler::<F17>::new(2).eta(), 2);
}

#[test]
fn large_signed_encoding_and_small_samples() {
    let q = <Bn254Fr as LargeCanonicalRing>::modulus_canonical();
    let (q_minus_one, _) = q.sub_small(1);
    let (q_minus_five, _) = q.sub_small(5);
    assert_eq!(encode_signed_large::<Bn254Fr, 4>(7).to_canonical(), BigUint::<4>::from_u64(7));
    assert_eq!(encode_signed_large::<Bn254Fr, 4>(-1).to_canonical(), q_minus_one);
    assert_eq!(encode_signed_large::<Bn254Fr, 4>(-5).to_canonical(), q_minus_five);
    assert_eq!(encode_signed_large::<Bn254Fr, 4>(0).try_to_u64(), Some(0));
    assert_eq!(ternary_large_from_choice::<Bn254Fr, 4>(0).try_to_u64(), Some(0));
    assert_eq!(ternary_large_from_choice::<Bn254Fr, 4>(1).try_to_u64(), Some(1));
    assert_eq!(ternary_large_from_choice::<Bn254Fr, 4>(2).to_canonical(), q_minus_one);
    assert_eq!(cbd_large_from_counts::<Bn254Fr, 4>(3, 1).try_to_u64(), Some(2));
    assert_eq!(cbd_large_from_counts::<Bn254Fr, 4>(1, 3).to_canonical(), q.sub_small(2).0);
    // Over the residue ring: -1 is M - 1.
    let m = <Rns3V0 as LargeCanonicalRing>::modulus_canonical();
    assert_eq!(<Rns3V0 as LargeCanonicalRing>::to_canonical(&encode_signed_large::<Rns3V0, 3>(-1)), m.sub_small(1).0);
    assert_eq!(i64::MIN.checked_neg(), None);
    assert_eq!(
        encode_signed_large::<Bn254Fr, 4>(i64::MIN).to_canonical(),
        q.sub_small(0).0.sub_with_borrow(&BigUint::<4>::from_u128(1u128 << 63)).0
    );
}

#[test]
fn large_uniform_draws_are_cut_to_the_modulus_width() {
    // The BN254 scalar prime has 254 bits: the top limb keeps its low 62 bits.
    let q = <Bn254Fr as LargeCanonicalRing>::modulus_canonical();
    let small = uniform_large_from_words::<Bn254Fr, 4>([5, 0, 0, 0]).unwrap();
    assert_eq!(small.try_to_u64(), Some(5));
    let cut = uniform_large_from_words::<Bn254Fr, 4>([7, 0, 0, 0xC000_0000_0000_0000]).unwrap();
    assert_eq!(cut.try_to_u64(), Some(7));
    // q itself (and anything at or above it after the cut) is rejected.
    assert!(uniform_large_from_words::<Bn254Fr, 4>(q.limbs).is_none());
    let (q_minus_one, _) = q.sub_small(1);
    let top = uniform_large_from_words::<Bn254Fr, 4>(q_minus_one.limbs).unwrap();
    assert_eq!(top.to_canonical(), q_minus_one);
    assert!(uniform_large_from_words::<Bn254Fr, 4>([u64::MAX; 4]).is_none());
    // The residue ring's modulus has 133 bits: limb 2 keeps its low 5 bits.
    let r = uniform_large_from_words::<Rns3V0, 3>([1, 2, 0xFFFF_FFFF_FFFF_FFE3]).unwrap();
    assert_eq!(<Rns3V0 as LargeCanonicalRing>::to_canonical(&r).limbs, [1, 2, 3]);
}
