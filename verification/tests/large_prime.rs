use grid_algebra::arith::bigint::BigUint;
use grid_algebra::arith::large_prime::{
    Bls12_381FqProfile, Bls12_381FrProfile, Bn254FqProfile, Bn254Fr, Bn254FrProfile, LargePrimeField,
    LargePrimeProfile,
};
use grid_algebra::arith::ring::{ring_add_assign_scaled_slice, ring_add_assign_slice, ring_sub_assign_slice};
use grid_algebra::arith::{LargeCanonicalRing, Ring};
use grid_algebra::serialize::{CanonicalDeserialize, CanonicalSerialize};

#[test]
fn bn254_inverse_of_small_values() {
    let two = BigUint::<4> { limbs: [2, 0, 0, 0] };
    assert_eq!(
        Bn254Fr::invert_canonical(&two).limbs,
        [11669102379873075201, 10671829228508198984, 15863968012492123182, 1743499133401485332]
    );
    let three = BigUint::<4> { limbs: [3, 0, 0, 0] };
    assert_eq!(
        Bn254Fr::invert_canonical(&three).limbs,
        [3260973790691065857, 8080190946774414774, 15003042658752980371, 2324665511201980443]
    );
    let one = BigUint::<4> { limbs: [1, 0, 0, 0] };
    assert_eq!(Bn254Fr::invert_canonical(&one).limbs, [1, 0, 0, 0]);
}

#[test]
fn bn254_inverse_of_large_values() {
    let a = BigUint::<4> { limbs: [12345678901234567890, 0, 0, 0] };
    assert_eq!(
        Bn254Fr::invert_canonical(&a).limbs,
        [7444795054778515457, 12658033717270113796, 10482300310931068577, 1379289774110029567]
    );
    // q - 1 = -1 is its own inverse.
    let minus_one = BigUint::<4> {
        limbs: [4891460686036598784, 2896914383306846353, 13281191951274694749, 3486998266802970665],
    };
    assert_eq!(Bn254Fr::invert_canonical(&minus_one).limbs, minus_one.limbs);
}

fn canon<P: LargePrimeProfile<L>, const L: usize>(x: &LargePrimeField<P, L>) -> BigUint<L> {
    <LargePrimeField<P, L> as LargeCanonicalRing>::to_canonical(x)
}

fn elem<P: LargePrimeProfile<L>, const L: usize>(v: u64) -> LargePrimeField<P, L> {
    <LargePrimeField<P, L> as LargeCanonicalRing>::from_small_u64(v)
}

/// `value mod modulus` by repeated subtraction.
fn naive_reduce<const L: usize>(mut value: BigUint<L>, modulus: &BigUint<L>) -> BigUint<L> {
    loop {
        let (next, borrow) = value.sub_with_borrow(modulus);
        if borrow {
            return value;
        }
        value = next;
    }
}

/// `base^exp` by square-and-multiply over the bits of `exp`, most significant first.
fn pow_bigint<P: LargePrimeProfile<L>, const L: usize>(
    base: LargePrimeField<P, L>,
    exp: &BigUint<L>,
) -> LargePrimeField<P, L> {
    let mut result = <LargePrimeField<P, L> as Ring>::one();
    for i in (0..L).rev() {
        let limb = exp.limbs[i];
        for bit in (0..64).rev() {
            result = result * result;
            if (limb >> bit) & 1 == 1 {
                result = result * base;
            }
        }
    }
    result
}

fn exercise_large_prime_profile<P: LargePrimeProfile<L>, const L: usize>() {
    let (a3, a5, a7) = (elem::<P, L>(3), elem::<P, L>(5), elem::<P, L>(7));
    assert_eq!(canon(&(a3 + a5)), canon(&(a5 + a3)));
    assert_eq!(canon(&(a3 * a5)), canon(&(a5 * a3)));
    assert_eq!(canon(&((a3 + a5) + a7)), canon(&(a3 + (a5 + a7))));
    assert_eq!(canon(&((a3 * a5) * a7)), canon(&(a3 * (a5 * a7))));
    assert_eq!(canon(&(a3 * (a5 + a7))), canon(&((a3 * a5) + (a3 * a7))));
    assert_eq!(canon(&(a3 + <LargePrimeField<P, L> as Ring>::zero())), canon(&a3));
    assert_eq!(canon(&(a3 * <LargePrimeField<P, L> as Ring>::one())), canon(&a3));
    assert_eq!(canon(&(a3 + (-a3))), BigUint::<L>::zero());
    assert_eq!(canon(&(a3 - a5)), canon(&(a3 + (-a5))));
    assert_eq!(elem::<P, L>(19).try_to_u64(), Some(19));

    let a = elem::<P, L>(1234);
    let b = elem::<P, L>(5678);
    assert_eq!(canon(&(a + b)), BigUint::<L>::from_u64(6912));
    assert_eq!(canon(&(a * b)), BigUint::<L>::from_u128(1234u128 * 5678u128));

    let modulus = <LargePrimeField<P, L> as LargeCanonicalRing>::modulus_canonical();
    let (modulus_minus_one, borrow) = modulus.sub_small(1);
    assert!(!borrow);
    let (modulus_plus_five, carry) = modulus.add_small(5);
    assert!(!carry);
    let max = BigUint { limbs: [u64::MAX; L] };
    assert_eq!(canon(&<LargePrimeField<P, L> as LargeCanonicalRing>::from_canonical(&max)), naive_reduce(max, &modulus));

    let mut state = 0x2545_F491_4F6C_DD1Du64;
    for _ in 0..256 {
        let mut limbs = [0u64; L];
        for limb in limbs.iter_mut() {
            state = state.wrapping_mul(6364136223846793005).wrapping_add(1442695040888963407);
            *limb = state;
        }
        let value = BigUint { limbs };
        let reduced = canon(&<LargePrimeField<P, L> as LargeCanonicalRing>::from_canonical(&value));
        assert_eq!(reduced, naive_reduce(value, &modulus));
    }

    let minus_one = <LargePrimeField<P, L> as LargeCanonicalRing>::from_canonical(&modulus_minus_one);
    assert_eq!(canon(&(minus_one + elem::<P, L>(2))), BigUint::<L>::one());
    assert_eq!(canon(&(minus_one * minus_one)), BigUint::<L>::one());
    assert_eq!(
        canon(&<LargePrimeField<P, L> as LargeCanonicalRing>::from_canonical(&modulus_plus_five)),
        BigUint::<L>::from_u64(5)
    );

    let seven = elem::<P, L>(7);
    assert_eq!(canon(&(seven * seven.inv())), BigUint::<L>::one());
    let (modulus_minus_two, borrow) = modulus.sub_small(2);
    assert!(!borrow);
    assert_eq!(canon(&seven.inv()), canon(&pow_bigint(seven, &modulus_minus_two)));

    let bytes = minus_one.serialize().unwrap();
    assert_eq!(bytes.len(), L * 8);
    let (decoded, consumed) = LargePrimeField::<P, L>::deserialize(&bytes).unwrap();
    assert_eq!(consumed, L * 8);
    assert_eq!(canon(&decoded), canon(&minus_one));
    let modulus_bytes = <LargePrimeField<P, L> as LargeCanonicalRing>::modulus_canonical();
    let mut raw = Vec::new();
    for limb in modulus_bytes.limbs {
        raw.extend_from_slice(&limb.to_le_bytes());
    }
    assert!(LargePrimeField::<P, L>::deserialize(&raw).is_err());
}

#[test]
fn test_bn254_fr_large_prime_backend() {
    exercise_large_prime_profile::<Bn254FrProfile, 4>();
}

#[test]
fn test_bn254_fq_large_prime_backend() {
    exercise_large_prime_profile::<Bn254FqProfile, 4>();
}

#[test]
fn test_bls12_381_fr_large_prime_backend() {
    exercise_large_prime_profile::<Bls12_381FrProfile, 4>();
}

#[test]
fn test_bls12_381_fq_large_prime_backend() {
    exercise_large_prime_profile::<Bls12_381FqProfile, 6>();
}

#[test]
fn test_large_prime_slice_hooks_match_scalar_ops() {
    let e = |v: u64| -> Bn254Fr { elem::<Bn254FrProfile, 4>(v) };
    let lhs = [e(1), e(7), e(11), e(19), e(23)];
    let rhs = [e(2), e(9), e(13), e(17), e(29)];
    let scalar = e(31);
    let mut add_hook = lhs;
    let mut sub_hook = lhs;
    let mut scaled_add_hook = lhs;
    ring_add_assign_slice(&mut add_hook, &rhs);
    ring_sub_assign_slice(&mut sub_hook, &rhs);
    ring_add_assign_scaled_slice(&mut scaled_add_hook, &rhs, &scalar);
    for i in 0..5 {
        assert_eq!(canon(&add_hook[i]), canon(&(lhs[i] + rhs[i])));
        assert_eq!(canon(&sub_hook[i]), canon(&(lhs[i] - rhs[i])));
        assert_eq!(canon(&scaled_add_hook[i]), canon(&(lhs[i] + rhs[i] * scalar)));
    }
}
