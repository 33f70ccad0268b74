use grid_algebra::arith::ntt::{NTTRing, NttPlan};
use grid_algebra::arith::large_prime::{Bls12_381Fq, Bls12_381Fr, Bn254Fq, Bn254Fr};
use grid_algebra::arith::large_rns::Rns3V0;
use grid_algebra::arith::prime::GOLDILOCKS_MODULUS;
use grid_algebra::arith::{IntegerRing, PrimeField, Ring};
use grid_algebra::poly::ntt::{twisted_ntt_forward, twisted_ntt_inverse};
use grid_algebra::poly::{
    NttError, ntt_forward, ntt_forward_with_plan, ntt_inverse, ntt_inverse_with_plan, ntt_plan,
    poly_mul_ntt, poly_mul_ntt_in_place, poly_mul_ntt_in_place_with_plan,
    twisted_ntt_forward_in_place, twisted_ntt_forward_in_place_with_plan,
    twisted_ntt_inverse_in_place, twisted_ntt_inverse_in_place_with_plan, twisted_ntt_plan,
};

type F17 = PrimeField<17>;
type F12289 = PrimeField<12289>;
type F184683593729 = PrimeField<184683593729>;
type FGoldilocks = PrimeField<GOLDILOCKS_MODULUS>;

/// Deterministic pseudo-random values (a 64-bit linear congruential sequence).
fn sample_values<R: IntegerRing>(n: usize, seed: u64) -> Vec<R> {
    let mut state = seed;
    (0..n)
        .map(|_| {
            state = state
                .wrapping_mul(6364136223846793005)
                .wrapping_add(1442695040888963407);
            R::from_u64(state >> 1)
        })
        .collect()
}

fn round_trip<R: IntegerRing + grid_algebra::arith::ntt::NTTRing + PartialEq + std::fmt::Debug>(
    n: usize,
) {
    let original: Vec<R> = sample_values(n, 0x5eed + n as u64);
    let mut transformed = original.clone();
    ntt_forward(&mut transformed).unwrap();
    ntt_inverse(&mut transformed).unwrap();
    assert_eq!(transformed, original);
}

fn naive_negacyclic<R: Ring>(a: &[R], b: &[R]) -> Vec<R> {
    let n = a.len();
    let mut out = vec![R::zero(); n];
    for i in 0..n {
        for j in 0..n {
            let prod = R::mul_ref(&a[i], &b[j]);
            if i + j < n {
                out[i + j] = R::add_ref(&out[i + j], &prod);
            } else {
                out[i + j - n] = R::sub_ref(&out[i + j - n], &prod);
            }
        }
    }
    out
}

fn small_a() -> Vec<F17> {
    [1u64, 2, 3, 4, 0, 1, 0, 2].iter().map(|&v| F17::from_u64(v)).collect()
}

fn small_b() -> Vec<F17> {
    [3u64, 1, 4, 1, 5, 9, 2, 6].iter().map(|&v| F17::from_u64(v)).collect()
}

#[test]
fn test_ntt_round_trip_f17_n8() {
    round_trip::<F17>(8);
}

#[test]
fn test_ntt_round_trip_f12289_n256() {
    round_trip::<F12289>(256);
}

#[test]
fn test_ntt_round_trip_f184683593729_n256() {
    round_trip::<F184683593729>(256);
}

#[test]
fn test_ntt_round_trip_goldilocks_n512() {
    round_trip::<FGoldilocks>(512);
}

#[test]
fn test_twisted_ntt_round_trip_small() {
    let values: Vec<F17> = (1..=8u64).map(F17::from_u64).collect();
    let evals = twisted_ntt_forward(&values).unwrap();
    let coeffs = twisted_ntt_inverse(&evals).unwrap();
    assert_eq!(coeffs, values);
}

#[test]
fn test_twisted_ntt_in_place_with_cached_plan_round_trip_small() {
    let mut values: Vec<F17> = (1..=8u64).map(F17::from_u64).collect();
    let original = values.clone();
    let plan = twisted_ntt_plan::<F17>(values.len()).unwrap();
    assert_eq!(plan.len(), values.len());
    assert!(!plan.is_empty());

    twisted_ntt_forward_in_place_with_plan(&mut values, plan.as_ref()).unwrap();
    twisted_ntt_inverse_in_place_with_plan(&mut values, plan.as_ref()).unwrap();
    assert_eq!(values, original);
}

#[test]
fn test_poly_mul_ntt_matches_naive_small() {
    let a = small_a();
    let b = small_b();
    assert_eq!(poly_mul_ntt(&a, &b).unwrap(), naive_negacyclic(&a, &b));
}

#[test]
fn test_poly_mul_ntt_in_place_matches_naive_small() {
    let mut a = small_a();
    let mut b = small_b();
    let expected = naive_negacyclic(&a, &b);
    poly_mul_ntt_in_place(&mut a, &mut b).unwrap();
    assert_eq!(a, expected);
}

#[test]
fn test_poly_mul_ntt_in_place_with_plan_matches_naive_small() {
    let mut a = small_a();
    let mut b = small_b();
    let expected = naive_negacyclic(&a, &b);
    let plan = twisted_ntt_plan::<F17>(a.len()).unwrap();
    poly_mul_ntt_in_place_with_plan(&mut a, &mut b, plan.as_ref()).unwrap();
    assert_eq!(a, expected);
}

#[test]
fn test_poly_mul_ntt_rejects_length_mismatch() {
    let a = vec![F17::from_u64(1); 8];
    let b = vec![F17::from_u64(1); 4];
    assert_eq!(
        poly_mul_ntt(&a, &b),
        Err(NttError::LengthMismatch { left: 8, right: 4 })
    );
}

#[test]
fn test_ntt_forward_rejects_non_power_of_two_length() {
    let mut values = vec![F17::from_u64(1); 3];
    assert_eq!(
        ntt_forward(&mut values),
        Err(NttError::LengthNotPowerOfTwo { len: 3 })
    );
}

#[test]
fn test_ntt_forward_rejects_unsupported_size() {
    let mut values = vec![F17::from_u64(1); 32];
    assert_eq!(
        ntt_forward(&mut values),
        Err(NttError::UnsupportedSize { len: 32 })
    );
}

#[test]
fn test_poly_mul_ntt_rejects_unsupported_twist() {
    let a = vec![F17::from_u64(1); 16];
    let b = vec![F17::from_u64(1); 16];
    assert_eq!(
        poly_mul_ntt(&a, &b),
        Err(NttError::UnsupportedTwist { len: 16 })
    );
}

#[test]
fn poly_ntt_plan_round_trip_and_errors() {
    let original: Vec<F12289> = sample_values(64, 7);
    let plan = ntt_plan::<F12289>(64).unwrap();
    assert_eq!(plan.len(), 64);
    let mut values = original.clone();
    ntt_forward_with_plan(&mut values, plan.as_ref()).unwrap();
    ntt_inverse_with_plan(&mut values, plan.as_ref()).unwrap();
    assert_eq!(values, original);
    let mut wrong = vec![F12289::one(); 32];
    assert_eq!(
        ntt_inverse_with_plan(&mut wrong, plan.as_ref()),
        Err(NttError::LengthMismatch { left: 64, right: 32 })
    );
    assert!(matches!(ntt_plan::<F12289>(12), Err(NttError::LengthNotPowerOfTwo { len: 12 })));
    assert!(matches!(ntt_plan::<F12289>(8192), Err(NttError::UnsupportedSize { len: 8192 })));
}

#[test]
fn poly_twisted_in_place_round_trip_and_mismatch() {
    let original: Vec<F12289> = sample_values(256, 11);
    let mut values = original.clone();
    twisted_ntt_forward_in_place(&mut values).unwrap();
    assert_ne!(values, original);
    twisted_ntt_inverse_in_place(&mut values).unwrap();
    assert_eq!(values, original);

    let plan = twisted_ntt_plan::<F12289>(8).unwrap();
    let mut short = vec![F12289::one(); 4];
    assert_eq!(
        twisted_ntt_forward_in_place_with_plan(&mut short, plan.as_ref()),
        Err(NttError::LengthMismatch { left: 8, right: 4 })
    );
    let mut lhs = vec![F12289::one(); 4];
    let mut rhs = vec![F12289::one(); 4];
    assert_eq!(
        poly_mul_ntt_in_place_with_plan(&mut lhs, &mut rhs, plan.as_ref()),
        Err(NttError::LengthMismatch { left: 8, right: 4 })
    );
    // The largest twist for 12289 is of order 4096, so length 4096 has none.
    assert!(matches!(
        twisted_ntt_plan::<F12289>(4096),
        Err(NttError::UnsupportedTwist { len: 4096 })
    ));
}

#[test]
fn poly_mul_ntt_matches_naive_fixed_values() {
    for &n in &[16usize, 64, 256] {
        let a: Vec<F12289> = sample_values(n, 100 + n as u64);
        let b: Vec<F12289> = sample_values(n, 200 + n as u64);
        assert_eq!(poly_mul_ntt(&a, &b).unwrap(), naive_negacyclic(&a, &b));
    }
    let a: Vec<FGoldilocks> = sample_values(64, 3);
    let b: Vec<FGoldilocks> = sample_values(64, 4);
    assert_eq!(poly_mul_ntt(&a, &b).unwrap(), naive_negacyclic(&a, &b));
}

#[test]
fn poly_mul_ntt_x_times_x_pow_n_minus_one_is_minus_one() {
    // X * X^(n-1) = X^n = -1 modulo X^n + 1.
    let n = 8;
    let mut x = vec![F17::zero(); n];
    x[1] = F17::one();
    let mut y = vec![F17::zero(); n];
    y[n - 1] = F17::one();
    let prod = poly_mul_ntt(&x, &y).unwrap();
    let mut expected = vec![F17::zero(); n];
    expected[0] = F17::from_u64(16);
    assert_eq!(prod, expected);
}

#[test]
fn ntt_forward_with_plan_is_the_dft_at_the_ring_root() {
    let n = 8;
    let x = small_a();
    let w = F17::root_of_unity(n).unwrap();
    let mut expected = Vec::new();
    for k in 0..n {
        let mut acc = F17::zero();
        for (j, xj) in x.iter().enumerate() {
            let mut p = F17::one();
            for _ in 0..(j * k) {
                p = F17::mul_ref(&p, &w);
            }
            acc = F17::add_ref(&acc, &F17::mul_ref(xj, &p));
        }
        expected.push(acc);
    }
    let plan = ntt_plan::<F17>(n).unwrap();
    let mut y = x.clone();
    ntt_forward_with_plan(&mut y, &plan).unwrap();
    assert_eq!(y, expected);
}

#[test]
fn ntt_plan_from_roots_rejects_a_root_whose_half_power_is_not_minus_one() {
    // 1 * 1 = 1 and 13 * 4 = 1 in F17, but 1^2 != -1.
    let one = F17::one();
    let scale = F17::from_u64(13);
    let r = NttPlan::<F17>::from_roots(4, Some(one), Some(one), Some(scale));
    assert!(matches!(r, Err(NttError::UnsupportedSize { len: 4 })));
    // 4 is a primitive 4th root of unity in F17 (4^2 = 16 = -1), with inverse 13.
    let four = F17::from_u64(4);
    let r = NttPlan::<F17>::from_roots(4, Some(four), Some(F17::from_u64(13)), Some(scale));
    assert!(r.is_ok());
}

/// Deterministic pseudo-random elements of a large-modulus ring, each built from
/// full-width limbs and reduced modulo `q`.
fn sample_large<R: grid_algebra::arith::LargeCanonicalRing<Canonical = grid_algebra::arith::bigint::BigUint<L>>, const L: usize>(
    n: usize,
    seed: u64,
) -> Vec<R> {
    let mut state = seed;
    (0..n)
        .map(|_| {
            let mut limbs = [0u64; L];
            for limb in limbs.iter_mut() {
                state = state
                    .wrapping_mul(6364136223846793005)
                    .wrapping_add(1442695040888963407);
                *limb = state;
            }
            R::from_canonical(&grid_algebra::arith::bigint::BigUint { limbs })
        })
        .collect()
}

fn large_round_trip<
    R: grid_algebra::arith::LargeCanonicalRing<Canonical = grid_algebra::arith::bigint::BigUint<L>> + NTTRing,
    const L: usize,
>(
    n: usize,
) {
    let canon = |v: &Vec<R>| v.iter().map(|x| x.to_canonical()).collect::<Vec<_>>();
    let original: Vec<R> = sample_large::<R, L>(n, 0x1a29e + n as u64);
    let mut transformed = original.clone();
    ntt_forward(&mut transformed).unwrap();
    assert_ne!(canon(&transformed), canon(&original));
    ntt_inverse(&mut transformed).unwrap();
    assert_eq!(canon(&transformed), canon(&original));
}

#[test]
fn test_ntt_round_trip_bn254_fr_n256() {
    large_round_trip::<grid_algebra::arith::large_prime::Bn254Fr, 4>(256);
}

#[test]
fn test_ntt_round_trip_bls12_381_fr_n256() {
    large_round_trip::<grid_algebra::arith::large_prime::Bls12_381Fr, 4>(256);
}

#[test]
fn large_prime_ntt_roots() {
    assert!(!Bn254Fr::supports_ntt(0));
    assert!(!Bn254Fr::supports_ntt(3));
    // The 8th root of unity has order exactly 8, and its inverse undoes it.
    let c = |x: &Bn254Fr| grid_algebra::arith::LargeCanonicalRing::to_canonical(x);
    let w = Bn254Fr::root_of_unity(8).unwrap();
    let one = <Bn254Fr as Ring>::one();
    let mut p = one;
    for k in 1..=8 {
        p = Ring::mul_ref(&p, &w);
        assert_eq!(c(&p) == c(&one), k == 8);
    }
    let inv = Bn254Fr::inv_root_of_unity(8).unwrap();
    assert_eq!(c(&Ring::mul_ref(&w, &inv)), c(&one));
    let scale = Bn254Fr::inverse_ntt_scale(8).unwrap();
    let eight = <Bn254Fr as grid_algebra::arith::LargeCanonicalRing>::from_small_u64(8);
    assert_eq!(c(&Ring::mul_ref(&scale, &eight)), c(&one));
}

#[test]
fn test_ntt_round_trip_rns3_v0_n2() {
    let c = |v: &Vec<Rns3V0>| {
        v.iter()
            .map(|x| grid_algebra::arith::LargeCanonicalRing::to_canonical(x))
            .collect::<Vec<_>>()
    };
    let values = vec![
        <Rns3V0 as grid_algebra::arith::LargeCanonicalRing>::from_small_u64(1),
        <Rns3V0 as grid_algebra::arith::LargeCanonicalRing>::from_small_u64(7),
    ];
    let mut transformed = values.clone();
    ntt_forward(&mut transformed).unwrap();
    ntt_inverse(&mut transformed).unwrap();
    assert_eq!(c(&transformed), c(&values));
}

#[test]
fn test_ntt_round_trip_rns3_v0_n256() {
    large_round_trip::<Rns3V0, 3>(256);
}

#[test]
fn test_large_prime_ntt_profile_limits() {
    assert_eq!(Bn254Fr::max_ntt_size(), 1usize << 28);
    assert!(Bn254Fr::supports_ntt(256));
    assert!(!Bn254Fr::supports_ntt(1usize << 29));

    assert_eq!(Bls12_381Fr::max_ntt_size(), 1usize << 32);
    assert!(Bls12_381Fr::supports_ntt(256));
    assert!(!Bls12_381Fr::supports_ntt(3));

    assert_eq!(Bn254Fq::max_ntt_size(), 2);
    assert!(Bn254Fq::supports_ntt(2));
    assert!(!Bn254Fq::supports_ntt(4));

    assert_eq!(Bls12_381Fq::max_ntt_size(), 2);
    assert!(Bls12_381Fq::supports_ntt(2));
    assert!(!Bls12_381Fq::supports_ntt(4));

    assert_eq!(Rns3V0::max_ntt_size(), 1usize << 20);
    assert!(Rns3V0::supports_ntt(512));
    assert!(Rns3V0::supports_ntt(1usize << 16));
    assert!(!Rns3V0::supports_ntt(1usize << 21));
}

#[test]
fn rns_ntt_scale_and_root_inverse() {
    let c = |x: &Rns3V0| grid_algebra::arith::LargeCanonicalRing::to_canonical(x);
    let one = <Rns3V0 as Ring>::one();
    let w = Rns3V0::root_of_unity(16).unwrap();
    let inv = Rns3V0::inv_root_of_unity(16).unwrap();
    assert_eq!(c(&Ring::mul_ref(&w, &inv)), c(&one));
    let scale = Rns3V0::inverse_ntt_scale(16).unwrap();
    let sixteen = <Rns3V0 as grid_algebra::arith::LargeCanonicalRing>::from_small_u64(16);
    assert_eq!(c(&Ring::mul_ref(&scale, &sixteen)), c(&one));
    let inv12 = Rns3V0::inverse_ntt_scale(12).unwrap();
    let twelve = <Rns3V0 as grid_algebra::arith::LargeCanonicalRing>::from_small_u64(12);
    assert_eq!(c(&Ring::mul_ref(&inv12, &twelve)), c(&one));
    assert!(Rns3V0::root_of_unity(0).is_none());
}

#[test]
fn large_prime_negacyclic_product_matches_schoolbook() {
    let canon = |v: &Vec<Bn254Fr>| {
        v.iter()
            .map(|x| grid_algebra::arith::LargeCanonicalRing::to_canonical(x))
            .collect::<Vec<_>>()
    };
    let a: Vec<Bn254Fr> = sample_large::<Bn254Fr, 4>(8, 11);
    let b: Vec<Bn254Fr> = sample_large::<Bn254Fr, 4>(8, 29);
    let fast = poly_mul_ntt(&a, &b).unwrap();
    assert_eq!(canon(&fast), canon(&naive_negacyclic(&a, &b)));
}
