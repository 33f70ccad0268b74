use grid_algebra::arith::ntt::NttError;
use grid_algebra::arith::prime::GOLDILOCKS_MODULUS;
use grid_algebra::arith::{IntegerRing, PrimeField, Ring};
use grid_algebra::poly::ntt::twisted_ntt_plan;
use grid_algebra::poly::ring::CyclotomicPolyRing;
use grid_algebra::serialize::{CanonicalDeserialize, CanonicalSerialize};
use grid_algebra::poly::twisted_ntt::{
    TwistedNttPoly, finish_twisted_polys, finish_twisted_polys_with_plan, prepare_twisted_polys,
    prepare_twisted_polys_with_plan,
};

type F17 = PrimeField<17>;
type Twisted8 = TwistedNttPoly<F17, 8>;
type F8380417 = PrimeField<8380417>;
type FGoldilocks = PrimeField<GOLDILOCKS_MODULUS>;
type TwistedRq23Np8 = TwistedNttPoly<F8380417, 256>;
type TwistedGoldilocks = TwistedNttPoly<FGoldilocks, 256>;

/// A fixed pseudo-random polynomial: coefficients from a linear congruential sequence.
fn sample_poly<R: IntegerRing + CanonicalSerialize + CanonicalDeserialize, const N: usize>(
    seed: u64,
) -> CyclotomicPolyRing<R, N> {
    let mut state = seed;
    let coeffs: [R; N] = core::array::from_fn(|_| {
        state = state.wrapping_mul(6364136223846793005).wrapping_add(1442695040888963407);
        R::from_u64(state >> 1)
    });
    CyclotomicPolyRing::from_array(coeffs)
}

fn arr(v: [u64; 8]) -> [F17; 8] {
    [
        F17::from_u64(v[0]),
        F17::from_u64(v[1]),
        F17::from_u64(v[2]),
        F17::from_u64(v[3]),
        F17::from_u64(v[4]),
        F17::from_u64(v[5]),
        F17::from_u64(v[6]),
        F17::from_u64(v[7]),
    ]
}

#[test]
fn twisted_poly_round_trip_small() {
    let a = arr([1, 2, 3, 4, 0, 1, 0, 2]);
    let t = Twisted8::from_coeff_array(a).unwrap();
    assert_eq!(t.to_coeff_array().unwrap(), a);
    let back = Twisted8::from_evals(*t.evals());
    assert_eq!(back.to_coeff_array().unwrap(), a);
}

#[test]
fn twisted_poly_slot_product_is_negacyclic_product() {
    let a = Twisted8::from_coeff_array(arr([1, 2, 3, 4, 0, 1, 0, 2])).unwrap();
    let b = Twisted8::from_coeff_array(arr([3, 1, 4, 1, 5, 9, 2, 6])).unwrap();
    assert_eq!(a.mul_evals(&b).to_coeff_array().unwrap(), arr([14, 2, 14, 12, 16, 3, 11, 16]));
}

#[test]
fn twisted_poly_sum_difference_and_scaling() {
    let a = Twisted8::from_coeff_array(arr([1, 2, 3, 4, 0, 1, 0, 2])).unwrap();
    let b = Twisted8::from_coeff_array(arr([3, 1, 4, 1, 5, 9, 2, 6])).unwrap();
    assert_eq!(a.add_evals(&b).to_coeff_array().unwrap(), arr([4, 3, 7, 5, 5, 10, 2, 8]));
    assert_eq!(a.sub_evals(&b).to_coeff_array().unwrap(), arr([15, 1, 16, 3, 12, 9, 15, 13]));
    assert_eq!(a.scalar_mul(&F17::from_u64(2)).to_coeff_array().unwrap(), arr([2, 4, 6, 8, 0, 2, 0, 4]));
}

#[test]
fn twisted_poly_errors() {
    let plan4 = twisted_ntt_plan::<F17>(4).unwrap();
    let r = Twisted8::from_coeff_array_with_plan(arr([1, 0, 0, 0, 0, 0, 0, 0]), plan4.as_ref());
    assert!(matches!(r, Err(NttError::LengthMismatch { left: 4, right: 8 })));
    // F17 has no 32nd root of unity, so no twisted transform of length 16.
    let z = [F17::from_u64(0); 16];
    assert!(matches!(
        TwistedNttPoly::<F17, 16>::from_coeff_array(z),
        Err(NttError::UnsupportedTwist { len: 16 })
    ));
}

#[test]
fn twisted_prepare_and_finish_polys() {
    let polys = vec![
        CyclotomicPolyRing::from_array(arr([1, 2, 3, 4, 0, 1, 0, 2])),
        CyclotomicPolyRing::from_array(arr([3, 1, 4, 1, 5, 9, 2, 6])),
    ];
    let prepared = prepare_twisted_polys(&polys).unwrap();
    assert_eq!(prepared.len(), 2);
    let product = prepared[0].mul_evals(&prepared[1]).to_coeff_poly().unwrap();
    assert_eq!(product, CyclotomicPolyRing::from_array(arr([14, 2, 14, 12, 16, 3, 11, 16])));
    let finished = finish_twisted_polys(&prepared).unwrap();
    assert_eq!(finished, polys);
    let single = Twisted8::from_coeff_poly(&polys[0]).unwrap();
    assert_eq!(single.to_coeff_poly().unwrap(), polys[0]);

    let plan = twisted_ntt_plan::<F17>(8).unwrap();
    let with_plan = prepare_twisted_polys_with_plan(&polys, plan.as_ref()).unwrap();
    assert_eq!(finish_twisted_polys_with_plan(&with_plan, plan.as_ref()).unwrap(), polys);
    let plan4 = twisted_ntt_plan::<F17>(4).unwrap();
    assert!(matches!(
        prepare_twisted_polys_with_plan(&polys, plan4.as_ref()),
        Err(NttError::LengthMismatch { left: 4, right: 8 })
    ));
}

#[test]
fn test_round_trip_small() {
    let poly = sample_poly::<F17, 8>(1);
    let twisted = Twisted8::from_coeff_poly(&poly).unwrap();
    assert_eq!(twisted.to_coeff_poly().unwrap(), poly);
}

#[test]
fn test_round_trip_rq23_np8() {
    let poly = sample_poly::<F8380417, 256>(2);
    let twisted = TwistedRq23Np8::from_coeff_poly(&poly).unwrap();
    assert_eq!(twisted.to_coeff_poly().unwrap(), poly);
}

#[test]
fn test_round_trip_goldilocks() {
    let poly = sample_poly::<FGoldilocks, 256>(3);
    let twisted = TwistedGoldilocks::from_coeff_poly(&poly).unwrap();
    assert_eq!(twisted.to_coeff_poly().unwrap(), poly);
}

#[test]
fn test_mul_matches_coefficient_domain() {
    let a = sample_poly::<F17, 8>(4);
    let b = sample_poly::<F17, 8>(5);
    let twisted_product = Twisted8::from_coeff_poly(&a)
        .unwrap()
        .mul_evals(&Twisted8::from_coeff_poly(&b).unwrap())
        .to_coeff_poly()
        .unwrap();
    assert_eq!(twisted_product, a * b);
}

#[test]
fn test_mul_matches_coefficient_domain_goldilocks() {
    let a = sample_poly::<FGoldilocks, 256>(6);
    let b = sample_poly::<FGoldilocks, 256>(7);
    let twisted_product = TwistedGoldilocks::from_coeff_poly(&a)
        .unwrap()
        .mul_evals(&TwistedGoldilocks::from_coeff_poly(&b).unwrap())
        .to_coeff_poly()
        .unwrap();
    assert_eq!(twisted_product, a * b);
}

#[test]
fn test_prepare_finish_goldilocks_polys() {
    let polys = vec![
        sample_poly::<FGoldilocks, 256>(8),
        sample_poly::<FGoldilocks, 256>(9),
        sample_poly::<FGoldilocks, 256>(10),
    ];
    let prepared = prepare_twisted_polys(&polys).unwrap();
    let finished = finish_twisted_polys(&prepared).unwrap();
    assert_eq!(finished, polys);
}

#[test]
fn test_prepare_finish_goldilocks_polys_with_plan() {
    let polys = vec![
        sample_poly::<FGoldilocks, 256>(11),
        sample_poly::<FGoldilocks, 256>(12),
        sample_poly::<FGoldilocks, 256>(13),
    ];
    let plan = twisted_ntt_plan::<FGoldilocks>(256).unwrap();
    let prepared = prepare_twisted_polys_with_plan(&polys, plan.as_ref()).unwrap();
    let finished = finish_twisted_polys_with_plan(&prepared, plan.as_ref()).unwrap();
    assert_eq!(finished, polys);
}

#[test]
fn test_ring_axioms_small() {
    let a = Twisted8::from_coeff_poly(&sample_poly::<F17, 8>(14)).unwrap();
    let b = Twisted8::from_coeff_poly(&sample_poly::<F17, 8>(15)).unwrap();
    let c = Twisted8::from_coeff_poly(&sample_poly::<F17, 8>(16)).unwrap();
    let zero = <Twisted8 as Ring>::zero();
    let one = <Twisted8 as Ring>::one();
    assert_eq!((a + b).evals(), (b + a).evals());
    assert_eq!(((a + b) + c).evals(), (a + (b + c)).evals());
    assert_eq!((a + zero).evals(), a.evals());
    assert_eq!((a + (-a)).evals(), zero.evals());
    assert_eq!((a - b).evals(), (a + (-b)).evals());
    assert_eq!((a * b).evals(), (b * a).evals());
    assert_eq!(((a * b) * c).evals(), (a * (b * c)).evals());
    assert_eq!((a * one).evals(), a.evals());
    assert_eq!((a * zero).evals(), zero.evals());
    assert_eq!((a * (b + c)).evals(), ((a * b) + (a * c)).evals());
    assert!(zero.is_zero());
    assert!(one.is_one());
    assert!(!one.is_zero());
    // The twisted-domain one is the constant polynomial 1.
    assert_eq!(one.to_coeff_array().unwrap(), arr([1, 0, 0, 0, 0, 0, 0, 0]));
    assert_eq!(zero.to_coeff_array().unwrap(), arr([0; 8]));
}

#[test]
fn twisted_poly_scalar_mul_assign() {
    let mut a = Twisted8::from_coeff_array(arr([1, 2, 3, 4, 0, 1, 0, 2])).unwrap();
    a.scalar_mul_assign(&F17::from_u64(3));
    assert_eq!(a.to_coeff_array().unwrap(), arr([3, 6, 9, 12, 0, 3, 0, 6]));
}
