use grid_algebra::arith::{IntegerRing, PrimeField, Ring, Z2K};
use grid_algebra::poly::ntt::poly_mul_ntt;
use grid_algebra::poly::ring::{CyclotomicPolyRing, PolyError, PolyRing, mul_with_ntt};
use grid_algebra::serialize::{CanonicalDeserialize, CanonicalSerialize, SerializationError};

type F17 = PrimeField<17>;
type Poly8 = CyclotomicPolyRing<F17, 8>;
type Z256 = Z2K<8>;
type Poly6 = CyclotomicPolyRing<F17, 6>;
type ZPoly4 = CyclotomicPolyRing<Z256, 4>;

fn poly(values: [u64; 8]) -> Poly8 {
    Poly8::from_array(values.map(F17::from_u64))
}

fn poly_a() -> Poly8 {
    poly([1, 2, 3, 4, 0, 1, 0, 2])
}

fn poly_b() -> Poly8 {
    poly([3, 1, 4, 1, 5, 9, 2, 6])
}

fn poly_c() -> Poly8 {
    poly([5, 3, 5, 8, 9, 7, 9, 3])
}

/// The product modulo `X^n + 1` computed term by term.
fn schoolbook<R: Ring>(a: &[R], b: &[R]) -> Vec<R> {
    let n = a.len();
    let mut out = vec![R::zero(); n];
    for i in 0..n {
        for j in 0..n {
            let prod = R::mul_ref(&a[i], &b[j]);
            if i + j < n {
                out[i + j] = R::add_ref(&out[i + j], &prod);
            } else {
                out[i + j - n] = R::sub_ref(&out[i + j - n], &prod);
            }
        }
    }
    out
}

#[test]
fn test_ring_axioms_poly() {
    let a = poly_a();
    let b = poly_b();
    let c = poly_c();
    let zero = Poly8::zero();
    let one = Poly8::one();
    assert_eq!(a.clone() + zero.clone(), a);
    assert_eq!(a.clone() * one.clone(), a);
    assert_eq!(a.clone() + b.clone(), b.clone() + a.clone());
    assert_eq!(a.clone() * b.clone(), b.clone() * a.clone());
    assert_eq!(
        (a.clone() + b.clone()) + c.clone(),
        a.clone() + (b.clone() + c.clone())
    );
    assert_eq!(
        (a.clone() * b.clone()) * c.clone(),
        a.clone() * (b.clone() * c.clone())
    );
    assert_eq!(
        a.clone() * (b.clone() + c.clone()),
        a.clone() * b.clone() + a.clone() * c.clone()
    );
    assert_eq!(a.clone() + (-a.clone()), zero);
    assert_eq!(a.clone() - b.clone(), a.clone() + (-b.clone()));
    assert_eq!(a.clone() * zero.clone(), zero);
}

#[test]
fn test_scalar_mul_and_evaluate() {
    let p = poly([1, 2, 3, 0, 0, 0, 0, 0]);
    let scaled = p.scalar_mul(&F17::from_u64(2));
    assert_eq!(scaled.coeff(0).to_u64(), 2);
    assert_eq!(scaled.coeff(2).to_u64(), 6);
    assert_eq!(p.evaluate(&F17::from_u64(2)).to_u64(), 0);
}

#[test]
fn ring_test_serialization_round_trip() {
    let p = poly([0, 1, 2, 3, 4, 5, 6, 7]);
    let bytes = p.serialize().unwrap();
    let decoded = Poly8::deserialize_exact(&bytes).unwrap();
    assert_eq!(decoded, p);
}

#[test]
fn test_deserialize_rejects_truncated_coefficients() {
    let p = poly([0, 1, 2, 3, 4, 5, 6, 7]);
    let bytes = p.serialize().unwrap();
    let err = Poly8::deserialize(&bytes[..bytes.len() - 1]).unwrap_err();
    assert_eq!(err, SerializationError::UnexpectedEnd);
}

#[test]
fn test_try_from_coeffs_rejects_wrong_length() {
    let err = Poly8::try_from_coeffs(&[F17::from_u64(1), F17::from_u64(2), F17::from_u64(3)])
        .unwrap_err();
    assert_eq!(
        err,
        PolyError::WrongCoeffCount {
            expected: 8,
            got: 3,
        }
    );
}

#[test]
fn poly_ring_try_from_coeffs_rejects_non_power_of_two_degree() {
    let coeffs = [F17::from_u64(1); 6];
    let err = Poly6::try_from_coeffs(&coeffs).unwrap_err();
    assert_eq!(err, PolyError::InvalidDegree { degree: 6 });
}

#[test]
fn poly_ring_try_from_coeffs_accepts_full_length() {
    let coeffs: Vec<F17> = (0..8).map(F17::from_u64).collect();
    let p = Poly8::try_from_coeffs(&coeffs).unwrap();
    assert_eq!(p.coeffs(), coeffs.as_slice());
    assert_eq!(Poly8::degree(), 8);
}

#[test]
fn poly_ring_products_agree_with_schoolbook() {
    let a = poly_a();
    let b = poly_b();
    let expected = schoolbook(a.coeffs(), b.coeffs());
    assert_eq!((a.clone() * b.clone()).coeffs(), expected.as_slice());
    assert_eq!(
        Poly8::neg_cyclic_mul(&a, &b).coeffs(),
        expected.as_slice()
    );
    assert_eq!(mul_with_ntt(&a, &b).unwrap().coeffs(), expected.as_slice());
    assert_eq!(
        poly_mul_ntt(a.coeffs(), b.coeffs()).unwrap(),
        expected
    );
}

#[test]
fn poly_ring_x_to_the_n_is_minus_one() {
    // X^4 * X^4 = X^8 = -1 modulo X^8 + 1.
    let x4 = poly([0, 0, 0, 0, 1, 0, 0, 0]);
    let prod = x4.clone() * x4;
    assert_eq!(prod, poly([16, 0, 0, 0, 0, 0, 0, 0]));
}

#[test]
fn poly_ring_over_z2k_uses_schoolbook() {
    let a = ZPoly4::from_array([1, 200, 3, 250].map(Z256::from_u64));
    let b = ZPoly4::from_array([7, 0, 129, 2].map(Z256::from_u64));
    let expected = schoolbook(a.coeffs(), b.coeffs());
    assert_eq!((a * b).coeffs(), expected.as_slice());
}

#[test]
fn poly_ring_set_coeff_and_coeffs_mut() {
    let mut p = Poly8::zero();
    p.set_coeff(3, F17::from_u64(5));
    assert_eq!(p.coeff(3).to_u64(), 5);
    p.coeffs_mut()[0] = F17::from_u64(9);
    assert_eq!(p.coeff(0).to_u64(), 9);
    p.scalar_mul_assign(&F17::from_u64(2));
    assert_eq!(p.coeff(0).to_u64(), 1);
    assert_eq!(p.coeff(3).to_u64(), 10);
}
