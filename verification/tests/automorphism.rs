use grid_algebra::arith::{IntegerRing, PrimeField, Ring};
use grid_algebra::poly::{apply_automorphism, frobenius, poly_mul_ntt};

type F17 = PrimeField<17>;

fn poly(values: [u64; 8]) -> Vec<F17> {
    values.iter().map(|&v| F17::from_u64(v)).collect()
}

#[test]
fn test_identity_automorphism() {
    let p = poly([1, 2, 3, 4, 5, 6, 7, 8]);
    let mut transformed = p.clone();
    apply_automorphism(&mut transformed, 1, 8);
    assert_eq!(transformed, p);
}

#[test]
fn test_inverse_automorphism() {
    let p = poly([1, 2, 3, 4, 5, 6, 7, 8]);
    let mut transformed = p.clone();
    apply_automorphism(&mut transformed, 3, 8);
    apply_automorphism(&mut transformed, 11, 8);
    assert_eq!(transformed, p);
}

#[test]
fn test_automorphism_homomorphism() {
    let f = poly([1, 2, 0, 1, 0, 0, 0, 0]);
    let g = poly([3, 1, 4, 1, 0, 0, 0, 0]);
    let fg = poly_mul_ntt(&f, &g).unwrap();

    let mut lhs = fg.clone();
    apply_automorphism(&mut lhs, 3, 8);

    let mut f_auto = f.clone();
    let mut g_auto = g.clone();
    apply_automorphism(&mut f_auto, 3, 8);
    apply_automorphism(&mut g_auto, 3, 8);
    let rhs = poly_mul_ntt(&f_auto, &g_auto).unwrap();

    assert_eq!(lhs, rhs);
}

#[test]
fn automorphism_maps_x_to_x_pow_k_with_sign() {
    // X -> X^3: X^3 goes to X^9 = -X^1 modulo X^8 + 1.
    let mut p = vec![F17::zero(); 8];
    p[3] = F17::one();
    apply_automorphism(&mut p, 3, 8);
    let mut expected = vec![F17::zero(); 8];
    expected[1] = F17::from_u64(16);
    assert_eq!(p, expected);

    let mut q = poly([5, 0, 0, 0, 0, 0, 0, 0]);
    frobenius(&mut q, 5, 8);
    assert_eq!(q, poly([5, 0, 0, 0, 0, 0, 0, 0]));
}
