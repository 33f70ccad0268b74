use grid_algebra::arith::{Field, IntegerRing, LargeCanonicalRing, Ring, GF2};

fn g(v: u8) -> GF2 {
    GF2::new(v)
}

#[test]
fn add_sub_identity() {
    let zero = GF2::zero();
    let one = GF2::one();
    assert_eq!(one + zero, one);
    assert_eq!(one + one, zero);
    assert_eq!(one - zero, one);
    assert_eq!(one - one, zero);
    assert_eq!(zero - one, one);
}

#[test]
fn mul_identity() {
    let zero = GF2::zero();
    let one = GF2::one();
    assert_eq!(one * zero, zero);
    assert_eq!(zero * one, zero);
    assert_eq!(one * one, one);
}

#[test]
fn neg_is_identity() {
    assert_eq!(-g(0), g(0));
    assert_eq!(-g(1), g(1));
}

#[test]
fn double_is_zero() {
    assert_eq!(g(0).double(), g(0));
    assert_eq!(g(1).double(), g(0));
}

#[test]
fn square_is_identity() {
    assert_eq!(g(0).square(), g(0));
    assert_eq!(g(1).square(), g(1));
}

#[test]
fn field_inv() {
    assert_eq!(g(1).inv(), g(1));
}

#[test]
fn integer_ring_modulus() {
    assert_eq!(GF2::modulus(), 2);
}

#[test]
fn from_u64_reduces() {
    assert_eq!(GF2::from_u64(0), g(0));
    assert_eq!(GF2::from_u64(1), g(1));
    assert_eq!(GF2::from_u64(2), g(0));
    assert_eq!(GF2::from_u64(3), g(1));
    assert_eq!(GF2::from_u64(100), g(0));
}

#[test]
fn to_u64() {
    assert_eq!(g(0).to_u64(), 0);
    assert_eq!(g(1).to_u64(), 1);
}

#[test]
fn slice_add() {
    let mut dst = vec![g(0), g(1), g(0), g(1), g(1), g(0)];
    let src = vec![g(1), g(1), g(0), g(0), g(1), g(0)];
    GF2::add_assign_slice(&mut dst, &src);
    assert_eq!(dst, vec![g(1), g(0), g(0), g(1), g(0), g(0)]);
}

#[test]
fn slice_add_long() {
    let n = 1024;
    let mut dst = vec![g(0); n];
    let src = vec![g(1); n];
    GF2::add_assign_slice(&mut dst, &src);
    assert!(dst.iter().all(|x| x.to_u64() == 1));
}

#[test]
fn slice_sub_equals_add() {
    let n = 256;
    let mut a = (0..n).map(|i| GF2::new(i as u8)).collect::<Vec<_>>();
    let b = (0..n).map(|i| GF2::new((i * 3) as u8)).collect::<Vec<_>>();
    let mut a_sub = a.clone();
    GF2::add_assign_slice(&mut a, &b);
    GF2::sub_assign_slice(&mut a_sub, &b);
    assert_eq!(a, a_sub);
}

#[test]
fn slice_mul() {
    let mut dst = vec![g(1), g(0), g(1), g(1), g(0)];
    let rhs = vec![g(1), g(1), g(0), g(1), g(1)];
    GF2::pointwise_mul_assign_slice(&mut dst, &rhs);
    assert_eq!(dst, vec![g(1), g(0), g(0), g(1), g(0)]);
}

#[test]
fn slice_mul_long() {
    let n = 1024;
    let mut dst = vec![g(1); n];
    let rhs = vec![g(1); n];
    GF2::pointwise_mul_assign_slice(&mut dst, &rhs);
    assert!(dst.iter().all(|x| x.to_u64() == 1));
}

#[test]
fn scalar_mul_zero() {
    let mut dst = vec![g(1), g(0), g(1), g(1)];
    GF2::scalar_mul_slice(&mut dst, &g(0));
    assert!(dst.iter().all(|x| x.to_u64() == 0));
}

#[test]
fn scalar_mul_one_noop() {
    let orig = vec![g(1), g(0), g(1), g(0)];
    let mut dst = orig.clone();
    GF2::scalar_mul_slice(&mut dst, &g(1));
    assert_eq!(dst, orig);
}

#[test]
fn dot_product_small() {
    let a = vec![g(1), g(0), g(1)];
    let b = vec![g(1), g(1), g(0)];
    assert_eq!(GF2::dot_product(&a, &b), g(1));
}

#[test]
fn dot_product_orthogonal() {
    let a = vec![g(1), g(1), g(1), g(1)];
    let b = vec![g(1), g(1), g(1), g(1)];
    assert_eq!(GF2::dot_product(&a, &b), g(0));
}

#[test]
fn dot_product_long() {
    let n = 2048;
    let a = vec![g(1); n];
    let b = vec![g(1); n];
    assert_eq!(GF2::dot_product(&a, &b), g(0));
}

#[test]
fn dot_product_long_odd() {
    let n = 2049;
    let a = vec![g(1); n];
    let b = vec![g(1); n];
    assert_eq!(GF2::dot_product(&a, &b), g(1));
}

#[test]
fn add_assign_scaled_zero() {
    let mut dst = vec![g(1), g(0), g(1)];
    let src = vec![g(1), g(1), g(0)];
    let orig = dst.clone();
    GF2::add_assign_scaled_slice(&mut dst, &src, &g(0));
    assert_eq!(dst, orig);
}

#[test]
fn add_assign_scaled_one() {
    let mut dst = vec![g(0), g(1), g(0)];
    let src = vec![g(1), g(0), g(1)];
    GF2::add_assign_scaled_slice(&mut dst, &src, &g(1));
    assert_eq!(dst, vec![g(1), g(1), g(1)]);
}

#[test]
fn ref_ref_operators() {
    let a = g(1);
    let b = g(1);
    assert_eq!(&a + &b, g(0));
    assert_eq!(&a + b, g(0));
    assert_eq!(&a * &b, g(1));
    assert_eq!(&a * b, g(1));
}

#[test]
fn large_canonical_roundtrip() {
    let val = g(1);
    let canon = val.to_canonical();
    assert_eq!(canon, 1);
    assert_eq!(GF2::from_canonical(&canon), val);
    assert_eq!(GF2::from_canonical(&2u64), g(0));
}

#[test]
fn gf2_new_masks_high_bits() {
    assert_eq!(GF2::new(2), g(0));
    assert_eq!(GF2::new(7), g(1));
    assert_eq!(g(1).pow(5), g(1));
    assert_eq!(g(0).pow(0), g(1));
}
