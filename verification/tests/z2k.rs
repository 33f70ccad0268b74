use grid_algebra::arith::{IntegerRing, LargeCanonicalRing, Ring, Z2K};
use std::fmt::Debug;
use std::mem::{align_of, size_of};
use std::ops::{Add, Mul, Neg, Sub};

type Z16 = Z2K<4>;
type Z256 = Z2K<8>;
type Z2_64 = Z2K<64>;

fn check_ring_axioms<R>(a: R, b: R, c: R)
where
    R: Ring + PartialEq + Debug + Add<Output = R> + Sub<Output = R> + Mul<Output = R> + Neg<Output = R>,
{
    assert_eq!(a + R::zero(), a, "a + 0 = a");
    assert_eq!(R::zero() + a, a, "0 + a = a");
    assert_eq!(a * R::one(), a, "a * 1 = a");
    assert_eq!(R::one() * a, a, "1 * a = a");
    assert_eq!(a + b, b + a, "a + b = b + a");
    assert_eq!(a * b, b * a, "a * b = b * a");
    assert_eq!((a + b) + c, a + (b + c), "(a + b) + c = a + (b + c)");
    assert_eq!((a * b) * c, a * (b * c), "(a * b) * c = a * (b * c)");
    assert_eq!(a * (b + c), (a * b) + (a * c), "a * (b + c) = a * b + a * c");
    assert_eq!(a + (-a), R::zero(), "a + (-a) = 0");
    assert_eq!(a * R::zero(), R::zero(), "a * 0 = 0");
}

#[test]
fn test_basic_ops() {
    let a = Z16::from_u64(13);
    let b = Z16::from_u64(10);
    assert_eq!((a + b).to_u64(), 7);
    assert_eq!((a - b).to_u64(), 3);
    assert_eq!((b - a).to_u64(), 13);
    assert_eq!((a * b).to_u64(), 2);
}

#[test]
fn z2k_test_neg() {
    assert_eq!((-Z16::from_u64(0)).to_u64(), 0);
    assert_eq!((-Z16::from_u64(1)).to_u64(), 15);
    assert_eq!((-Z16::from_u64(5)).to_u64(), 11);
}

#[test]
fn test_masking() {
    assert_eq!(Z16::from_u64(16).to_u64(), 0);
    assert_eq!(Z16::from_u64(17).to_u64(), 1);
    assert_eq!(Z16::from_u64(255).to_u64(), 15);
}

#[test]
fn z2k_test_repr_transparent_layout() {
    assert_eq!(size_of::<Z16>(), size_of::<u64>());
    assert_eq!(align_of::<Z16>(), align_of::<u64>());
}

fn sample_lhs() -> [Z16; 5] {
    [1u64, 7, 15, 3, 11].map(Z16::from_u64)
}

fn sample_rhs() -> [Z16; 5] {
    [2u64, 9, 1, 14, 6].map(Z16::from_u64)
}

#[test]
fn z2k_test_slice_hooks_match_scalar_ops() {
    let lhs = sample_lhs();
    let rhs = sample_rhs();
    let mut add_hook = lhs;
    let mut sub_hook = lhs;
    let add_scalar = core::array::from_fn::<Z16, 5, _>(|i| lhs[i] + rhs[i]);
    let sub_scalar = core::array::from_fn::<Z16, 5, _>(|i| lhs[i] - rhs[i]);
    Z16::add_assign_slice(&mut add_hook, &rhs);
    Z16::sub_assign_slice(&mut sub_hook, &rhs);
    assert_eq!(add_hook, add_scalar);
    assert_eq!(sub_hook, sub_scalar);
}

#[test]
fn z2k_test_mul_hooks_match_scalar_ops() {
    let lhs = sample_lhs();
    let rhs = sample_rhs();
    let scalar = Z16::from_u64(5);
    let mut mul_hook = lhs;
    let mut scalar_mul_hook = lhs;
    let mut scaled_add_hook = lhs;
    let mul_scalar = core::array::from_fn::<Z16, 5, _>(|i| lhs[i] * rhs[i]);
    let scalar_mul_scalar = core::array::from_fn::<Z16, 5, _>(|i| lhs[i] * scalar);
    let scaled_add_scalar = core::array::from_fn::<Z16, 5, _>(|i| lhs[i] + rhs[i] * scalar);
    Z16::pointwise_mul_assign_slice(&mut mul_hook, &rhs);
    Z16::scalar_mul_slice(&mut scalar_mul_hook, &scalar);
    Z16::add_assign_scaled_slice(&mut scaled_add_hook, &rhs, &scalar);
    assert_eq!(mul_hook, mul_scalar);
    assert_eq!(scalar_mul_hook, scalar_mul_scalar);
    assert_eq!(scaled_add_hook, scaled_add_scalar);
}

#[test]
fn test_dot_product_hook_matches_scalar_ops() {
    let lhs = sample_lhs();
    let rhs = sample_rhs();
    let dot_scalar = lhs
        .iter()
        .zip(rhs.iter())
        .fold(Z16::zero(), |acc, (l, r)| acc + *l * *r);
    assert_eq!(Z16::dot_product(&lhs, &rhs), dot_scalar);
}

#[test]
fn test_ring_axioms_z16() {
    check_ring_axioms(Z16::from_u64(3), Z16::from_u64(7), Z16::from_u64(11));
}

#[test]
fn test_ring_axioms_z256() {
    check_ring_axioms(Z256::from_u64(37), Z256::from_u64(191), Z256::from_u64(100));
}

#[test]
fn test_reduce_idempotent() {
    let a = Z16::from_u64(13);
    assert_eq!(a.reduce(), a);
}

#[test]
fn test_power_of_two_integer_ring_round_trip() {
    let value = Z16::from_small_u64(31);
    assert_eq!(value.to_canonical(), 15);
    assert_eq!(Z16::modulus_canonical(), 16);
    assert_eq!(Z16::from_canonical(&18).to_canonical(), 2);
    assert_eq!(value.try_to_u64(), Some(15));
    assert_eq!(value.try_to_u128(), Some(15));
}

#[test]
fn test_power_of_two_integer_ring_handles_2_to_64_modulus() {
    assert_eq!(Z2_64::modulus_canonical(), 0);
    let canonical = 7u64;
    let reduced = Z2_64::from_canonical(&canonical);
    assert_eq!(reduced.to_canonical(), 7);
}

#[test]
fn z2k_wraps_at_two_to_the_64() {
    let a = Z2_64::from_u64(u64::MAX);
    assert_eq!((a + Z2_64::one()).to_u64(), 0);
    assert_eq!((a * a).to_u64(), 1);
    assert_eq!(Z2K::<4>::new(0x1f).to_u64(), 15);
    assert_eq!(Z16::from_u64(3).pow(4).to_u64(), 1);
}
