use grid_algebra::arith::bigint::BigUint;
use std::cmp::Ordering;

type U128 = BigUint<2>;

#[test]
fn test_add() {
    let a = U128::from_u64(u64::MAX);
    let b = U128::from_u64(1);
    let (sum, carry) = a.add_with_carry(&b);
    assert!(!carry);
    assert_eq!(sum.limbs[0], 0);
    assert_eq!(sum.limbs[1], 1);
}

#[test]
fn test_sub() {
    let a = U128 { limbs: [0, 1] };
    let b = U128::from_u64(1);
    let (diff, borrow) = a.sub_with_borrow(&b);
    assert!(!borrow);
    assert_eq!(diff.limbs[0], u64::MAX);
    assert_eq!(diff.limbs[1], 0);
}

#[test]
fn test_mul_by_limb() {
    let a = U128::from_u64(u64::MAX);
    let (prod, carry) = a.mul_by_limb(2);
    assert_eq!(prod.limbs[0], u64::MAX - 1);
    assert_eq!(prod.limbs[1], 1);
    assert_eq!(carry, 0);
}

#[test]
fn test_widening_mul() {
    let a = U128::from_u64(1_000_000);
    let b = U128::from_u64(1_000_000);
    let (lo, hi) = a.widening_mul(&b);
    assert_eq!(lo.limbs[0], 1_000_000_000_000);
    assert!(hi.is_zero());
}

#[test]
fn test_cmp() {
    let a = U128::from_u64(100);
    let b = U128::from_u64(200);
    assert!(a < b);
    assert!(b > a);
    assert_eq!(a.cmp(&a), Ordering::Equal);
}

#[test]
fn test_bits() {
    assert_eq!(U128::zero().bits(), 0);
    assert_eq!(U128::from_u64(1).bits(), 1);
    assert_eq!(U128::from_u64(255).bits(), 8);
    assert_eq!(U128::from_u64(256).bits(), 9);
}

#[test]
fn test_from_u128_and_try_to_u128() {
    let value = (1u128 << 96) | 0xDEAD_BEEF_CAFE_BABEu128;
    let big = BigUint::<4>::from_u128(value);
    assert_eq!(big.try_to_u128(), Some(value));
}

#[test]
fn test_try_to_u64_rejects_high_limb() {
    let value = U128 { limbs: [5, 1] };
    assert_eq!(value.try_to_u64(), None);
    assert_eq!(value.try_to_u128(), Some((1u128 << 64) | 5));
}

#[test]
fn test_shift_helpers() {
    let value = U128 {
        limbs: [0x0123_4567_89AB_CDEF, 0x0FED_CBA9_8765_4321],
    };
    let (shifted, carry) = value.shl_bits(4);
    assert_eq!(shifted.limbs[0], 0x1234_5678_9ABC_DEF0);
    assert_eq!(shifted.limbs[1], 0xFEDC_BA98_7654_3210);
    assert_eq!(carry, 0);
    let shrunk = shifted.shr_bits(4);
    assert_eq!(shrunk, value);
}

#[test]
fn test_sub_if_ge() {
    let a = U128 { limbs: [10, 1] };
    let b = U128 { limbs: [3, 1] };
    let c = U128 { limbs: [0, 2] };
    assert_eq!(a.sub_if_ge(&b), U128 { limbs: [7, 0] });
    assert_eq!(a.sub_if_ge(&c), a);
}

#[test]
fn test_add_small() {
    let value = U128 { limbs: [u64::MAX, 7] };
    let (sum, carry) = value.add_small(5);
    assert!(!carry);
    assert_eq!(sum.limbs, [4, 8]);
}

#[test]
fn test_sub_small() {
    let value = U128 { limbs: [0, 7] };
    let (diff, borrow) = value.sub_small(5);
    assert!(!borrow);
    assert_eq!(diff.limbs, [u64::MAX - 4, 6]);
}

#[test]
fn test_div_rem_small() {
    let value = BigUint::<3> { limbs: [0, 5, 1] };
    let (quotient, remainder) = value.div_rem_small(7);
    assert_eq!(remainder, 0);
    let (reconstructed, carry) = quotient.mul_by_limb(7);
    assert_eq!(carry, 0);
    let (reconstructed, overflow) = reconstructed.add_small(remainder);
    assert!(!overflow);
    assert_eq!(reconstructed, value);
}

#[test]
fn test_zero_extend() {
    let value = U128 {
        limbs: [0xDEAD_BEEF, 0xCAFE_BABE],
    };
    let widened = value.zero_extend::<4>();
    assert_eq!(widened.limbs, [0xDEAD_BEEF, 0xCAFE_BABE, 0, 0]);
}

#[test]
fn bigint_carries_and_borrows_at_the_top() {
    let max = U128::max_value();
    assert_eq!(max.limbs, [u64::MAX, u64::MAX]);
    let (sum, carry) = max.add_small(1);
    assert!(carry);
    assert!(sum.is_zero());
    let (sum, carry) = max.add_with_carry(&U128::one());
    assert!(carry);
    assert!(sum.is_zero());
    let (diff, borrow) = U128::zero().sub_small(1);
    assert!(borrow);
    assert_eq!(diff, max);
    let (diff, borrow) = U128::one().sub_with_borrow(&U128::from_u64(2));
    assert!(borrow);
    assert_eq!(diff, max);
    let (lo, hi) = max.widening_mul(&max);
    assert_eq!(lo.limbs, [1, 0]);
    assert_eq!(hi.limbs, [u64::MAX - 1, u64::MAX]);
    assert_eq!(max.bits(), 128);
    let (q, r) = max.div_rem_small(10);
    assert_eq!(r, (u128::MAX % 10) as u64);
    assert_eq!(q.try_to_u128(), Some(u128::MAX / 10));
    let narrowed = BigUint::<4>::from_u128(u128::MAX).zero_extend::<1>();
    assert_eq!(narrowed.limbs, [u64::MAX]);
    assert_eq!(U128 { limbs: [1, 0] }.shl_bits(63).1, 0);
    assert_eq!(U128 { limbs: [0, 1 << 63] }.shl_bits(1).1, 1);
    assert!(U128 { limbs: [0, 1] } > U128 { limbs: [u64::MAX, 0] });
}
