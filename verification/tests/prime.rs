use grid_algebra::arith::prime::GOLDILOCKS_MODULUS;
use grid_algebra::arith::ntt::{NTTRing, NttError, NttPlan};
use grid_algebra::arith::{Field, IntegerRing, LargeCanonicalRing, PrimeField, Ring};
use std::fmt::Debug;
use std::mem::{align_of, size_of};
use std::ops::{Add, Mul, Neg, Sub};

type F17 = PrimeField<17>;
type F12289 = PrimeField<12289>;
type F3329 = PrimeField<3329>;
type F4294967311 = PrimeField<4294967311>;
type FGoldilocks = PrimeField<GOLDILOCKS_MODULUS>;

fn check_ring_axioms<R>(a: R, b: R, c: R)
where
    R: Ring + PartialEq + Debug + Add<Output = R> + Sub<Output = R> + Mul<Output = R> + Neg<Output = R>,
{
    assert_eq!(a + R::zero(), a, "a + 0 = a");
    assert_eq!(R::zero() + a, a, "0 + a = a");
    assert_eq!(a * R::one(), a, "a * 1 = a");
    assert_eq!(R::one() * a, a, "1 * a = a");
    assert_eq!(a + b, b + a, "a + b = b + a");
    assert_eq!(a * b, b * a, "a * b = b * a");
    assert_eq!((a + b) + c, a + (b + c), "(a + b) + c = a + (b + c)");
    assert_eq!((a * b) * c, a * (b * c), "(a * b) * c = a * (b * c)");
    assert_eq!(a * (b + c), (a * b) + (a * c), "a * (b + c) = a * b + a * c");
    assert_eq!(a + (-a), R::zero(), "a + (-a) = 0");
    assert_eq!(a * R::zero(), R::zero(), "a * 0 = 0");
}

fn check_integer_ring<R: IntegerRing + PartialEq + Debug>(val: u64) {
    let a = R::from_u64(val);
    let _ = a.to_u64();
    assert_eq!(a.reduce(), a, "reduce is idempotent");
}

fn check_field_axioms<F: Field + PartialEq + Debug + Mul<Output = F>>(a: F) {
    if !a.is_zero() {
        let inv_a = a.inv();
        assert_eq!(a * inv_a, F::one(), "a * a^(-1) = 1");
        assert_eq!(inv_a * a, F::one(), "a^(-1) * a = 1");
    }
}

#[test]
fn test_montgomery_constants() {
    assert_ne!(F17::r_mod_q_u64(), 0);
    let product = (17u64).wrapping_mul(F17::q_inv_limb());
    assert_eq!(product, u64::MAX);
}

#[test]
fn prime_test_repr_transparent_layout() {
    assert_eq!(size_of::<F17>(), size_of::<u64>());
    assert_eq!(align_of::<F17>(), align_of::<u64>());
}

#[test]
fn test_to_from_montgomery() {
    for val in 0..17u64 {
        let m = F17::to_montgomery(val);
        let back = m.from_montgomery();
        assert_eq!(back, val, "round-trip failed for {val}");
    }
}

#[test]
fn test_goldilocks_to_from_montgomery_and_raw_contract() {
    let samples = [
        0u64,
        1,
        2,
        17,
        (1u64 << 32) - 1,
        1u64 << 32,
        GOLDILOCKS_MODULUS - 2,
        GOLDILOCKS_MODULUS - 1,
    ];
    for value in samples {
        let mont = FGoldilocks::to_montgomery(value);
        assert_eq!(mont.to_u64(), value);
        assert!(mont.raw() < GOLDILOCKS_MODULUS);
        assert!(mont.is_valid());
        let restored = FGoldilocks::from_raw(mont.raw());
        assert_eq!(restored, mont);
        assert_eq!(restored.to_u64(), value);
    }
    let invalid = FGoldilocks::from_raw(GOLDILOCKS_MODULUS);
    assert!(!invalid.is_valid());
}

#[test]
fn test_add_sub() {
    let a = F17::from_u64(13);
    let b = F17::from_u64(10);
    assert_eq!((a + b).to_u64(), 6);
    assert_eq!((a - b).to_u64(), 3);
    assert_eq!((b - a).to_u64(), 14);
}

#[test]
fn test_goldilocks_add_sub_mul_near_modulus() {
    let pairs = [
        (GOLDILOCKS_MODULUS - 1, GOLDILOCKS_MODULUS - 2),
        ((1u64 << 32) - 1, (1u64 << 32) + 7),
        (123_456_789, 987_654_321),
        (GOLDILOCKS_MODULUS - (1u64 << 32), 1u64 << 32),
    ];
    for (lhs, rhs) in pairs {
        let a = FGoldilocks::from_u64(lhs);
        let b = FGoldilocks::from_u64(rhs);
        let expected_add = (((lhs as u128) + (rhs as u128)) % (GOLDILOCKS_MODULUS as u128)) as u64;
        let expected_sub = (((lhs as u128) + (GOLDILOCKS_MODULUS as u128) - (rhs as u128))
            % (GOLDILOCKS_MODULUS as u128)) as u64;
        let expected_mul = (((lhs as u128) * (rhs as u128)) % (GOLDILOCKS_MODULUS as u128)) as u64;
        assert_eq!((a + b).to_u64(), expected_add);
        assert_eq!((a - b).to_u64(), expected_sub);
        assert_eq!((a * b).to_u64(), expected_mul);
    }
}

#[test]
fn prime_test_slice_hooks_match_scalar_ops() {
    let lhs = [1u64, 7, 12_000, 3, 11].map(F12289::from_u64);
    let rhs = [2u64, 9, 1_111, 14, 6].map(F12289::from_u64);
    let mut add_hook = lhs;
    let mut sub_hook = lhs;
    let add_scalar = core::array::from_fn::<F12289, 5, _>(|i| lhs[i] + rhs[i]);
    let sub_scalar = core::array::from_fn::<F12289, 5, _>(|i| lhs[i] - rhs[i]);
    F12289::add_assign_slice(&mut add_hook, &rhs);
    F12289::sub_assign_slice(&mut sub_hook, &rhs);
    assert_eq!(add_hook, add_scalar);
    assert_eq!(sub_hook, sub_scalar);
}

#[test]
fn test_slice_hooks_match_scalar_ops_3329() {
    let lhs = [1u64, 7, 3_000, 3, 11].map(F3329::from_u64);
    let rhs = [2u64, 9, 1_111, 14, 6].map(F3329::from_u64);
    let scalar = F3329::from_u64(19);
    let mut add_hook = lhs;
    let mut sub_hook = lhs;
    let mut mul_hook = lhs;
    let mut scalar_mul_hook = lhs;
    let mut scaled_add_hook = lhs;
    let add_scalar = core::array::from_fn::<F3329, 5, _>(|i| lhs[i] + rhs[i]);
    let sub_scalar = core::array::from_fn::<F3329, 5, _>(|i| lhs[i] - rhs[i]);
    let mul_scalar = core::array::from_fn::<F3329, 5, _>(|i| lhs[i] * rhs[i]);
    let scalar_mul_scalar = core::array::from_fn::<F3329, 5, _>(|i| lhs[i] * scalar);
    let scaled_add_scalar = core::array::from_fn::<F3329, 5, _>(|i| lhs[i] + rhs[i] * scalar);
    F3329::add_assign_slice(&mut add_hook, &rhs);
    F3329::sub_assign_slice(&mut sub_hook, &rhs);
    F3329::pointwise_mul_assign_slice(&mut mul_hook, &rhs);
    F3329::scalar_mul_slice(&mut scalar_mul_hook, &scalar);
    F3329::add_assign_scaled_slice(&mut scaled_add_hook, &rhs, &scalar);
    assert_eq!(add_hook, add_scalar);
    assert_eq!(sub_hook, sub_scalar);
    assert_eq!(mul_hook, mul_scalar);
    assert_eq!(scalar_mul_hook, scalar_mul_scalar);
    assert_eq!(scaled_add_hook, scaled_add_scalar);
}

#[test]
fn test_slice_hooks_match_scalar_ops_above_2pow32() {
    let lhs = [1u64, 7, 4_000_000_000, 3, 11].map(F4294967311::from_u64);
    let rhs = [2u64, 9, 111_111_111, 14, 6].map(F4294967311::from_u64);
    let mut add_hook = lhs;
    let mut sub_hook = lhs;
    let add_scalar = core::array::from_fn::<F4294967311, 5, _>(|i| lhs[i] + rhs[i]);
    let sub_scalar = core::array::from_fn::<F4294967311, 5, _>(|i| lhs[i] - rhs[i]);
    F4294967311::add_assign_slice(&mut add_hook, &rhs);
    F4294967311::sub_assign_slice(&mut sub_hook, &rhs);
    assert_eq!(add_hook, add_scalar);
    assert_eq!(sub_hook, sub_scalar);
}

#[test]
fn test_slice_hooks_match_scalar_ops_goldilocks() {
    let lhs = [
        1u64,
        (1u64 << 32) - 1,
        GOLDILOCKS_MODULUS - 2,
        123_456_789,
        9_876_543_210,
    ]
    .map(FGoldilocks::from_u64);
    let rhs = [
        2u64,
        (1u64 << 32) + 7,
        GOLDILOCKS_MODULUS - 3,
        987_654_321,
        77_777_777,
    ]
    .map(FGoldilocks::from_u64);
    let scalar = FGoldilocks::from_u64((1u64 << 32) + 13);
    let mut add_hook = lhs;
    let mut sub_hook = lhs;
    let mut mul_hook = lhs;
    let mut scalar_mul_hook = lhs;
    let add_scalar = core::array::from_fn::<FGoldilocks, 5, _>(|i| lhs[i] + rhs[i]);
    let sub_scalar = core::array::from_fn::<FGoldilocks, 5, _>(|i| lhs[i] - rhs[i]);
    let mul_scalar = core::array::from_fn::<FGoldilocks, 5, _>(|i| lhs[i] * rhs[i]);
    let scalar_mul_scalar = core::array::from_fn::<FGoldilocks, 5, _>(|i| lhs[i] * scalar);
    FGoldilocks::add_assign_slice(&mut add_hook, &rhs);
    FGoldilocks::sub_assign_slice(&mut sub_hook, &rhs);
    FGoldilocks::pointwise_mul_assign_slice(&mut mul_hook, &rhs);
    FGoldilocks::scalar_mul_slice(&mut scalar_mul_hook, &scalar);
    assert_eq!(add_hook, add_scalar);
    assert_eq!(sub_hook, sub_scalar);
    assert_eq!(mul_hook, mul_scalar);
    assert_eq!(scalar_mul_hook, scalar_mul_scalar);
}

#[test]
fn prime_test_mul_hooks_match_scalar_ops() {
    let lhs = [1u64, 7, 12_000, 3, 11].map(F12289::from_u64);
    let rhs = [2u64, 9, 1_111, 14, 6].map(F12289::from_u64);
    let scalar = F12289::from_u64(19);
    let mut mul_hook = lhs;
    let mut scalar_mul_hook = lhs;
    let mul_scalar = core::array::from_fn::<F12289, 5, _>(|i| lhs[i] * rhs[i]);
    let scalar_mul_scalar = core::array::from_fn::<F12289, 5, _>(|i| lhs[i] * scalar);
    F12289::pointwise_mul_assign_slice(&mut mul_hook, &rhs);
    F12289::scalar_mul_slice(&mut scalar_mul_hook, &scalar);
    assert_eq!(mul_hook, mul_scalar);
    assert_eq!(scalar_mul_hook, scalar_mul_scalar);
}

#[test]
fn test_mul_hooks_match_scalar_ops_8380417() {
    type F8380417 = PrimeField<8380417>;
    let lhs = [1u64, 7, 8_000_000, 3, 11].map(F8380417::from_u64);
    let rhs = [2u64, 9, 111_111, 14, 6].map(F8380417::from_u64);
    let scalar = F8380417::from_u64(19);
    let mut mul_hook = lhs;
    let mut scalar_mul_hook = lhs;
    let mul_scalar = core::array::from_fn::<F8380417, 5, _>(|i| lhs[i] * rhs[i]);
    let scalar_mul_scalar = core::array::from_fn::<F8380417, 5, _>(|i| lhs[i] * scalar);
    F8380417::pointwise_mul_assign_slice(&mut mul_hook, &rhs);
    F8380417::scalar_mul_slice(&mut scalar_mul_hook, &scalar);
    assert_eq!(mul_hook, mul_scalar);
    assert_eq!(scalar_mul_hook, scalar_mul_scalar);
}

#[test]
fn test_mul() {
    let a = F17::from_u64(5);
    let b = F17::from_u64(4);
    assert_eq!((a * b).to_u64(), 3);
}

#[test]
fn test_inv() {
    let a = F17::from_u64(5);
    let inv_a = a.inv();
    assert_eq!(inv_a.to_u64(), 7);
    assert_eq!((a * inv_a).to_u64(), 1);
}

#[test]
fn test_inv_all_nonzero() {
    for val in 1..17u64 {
        let a = F17::from_u64(val);
        let inv = a.inv();
        assert_eq!((a * inv).to_u64(), 1, "inv failed for {val}: got {}", inv.to_u64());
    }
}

#[test]
fn test_ring_axioms_f17() {
    let a = F17::from_u64(3);
    let b = F17::from_u64(7);
    let c = F17::from_u64(11);
    check_ring_axioms(a, b, c);
}

#[test]
fn test_integer_ring_f17() {
    check_integer_ring::<F17>(10);
}

#[test]
fn test_field_axioms_f17() {
    for val in 0..17u64 {
        check_field_axioms(F17::from_u64(val));
    }
}

#[test]
fn test_pow() {
    let a = F17::from_u64(3);
    assert_eq!(a.pow(0).to_u64(), 1);
    assert_eq!(a.pow(1).to_u64(), 3);
    assert_eq!(a.pow(2).to_u64(), 9);
    assert_eq!(a.pow(3).to_u64(), 10);
    assert_eq!(a.pow(16).to_u64(), 1);
}

#[test]
fn test_prime_field_large_canonical_ring_round_trip() {
    let value = F17::from_small_u64(19);
    assert_eq!(value.to_canonical(), 2);
    assert_eq!(F17::modulus_canonical(), 17);
    assert_eq!(F17::from_canonical(&20).to_canonical(), 3);
    assert_eq!(value.try_to_u64(), Some(2));
    assert_eq!(value.try_to_u128(), Some(2));
}

type F251u8 = PrimeField<251, u8>;
type F12289u16 = PrimeField<12289, u16>;
type F65521u16 = PrimeField<65521, u16>;
type F4294967291u32 = PrimeField<4294967291, u32>;

#[test]
fn test_narrow_u8_ring_mul() {
    let a = F251u8::from_u64(200);
    let b = F251u8::from_u64(100);
    assert_eq!((a + b).to_u64(), 49);
    assert_eq!((a - b).to_u64(), 100);
    assert_eq!((a * b).to_u64(), (200 * 100) % 251);
    assert_eq!(a.inv().to_u64(), {
        let mut inv = 0u64;
        for i in 1..251 {
            if (200 * i) % 251 == 1 {
                inv = i;
                break;
            }
        }
        inv
    });
    let zero = F251u8::zero();
    assert!(zero.is_zero());
    let one = F251u8::one();
    assert_eq!(one.to_u64(), 1);
    assert_eq!((a * one).to_u64(), a.to_u64());
}

#[test]
fn test_narrow_u16_from_u64_reduction() {
    let a = F12289u16::from_u64(65536);
    assert_eq!(a.to_u64(), 65536 % 12289);
    let b = F12289u16::from_u64(0x1_0000);
    assert_eq!(b.to_u64(), 65536 % 12289);
    let c = F12289u16::from_u64(3 * 65536 + 42);
    assert_eq!(c.to_u64(), (3 * 65536 + 42) % 12289);
    let d = F12289u16::from_u64(42);
    assert_eq!(d.to_u64(), 42);
}

#[test]
fn test_narrow_u16_high_modulus_mul() {
    let a = F65521u16::from_u64(65520);
    let b = F65521u16::from_u64(65520);
    let expected = ((65520u128 * 65520) % 65521) as u64;
    assert_eq!((a * b).to_u64(), expected);
    assert_eq!((a + a).to_u64(), 65519);
    let inv = a.inv();
    assert_eq!((a * inv).to_u64(), 1);
    let c = F65521u16::from_u64(131042);
    assert_eq!(c.to_u64(), 0);
}

#[test]
fn test_narrow_u32_from_u64_boundary() {
    let q = 4294967291u64;
    let a = F4294967291u32::from_u64((1u64 << 32) + 12345);
    assert_eq!(a.to_u64(), ((1u64 << 32) + 12345) % q);
    let b = F4294967291u32::from_u64(1u64 << 32);
    assert_eq!(b.to_u64(), (1u64 << 32) % q);
    let big = (1u64 << 33) + (1u64 << 32) + 789;
    let c = F4294967291u32::from_u64(big);
    assert_eq!(c.to_u64(), big % q);
    let x = F4294967291u32::from_u64(q - 1);
    let y = F4294967291u32::from_u64(2);
    assert_eq!((x + y).to_u64(), 1);
    assert_eq!((x * y).to_u64(), (2 * (q - 1)) % q);
}

#[test]
fn prime_div_is_mul_by_inverse() {
    let a = F17::from_u64(3);
    let b = F17::from_u64(5);
    let q = a.div(&b);
    assert_eq!((q * b).to_u64(), 3);
    assert_eq!(q.to_u64(), 4);
}

#[test]
fn test_ntt_ring() {
    // F17: Q-1 = 16 = 2^4, so max NTT size = 16
    assert_eq!(F17::max_ntt_size(), 16);
    assert!(F17::supports_ntt(2));
    assert!(F17::supports_ntt(4));
    assert!(F17::supports_ntt(8));
    assert!(F17::supports_ntt(16));
    assert!(!F17::supports_ntt(32));

    // Verify root of unity
    let root = F17::root_of_unity(4).unwrap();
    let r4 = root.pow(4);
    assert_eq!(r4.to_u64(), 1, "root^4 should be 1");
    assert_ne!(root.pow(2).to_u64(), 1, "root^2 should not be 1");
}

#[test]
fn test_ntt_ring_12289() {
    // F12289: Q-1 = 12288 = 2^12 * 3
    assert_eq!(F12289::max_ntt_size(), 4096); // 2^12
    assert!(F12289::supports_ntt(4096));
    assert!(!F12289::supports_ntt(8192));
}

#[test]
fn test_ntt_round_trip_3329() {
    let input = [
        F3329::from_u64(1),
        F3329::from_u64(2),
        F3329::from_u64(3),
        F3329::from_u64(4),
        F3329::from_u64(5),
        F3329::from_u64(6),
        F3329::from_u64(7),
        F3329::from_u64(8),
    ];
    let mut evals = input;

    F3329::ntt_forward_in_place(&mut evals).unwrap();
    F3329::ntt_inverse_in_place(&mut evals).unwrap();

    assert_eq!(evals, input);
}

type F184683593729 = PrimeField<184683593729>;

#[test]
fn prime_ntt_round_trip_above_2pow32_fixed_values() {
    let original: Vec<F184683593729> =
        (0..256u64).map(|i| F184683593729::from_u64(i * 7_919 + 13)).collect();
    let mut values = original.clone();
    F184683593729::ntt_forward_in_place(&mut values).unwrap();
    assert_ne!(values, original);
    F184683593729::ntt_inverse_in_place(&mut values).unwrap();
    assert_eq!(values, original);
}

#[test]
fn prime_ntt_round_trip_goldilocks_fixed_values() {
    let original: Vec<FGoldilocks> =
        (0..512u64).map(|i| FGoldilocks::from_u64(i.wrapping_mul(0x9e37_79b9_7f4a_7c15))).collect();
    let mut values = original.clone();
    FGoldilocks::ntt_forward_in_place(&mut values).unwrap();
    FGoldilocks::ntt_inverse_in_place(&mut values).unwrap();
    assert_eq!(values, original);
}

#[test]
fn prime_ntt_forward_matches_direct_evaluation_f17() {
    // The forward transform of length 4 evaluates the polynomial at root^k.
    let coeffs = [F17::from_u64(3), F17::from_u64(1), F17::from_u64(4), F17::from_u64(1)];
    let root = F17::root_of_unity(4).unwrap();
    let mut evals = coeffs;
    F17::ntt_forward_in_place(&mut evals).unwrap();
    for k in 0..4u64 {
        let x = root.pow(k);
        let mut acc = F17::zero();
        for j in (0..4).rev() {
            acc = acc * x + coeffs[j];
        }
        assert_eq!(evals[k as usize], acc);
    }
}

#[test]
fn prime_ntt_errors() {
    let mut three = [F17::from_u64(1), F17::from_u64(2), F17::from_u64(3)];
    assert_eq!(
        F17::ntt_forward_in_place(&mut three),
        Err(NttError::LengthNotPowerOfTwo { len: 3 })
    );
    assert_eq!(three, [F17::from_u64(1), F17::from_u64(2), F17::from_u64(3)]);
    let mut big = vec![F17::from_u64(1); 32];
    assert_eq!(
        F17::ntt_inverse_in_place(&mut big),
        Err(NttError::UnsupportedSize { len: 32 })
    );
    let mut empty: [F17; 0] = [];
    assert_eq!(
        F17::ntt_forward_in_place(&mut empty),
        Err(NttError::LengthNotPowerOfTwo { len: 0 })
    );
}

#[test]
fn prime_ntt_plan_reuse_and_length_mismatch() {
    let plan = NttPlan::<F17>::build(8).unwrap();
    assert_eq!(plan.len(), 8);
    assert!(!plan.is_empty());
    let original: Vec<F17> = (0..8u64).map(F17::from_u64).collect();
    let mut values = original.clone();
    F17::ntt_forward_with_plan(&mut values, &plan).unwrap();
    F17::ntt_inverse_with_plan(&mut values, &plan).unwrap();
    assert_eq!(values, original);
    let mut short = vec![F17::one(); 4];
    assert_eq!(
        F17::ntt_forward_with_plan(&mut short, &plan),
        Err(NttError::LengthMismatch { left: 8, right: 4 })
    );
    assert_eq!(plan.validate_len(8), Ok(()));
    assert!(matches!(NttPlan::<F17>::build(6), Err(NttError::LengthNotPowerOfTwo { len: 6 })));
    assert!(matches!(NttPlan::<F17>::build(64), Err(NttError::UnsupportedSize { len: 64 })));
}

#[test]
fn prime_ntt_single_point_and_scale() {
    let mut one = [F17::from_u64(5)];
    F17::ntt_forward_in_place(&mut one).unwrap();
    assert_eq!(one, [F17::from_u64(5)]);
    F17::ntt_inverse_in_place(&mut one).unwrap();
    assert_eq!(one, [F17::from_u64(5)]);
    // 4^{-1} mod 17 = 13, and 17 has no inverse of 17.
    assert_eq!(F17::inverse_ntt_scale(4), Some(F17::from_u64(13)));
    assert_eq!(F17::inverse_ntt_scale(17), None);
    let w = F17::root_of_unity(16).unwrap();
    let wi = F17::inv_root_of_unity(16).unwrap();
    assert_eq!(w * wi, F17::one());
    assert_eq!(F17::root_of_unity(0), None);
    assert_eq!(F17::root_of_unity(3), None);
}

#[test]
fn prime_roots_come_from_the_least_generator() {
    // 3 is the least generator of Z_17^* (2^8 = 1 mod 17, 3^8 = 16 mod 17).
    assert_eq!(F17::root_of_unity(16), Some(F17::from_u64(3)));
    assert_eq!(F17::root_of_unity(4), Some(F17::from_u64(13)));
    assert_eq!(F17::inv_root_of_unity(4), Some(F17::from_u64(4)));
    assert_eq!(F17::root_of_unity(3), None);
    assert_eq!(F17::inv_root_of_unity(3), None);
    assert!(F17::supports_ntt(8));
    assert!(!F17::supports_ntt(32));
}
