use grid_algebra::arith::bigint::BigUint;
use grid_algebra::arith::{LargeCanonicalRing, Ring};
use grid_algebra::serialize::{CanonicalDeserialize, CanonicalSerialize, SerializationError};
use grid_algebra::arith::large_zm::{Fermat64Profile, LargeZm, LargeZmProfile, large_zm_profile_is_valid};

#[test]
fn profile_constants_are_correct() {
    // MODULUS = 2^64 + 1
    assert_eq!(<Fermat64Profile as LargeZmProfile<2>>::MODULUS[0], 1);
    assert_eq!(<Fermat64Profile as LargeZmProfile<2>>::MODULUS[1], 1);

    // MONT_NEG_INV: -1^{-1} = -1 = u64::MAX mod 2^64
    let inv = <Fermat64Profile as LargeZmProfile<2>>::MONT_NEG_INV;
    assert_eq!(inv.wrapping_mul(1), u64::MAX);

    // MONT_ONE: R mod (2^64+1) = 2^128 mod (2^64+1) = 1.
    assert_eq!(<Fermat64Profile as LargeZmProfile<2>>::MONT_ONE[0], 1);
    assert_eq!(<Fermat64Profile as LargeZmProfile<2>>::MONT_ONE[1], 0);

    // MONT_R2: R^2 mod (2^64+1) = 1.
    assert_eq!(<Fermat64Profile as LargeZmProfile<2>>::MONT_R2[0], 1);
    assert_eq!(<Fermat64Profile as LargeZmProfile<2>>::MONT_R2[1], 0);

    // BARRETT_MU = floor(2^128 / (2^64+1)) = 2^64 - 1 = [u64::MAX, 0].
    assert_eq!(
        <Fermat64Profile as LargeZmProfile<2>>::BARRETT_MU[0],
        u64::MAX
    );
    assert_eq!(<Fermat64Profile as LargeZmProfile<2>>::BARRETT_MU[1], 0);
}

fn fermat_valid() -> bool {
    large_zm_profile_is_valid::<2>(
        <Fermat64Profile as LargeZmProfile<2>>::MODULUS,
        <Fermat64Profile as LargeZmProfile<2>>::MONTGOMERY,
        <Fermat64Profile as LargeZmProfile<2>>::MONT_ONE,
        <Fermat64Profile as LargeZmProfile<2>>::MONT_R2,
        <Fermat64Profile as LargeZmProfile<2>>::MONT_NEG_INV,
        <Fermat64Profile as LargeZmProfile<2>>::BARRETT_MU,
    )
}

#[test]
fn large_zm_profile_fermat64_is_valid() {
    assert!(fermat_valid());
}

#[test]
fn large_zm_profile_rejects_zero_and_one_moduli() {
    assert!(!large_zm_profile_is_valid::<2>([0, 0], false, [1, 0], [1, 0], 0, [1, 0]));
    assert!(!large_zm_profile_is_valid::<2>([1, 0], false, [1, 0], [1, 0], 0, [1, 0]));
    assert!(large_zm_profile_is_valid::<2>([2, 0], false, [0, 0], [0, 0], 0, [1, 0]));
    assert!(large_zm_profile_is_valid::<2>([1, 2], false, [0, 0], [0, 0], 0, [1, 0]));
    assert!(!large_zm_profile_is_valid::<0>([], false, [], [], 0, []));
}

#[test]
fn large_zm_profile_rejects_zero_barrett_constant() {
    assert!(!large_zm_profile_is_valid::<2>([7, 0], false, [1, 0], [1, 0], 0, [0, 0]));
    assert!(!large_zm_profile_is_valid::<2>([1, 1], true, [1, 0], [1, 0], u64::MAX, [0, 0]));
}

#[test]
fn large_zm_profile_checks_montgomery_constants() {
    // even modulus
    assert!(!large_zm_profile_is_valid::<2>([2, 1], true, [1, 0], [1, 0], u64::MAX, [1, 0]));
    // wrong negated inverse
    assert!(!large_zm_profile_is_valid::<2>([1, 1], true, [1, 0], [1, 0], 1, [u64::MAX, 0]));
    // zero R mod q
    assert!(!large_zm_profile_is_valid::<2>([1, 1], true, [0, 0], [1, 0], u64::MAX, [u64::MAX, 0]));
    // zero R^2 mod q
    assert!(!large_zm_profile_is_valid::<2>([1, 1], true, [1, 0], [0, 0], u64::MAX, [u64::MAX, 0]));
    // 3 * 0x5555...5555 = 0xffff...ffff
    assert!(large_zm_profile_is_valid::<1>([3], true, [1], [1], 0x5555_5555_5555_5555, [1]));
}

struct Canonical97Profile;

impl LargeZmProfile<1> for Canonical97Profile {
    const MODULUS: [u64; 1] = [97];
    const MONTGOMERY: bool = false;
    const MONT_ONE: [u64; 1] = [0];
    const MONT_R2: [u64; 1] = [0];
    const MONT_NEG_INV: u64 = 0;
    // floor(2^64 / 97)
    const BARRETT_MU: [u64; 1] = [190172619316593315];
}

struct CanonicalLarge64Profile;

impl LargeZmProfile<1> for CanonicalLarge64Profile {
    const MODULUS: [u64; 1] = [u64::MAX - 58];
    const MONTGOMERY: bool = false;
    const MONT_ONE: [u64; 1] = [0];
    const MONT_R2: [u64; 1] = [0];
    const MONT_NEG_INV: u64 = 0;
    const BARRETT_MU: [u64; 1] = [1];
}

struct CanonicalFermat64Profile;

impl LargeZmProfile<2> for CanonicalFermat64Profile {
    const MODULUS: [u64; 2] = [1, 1];
    const MONTGOMERY: bool = false;
    const MONT_ONE: [u64; 2] = [0, 0];
    const MONT_R2: [u64; 2] = [0, 0];
    const MONT_NEG_INV: u64 = 0;
    const BARRETT_MU: [u64; 2] = [u64::MAX, 0];
}

// M = 2^128 + 123, floor(2^192 / M) = 2^64 - 1.
struct Canonical3LimbProfile;

impl LargeZmProfile<3> for Canonical3LimbProfile {
    const MODULUS: [u64; 3] = [123, 0, 1];
    const MONTGOMERY: bool = false;
    const MONT_ONE: [u64; 3] = [0, 0, 0];
    const MONT_R2: [u64; 3] = [0, 0, 0];
    const MONT_NEG_INV: u64 = 0;
    const BARRETT_MU: [u64; 3] = [u64::MAX, 0, 0];
}

type C97 = LargeZm<Canonical97Profile, 1>;
type C64 = LargeZm<CanonicalLarge64Profile, 1>;
type CF = LargeZm<CanonicalFermat64Profile, 2>;
type C3 = LargeZm<Canonical3LimbProfile, 3>;

#[test]
fn canonical_profile_small_modulus_arithmetic() {
    assert_eq!(C97::from_u64(100).to_u64(), 3);
    assert_eq!(C97::from_u64(13).mul_canonical(&C97::from_u64(17)).to_u64(), 27);
    assert_eq!(C97::from_u64(96).add_canonical(&C97::from_u64(2)).to_u64(), 1);
    assert_eq!(C97::from_u64(3).sub_canonical(&C97::from_u64(5)).to_u64(), 95);
    assert_eq!(C97::one().to_u64(), 1);
}

#[test]
fn canonical_profile_add_handles_limb_carry() {
    const M: u64 = u64::MAX - 58;
    let minus_one = C64::from_canonical(&BigUint::<1> { limbs: [M - 1] });
    assert_eq!(minus_one.add_canonical(&minus_one).to_u64(), M - 2);
    assert_eq!(minus_one.mul_canonical(&minus_one).to_u64(), 1);
}

#[test]
fn canonical_profile_multilimb_fermat_arithmetic() {
    let two_to_64 = CF::from_canonical(&BigUint::<2> { limbs: [0, 1] });
    assert_eq!(two_to_64.to_canonical(), BigUint::<2> { limbs: [0, 1] });
    assert_eq!(two_to_64.mul_canonical(&two_to_64).to_canonical(), BigUint::<2> { limbs: [1, 0] });
    assert_eq!(two_to_64.mul_canonical(&CF::from_u64(5)).to_u64(), u64::MAX - 3);
    let minus_two = CF::from_canonical(&BigUint::<2> { limbs: [u64::MAX, 0] });
    assert_eq!(minus_two.mul_canonical(&minus_two).to_canonical(), BigUint::<2> { limbs: [4, 0] });
    assert_eq!(CF::one().to_canonical(), BigUint::<2> { limbs: [1, 0] });
}

#[test]
fn canonical_3limb_multiply() {
    let one = C3::from_u64(1);
    assert_eq!(one.mul_canonical(&one).to_u64(), 1);
    let pow128 = C3::from_canonical(&BigUint { limbs: [0, 0, 1] });
    assert_eq!(pow128.to_canonical(), BigUint { limbs: [0, 0, 1] });
    // (2^128)^2 = (-123)^2 = 15129 mod M.
    assert_eq!(pow128.mul_canonical(&pow128).to_canonical(), BigUint { limbs: [15129, 0, 0] });
    let big_a = C3::from_canonical(&BigUint { limbs: [u64::MAX, u64::MAX, 0] });
    let big_b = C3::from_canonical(&BigUint { limbs: [1, 0, 0] });
    assert_eq!(big_a.mul_canonical(&big_b).to_canonical(), big_a.to_canonical());
    let val = C3::from_canonical(&BigUint { limbs: [u64::MAX, u64::MAX, 0] });
    let other = C3::from_canonical(&BigUint { limbs: [u64::MAX, 0, 1] });
    let left = val.add_canonical(&val).mul_canonical(&other);
    let right = val.mul_canonical(&other).add_canonical(&val.mul_canonical(&other));
    assert_eq!(left.to_canonical(), right.to_canonical());
}

#[test]
fn canonical_3limb_known_products() {
    // (M - 1)^2 = 1 mod M.
    let m_minus_1 = C3::from_canonical(&BigUint { limbs: [122, 0, 1] });
    assert_eq!(m_minus_1.mul_canonical(&m_minus_1).to_canonical(), BigUint { limbs: [1, 0, 0] });
    // 2^128 * (2^128 - 1) = 15129 + 123 = 15252 mod M.
    let two_pow_128 = C3::from_canonical(&BigUint { limbs: [0, 0, 1] });
    let two_pow_128_minus_1 = C3::from_canonical(&BigUint { limbs: [u64::MAX, u64::MAX, 0] });
    assert_eq!(
        two_pow_128.mul_canonical(&two_pow_128_minus_1).to_canonical(),
        BigUint { limbs: [15252, 0, 0] }
    );
}

#[test]
fn canonical_mul_limbs_on_raw_limbs() {
    assert_eq!(C97::canonical_mul_limbs(&[96], &[96]), [1]);
    assert_eq!(
        C3::canonical_mul_limbs(&[u64::MAX, u64::MAX, 0], &[1, 0, 0]),
        [u64::MAX, u64::MAX, 0]
    );
    assert_eq!(C64::from_canonical(&BigUint::<1> { limbs: [u64::MAX] }).to_u64(), 58);
}

#[test]
fn canonical_reduction_of_values_above_the_modulus() {
    // 2^129 = (2^128 + 123) + (2^128 - 123), so 2^129 mod M = 2^128 - 123.
    let r = C3::reduce_canonical(&BigUint { limbs: [0, 0, 2] });
    assert_eq!(r.limbs, [u64::MAX - 122, u64::MAX, 0]);
    let small = C3::reduce_canonical(&BigUint { limbs: [5, 0, 0] });
    assert_eq!(small.limbs, [5, 0, 0]);
}

type Z = LargeZm<Fermat64Profile, 2>;

#[test]
fn fermat_64_add_sub() {
    let a = Z::from_u64(100);
    let b = Z::from_u64(200);
    // 100 + 200 = 300 mod (2^64 + 1)
    let sum = a + b;
    assert_eq!(sum.to_u64(), 300);
    assert_eq!((b - a).to_u64(), 100);
}

#[test]
fn fermat_64_mul() {
    let a = Z::from_u64(3);
    let b = Z::from_u64(5);
    assert_eq!((a * b).to_u64(), 15);
    // 2^64 - 1 = -2 mod (2^64 + 1), so its square is 4.
    let big = Z::from_canonical(&BigUint { limbs: [u64::MAX, 0] });
    let product = big * big;
    let expected = BigUint { limbs: [4, 0] };
    assert_eq!(product.to_canonical(), expected);
}

#[test]
fn fermat_64_ring_properties() {
    let values: [[u64; 2]; 5] = [[0, 0], [1, 0], [u64::MAX, 0], [0, 1], [0x1234_5678_9ABC_DEF0, 0]];
    let elems: Vec<Z> = values.iter().map(|l| Z::from_canonical(&BigUint { limbs: *l })).collect();
    let zero = Z::from_u64(0);
    for &a in &elems {
        for &b in &elems {
            for &c in &elems {
                assert_eq!(((a + b) * c).to_canonical(), ((a * c) + (b * c)).to_canonical());
            }
            assert_eq!((a + b).to_canonical(), (b + a).to_canonical());
            assert_eq!((a * b).to_canonical(), (b * a).to_canonical());
        }
        assert_eq!((a + zero).to_canonical(), a.to_canonical());
        assert_eq!((a * Z::one()).to_canonical(), a.to_canonical());
    }
}

#[test]
fn fermat_64_one_uses_montgomery() {
    let one = Z::one();
    assert_eq!(one.to_u64(), 1);
}

#[test]
fn fermat_64_neg() {
    let a = Z::from_u64(100);
    let neg_a = -a;
    assert_eq!((a + neg_a).to_u64(), 0);
    assert_eq!((-Z::from_u64(0)).to_u64(), 0);
    // -100 = 2^64 + 1 - 100 = 2^64 - 99.
    assert_eq!(neg_a.to_canonical(), BigUint { limbs: [u64::MAX - 98, 0] });
}

#[test]
fn fermat_64_large_canonical() {
    let val = Z::from_u64(42);
    let canon = val.to_canonical();
    assert_eq!(canon.limbs[0], 42);
    assert_eq!(Z::from_canonical(&canon).to_canonical(), val.to_canonical());
}

#[test]
fn fermat_64_residue_2p64_roundtrip() {
    // The residue 2^64 = [0, 1] is a valid canonical value mod (2^64 + 1).
    let big = BigUint::<2> { limbs: [0, 1] };
    let val = Z::from_canonical(&big);
    assert_eq!(val.to_canonical(), big);
}

#[test]
fn fermat_64_try_to_u64() {
    assert_eq!(Z::from_u64(123).try_to_u64(), Some(123));
    // 2^65 mod (2^64 + 1) = 2^64 - 1 = u64::MAX, which fits.
    let v = BigUint::<2> { limbs: [0, 2] };
    assert_eq!(Z::from_canonical(&v).try_to_u64(), Some(u64::MAX));
    // The residue 2^64 does not fit in 64 bits.
    let big = BigUint::<2> { limbs: [0, 1] };
    assert_eq!(Z::from_canonical(&big).try_to_u64(), None);
}

#[test]
fn fermat_64_ring_trait_operations() {
    let a = <Z as LargeCanonicalRing>::from_small_u64(7);
    let b = <Z as Ring>::one();
    assert_eq!(<Z as Ring>::add_ref(&a, &b).to_u64(), 8);
    assert_eq!(<Z as Ring>::zero().to_u64(), 0);
    assert_eq!(<Z as LargeCanonicalRing>::modulus_canonical().limbs, [1, 1]);
}

#[test]
fn fermat_64_serialize_roundtrip() {
    let a = Z::from_u64(12345);
    let bytes = a.serialize().unwrap();
    assert_eq!(bytes.len(), 16);
    let decoded = Z::deserialize_exact(&bytes).unwrap();
    assert_eq!(decoded.to_u64(), 12345);
}

#[test]
fn fermat_64_serialize_rejects_non_canonical() {
    // 2^64 + 1 = [1, 1] so [0, 2] is out of range.
    let bytes = [0u8, 0, 0, 0, 0, 0, 0, 0, 2, 0, 0, 0, 0, 0, 0, 0];
    assert!(Z::deserialize_exact(&bytes).is_err());
}

#[test]
fn fermat_64_serialize_edge_values() {
    // The residue 2^64 encodes as eight zero bytes followed by a one.
    let top = Z::from_canonical(&BigUint::<2> { limbs: [0, 1] });
    let bytes = top.serialize().unwrap();
    assert_eq!(bytes, vec![0, 0, 0, 0, 0, 0, 0, 0, 1, 0, 0, 0, 0, 0, 0, 0]);
    assert_eq!(Z::deserialize_exact(&bytes).unwrap().to_canonical(), BigUint::<2> { limbs: [0, 1] });
    // The modulus itself is rejected, a short buffer reports the missing bytes, and
    // trailing bytes are refused by the exact decoder.
    let modulus = [1u8, 0, 0, 0, 0, 0, 0, 0, 1, 0, 0, 0, 0, 0, 0, 0];
    assert!(matches!(Z::deserialize(&modulus), Err(SerializationError::InvalidData(_))));
    assert!(matches!(Z::deserialize(&bytes[..15]), Err(SerializationError::UnexpectedEnd)));
    let mut longer = bytes.clone();
    longer.push(0);
    assert!(Z::deserialize_exact(&longer).is_err());
    let (value, used) = Z::deserialize(&longer).unwrap();
    assert_eq!(used, 16);
    assert_eq!(value.to_canonical(), BigUint::<2> { limbs: [0, 1] });
}
