use grid_algebra::arith::{IntegerRing, LargeCanonicalRing, Ring, Zm};

type Z257 = Zm<257>;
type Z274177 = Zm<274177>;
type Z2 = Zm<2>;
type Z256 = Zm<256>;

#[test]
fn test_ring_properties_odd_composite() {
    let a = Z257::from_u64(100);
    let b = Z257::from_u64(200);
    let c = Z257::from_u64(50);
    let lhs = (a + b) * c;
    let rhs = (a * c) + (b * c);
    assert_eq!(lhs, rhs);
}

#[test]
fn test_ring_properties_odd_prime() {
    let a = Z274177::from_u64(12345);
    let b = Z274177::from_u64(67890);
    let c = Z274177::from_u64(11111);
    let lhs = (a + b) * c;
    let rhs = (a * c) + (b * c);
    assert_eq!(lhs, rhs);
}

#[test]
fn test_ring_properties_even() {
    let a = Z2::from_u64(1);
    let b = Z2::from_u64(0);
    let c = Z2::from_u64(1);
    assert_eq!((a + b) * c, (a * c) + (b * c));
}

#[test]
fn test_montgomery_roundtrip() {
    for val in 0..100u64 {
        let x = Z257::from_u64(val);
        assert_eq!(x.to_u64(), val % 257);
    }
}

#[test]
fn test_even_roundtrip() {
    for val in 0..100u64 {
        let x = Z256::from_u64(val);
        assert_eq!(x.to_u64(), val % 256);
    }
}

#[test]
fn test_zero() {
    let z = <Z257 as Ring>::zero();
    assert_eq!(z.to_u64(), 0);
    assert!(z.is_zero());
}

#[test]
fn test_one() {
    let o = <Z257 as Ring>::one();
    assert_eq!(o.to_u64(), 1);
    assert!(o.is_one());
    let o_even = <Z2 as Ring>::one();
    assert_eq!(o_even.to_u64(), 1);
}

#[test]
fn zm_test_neg() {
    assert_eq!(-Z257::from_u64(0), Z257::from_u64(0));
    assert_eq!(-Z257::from_u64(1), Z257::from_u64(256));
    assert_eq!(-Z257::from_u64(256), Z257::from_u64(1));
}

#[test]
fn test_large_canonical() {
    let val = Z257::from_u64(42);
    let canon = val.to_canonical();
    assert_eq!(canon, 42);
    assert_eq!(Z257::from_canonical(&42), val);
}

#[test]
fn test_small_limbs() {
    type Z257U16 = Zm<257, u16>;
    let a = Z257U16::from_u64(100);
    let b = Z257U16::from_u64(200);
    assert_eq!((a + b).to_u64(), 300 % 257);
    assert_eq!((a * b).to_u64(), (100 * 200) % 257);
}

#[test]
fn zm_mul_matches_wide_products() {
    let samples = [0u64, 1, 2, 255, 256, 257, 1 << 40, u64::MAX - 3, u64::MAX];
    for &a in &samples {
        for &b in &samples {
            let expected = ((a as u128 * b as u128) % 257) as u64;
            assert_eq!((Z257::from_u64(a) * Z257::from_u64(b)).to_u64(), expected);
            let expected = ((a as u128 * b as u128) % 256) as u64;
            assert_eq!((Z256::from_u64(a) * Z256::from_u64(b)).to_u64(), expected);
            let x = Z257::from_u64(a);
            let y = Z257::from_u64(b);
            assert_eq!((x + y - y).to_u64(), a % 257);
            assert_eq!(-(-x), x);
        }
    }
}

#[test]
fn zm_pow_and_modulus() {
    assert_eq!(Z257::modulus(), 257);
    assert_eq!(Z257::from_u64(3).pow(256).to_u64(), 1);
    assert_eq!(Z256::from_u64(3).pow(2).to_u64(), 9);
}
