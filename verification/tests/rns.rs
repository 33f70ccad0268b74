use grid_algebra::arith::bigint::BigUint;
use grid_algebra::arith::rns::{gcd, mod_inv_u64, RnsBasis};

#[test]
fn test_gcd() {
    assert_eq!(gcd(12, 8), 4);
    assert_eq!(gcd(17, 13), 1);
    assert_eq!(gcd(100, 75), 25);
}

#[test]
fn test_mod_inv() {
    assert_eq!(mod_inv_u64(3, 7), 5);
    assert_eq!(mod_inv_u64(5, 17), 7);
}

#[test]
fn test_rns_decompose_reconstruct() {
    let basis = RnsBasis::new(vec![7, 11, 13]);
    let x = 500u64;
    let residues = basis.decompose(x);
    assert_eq!(residues, vec![500 % 7, 500 % 11, 500 % 13]);
    let reconstructed = basis.reconstruct(&residues);
    assert_eq!(reconstructed, 500u128);
}

#[test]
fn test_rns_decompose_reconstruct_many() {
    let basis = RnsBasis::new(vec![7, 11, 13]);
    for x in 0..1001u64 {
        let residues = basis.decompose(x);
        let reconstructed = basis.reconstruct(&residues);
        assert_eq!(reconstructed, x as u128, "failed for x = {x}");
    }
}

#[test]
fn test_rns_arithmetic() {
    let basis = RnsBasis::new(vec![7, 11, 13]);
    let a = 123u64;
    let b = 456u64;
    let ra = basis.decompose(a);
    let rb = basis.decompose(b);
    let sum = basis.add(&ra, &rb);
    let expected_sum = basis.decompose((a + b) % 1001);
    assert_eq!(sum, expected_sum, "RNS add failed");
    let prod = basis.mul(&ra, &rb);
    let expected_prod = basis.decompose(((a as u128 * b as u128) % 1001) as u64);
    assert_eq!(prod, expected_prod, "RNS mul failed");
    let diff = basis.sub(&ra, &rb);
    let expected_diff = basis.decompose((a + 1001 - b) % 1001);
    assert_eq!(diff, expected_diff, "RNS sub failed");
}

#[test]
fn test_rns_larger_basis() {
    let basis = RnsBasis::new(vec![17, 19, 23, 29]);
    let x = 100000u64;
    let residues = basis.decompose(x);
    let reconstructed = basis.reconstruct(&residues);
    assert_eq!(reconstructed, x as u128);
}

#[test]
fn test_rns_biguint_round_trip_above_u128() {
    let basis = RnsBasis::new(vec![
        0x0000_1000_01d0_0001,
        0x0000_1000_03b0_0001,
        0x0000_1000_0450_0001,
    ]);
    let value = BigUint::<3> {
        limbs: [0x0123_4567_89ab_cdef, 0x0fed_cba9_8765_4321, 0x0f],
    };
    let residues = basis.decompose_biguint(&value);
    let reconstructed = basis.reconstruct_biguint::<3>(&residues);
    assert_eq!(reconstructed, value);
    assert_eq!(
        basis.modulus_biguint::<3>(),
        BigUint::<3> {
            limbs: [0xb01e_9700_09d0_0001, 0x0009_d001_e970_1e0c, 0x10],
        }
    );
}

#[test]
fn rns_basis_validity_checks() {
    assert!(RnsBasis::is_valid_basis(&vec![7, 11, 13]));
    assert!(!RnsBasis::is_valid_basis(&vec![6, 10]));
    assert!(!RnsBasis::is_valid_basis(&vec![]));
    assert!(!RnsBasis::is_valid_basis(&vec![0, 7]));
    assert!(!RnsBasis::is_valid_basis(&vec![1, 7]));
    let basis = RnsBasis::new(vec![7, 11, 13]);
    assert_eq!(basis.num_limbs(), 3);
    assert_eq!(basis.modulus_biguint::<1>().limbs, [1001]);
}

#[test]
fn rns_limb_ops_wrap_and_reduce() {
    let basis = RnsBasis::new(vec![7, 11, 13]);
    let mut dst = vec![6, 10, 12];
    basis.add_assign_into(&mut dst, &[6, 10, 12]);
    assert_eq!(dst, vec![5, 9, 11]);
    basis.sub_assign_into(&mut dst, &[6, 10, 12]);
    assert_eq!(dst, vec![6, 10, 12]);
    basis.mul_assign_into(&mut dst, &[6, 10, 12]);
    assert_eq!(dst, vec![1, 1, 1]);
    assert_eq!(mod_inv_u64(0, 1), 0);
    assert_eq!(mod_inv_u64(u64::MAX, u64::MAX - 1), 1);
}
