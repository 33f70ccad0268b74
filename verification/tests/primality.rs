use grid_algebra::arith::prime::GOLDILOCKS_MODULUS;
use grid_algebra::arith::primality::{is_prime_by_trial_division, is_prime_const};

#[test]
fn primality_small_values() {
    assert!(!is_prime_const(0));
    assert!(!is_prime_const(1));
    assert!(is_prime_const(2));
    assert!(is_prime_const(3));
    assert!(!is_prime_const(4));
    assert!(is_prime_const(37));
    assert!(!is_prime_const(39));
    assert!(is_prime_const(41));
    assert!(!is_prime_const(1369)); // 37^2
}

#[test]
fn primality_field_moduli() {
    for &q in &[17u64, 3329, 12289, 8380417, 4294967311, 184683593729, GOLDILOCKS_MODULUS] {
        assert!(is_prime_const(q), "{q} is prime");
    }
    assert!(is_prime_const(9223372036854775783));
}

#[test]
fn primality_rejects_pseudoprimes() {
    // Carmichael numbers and strong pseudoprimes to small bases.
    assert!(!is_prime_const(561));
    assert!(!is_prime_const(41041));
    assert!(!is_prime_const(3215031751)); // strong pseudoprime to 2, 3, 5, 7
    assert!(!is_prime_const(3825123056546413051)); // strong pseudoprime to the primes up to 23
    assert!(!is_prime_const(u64::MAX));
    assert!(!is_prime_const(4294967297)); // 641 * 6700417
}

#[test]
fn trial_division_certifies_primes() {
    for n in 0u64..200 {
        let expected = n >= 2 && (2..n).all(|d| n % d != 0);
        assert_eq!(is_prime_by_trial_division(n), expected, "n = {}", n);
        assert_eq!(is_prime_const(n), expected, "n = {}", n);
    }
    assert!(is_prime_by_trial_division(12289));
    assert!(is_prime_by_trial_division(8380417));
    assert!(!is_prime_by_trial_division(12289 * 17));
    // 65537^2 has its only proper factor at the square root.
    assert!(!is_prime_by_trial_division(65537 * 65537));
    assert!(is_prime_by_trial_division(4294967291));
    assert!(!is_prime_by_trial_division(u64::MAX));
}
