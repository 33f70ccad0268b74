use grid_algebra::arith::bigint::BigUint;
use grid_algebra::arith::large_prime::Bn254Fr;
use grid_algebra::arith::large_rns::Rns3V0;
use grid_algebra::arith::large_zm::{Fermat64Profile, LargeZm};
use grid_algebra::arith::{IntegerRing, LargeCanonicalRing, PrimeField, Z2K};
use grid_algebra::poly::{
    gadget_decompose, gadget_decompose_large, gadget_recompose, gadget_recompose_large, gadget_vector,
    gadget_vector_large,
};

type F17 = PrimeField<17>;
type F12289 = PrimeField<12289>;
type Z2_64 = Z2K<64>;
type Fermat = LargeZm<Fermat64Profile, 2>;

#[test]
fn test_gadget_round_trip_bases() {
    let coeffs = vec![
        F17::from_u64(0),
        F17::from_u64(1),
        F17::from_u64(5),
        F17::from_u64(16),
    ];
    for &base in &[2u64, 4, 16, 256] {
        let digits = gadget_decompose(&coeffs, base);
        for digit_vec in &digits {
            for digit in digit_vec {
                assert!(digit.to_u64() < base);
            }
        }
        assert_eq!(gadget_recompose(&digits, base), coeffs);
    }
}

#[test]
fn test_gadget_vector() {
    let vec = gadget_vector::<F12289>(4);
    assert_eq!(vec[0].to_u64(), 1);
    assert_eq!(vec[1].to_u64(), 4);
    assert_eq!(vec[2].to_u64(), 16);
}

#[test]
fn test_gadget_round_trip_power_of_two_64() {
    let coeffs = vec![Z2_64::from_u64(0x0123_4567_89AB_CDEF)];
    let digits = gadget_decompose(&coeffs, 256);
    assert_eq!(digits.len(), 8);
    for digit_vec in &digits {
        for digit in digit_vec {
            assert!(digit.to_u64() < 256);
        }
    }
    assert_eq!(gadget_recompose(&digits, 256), coeffs);

    let gadget = gadget_vector::<Z2_64>(256);
    assert_eq!(gadget.len(), 8);
    assert_eq!(gadget[0].to_u64(), 1);
    assert_eq!(gadget[1].to_u64(), 256);
}

#[test]
fn gadget_round_trip_multidigit_prime_field_fixed_values() {
    let coeffs: Vec<F12289> = (0..64u64).map(|i| F12289::from_u64(i * 193 + 7)).collect();
    let digits = gadget_decompose(&coeffs, 16);
    // 12288 has four hexadecimal digits.
    assert_eq!(digits.len(), 4);
    for digit_vec in &digits {
        for digit in digit_vec {
            assert!(digit.to_u64() < 16);
        }
    }
    assert_eq!(gadget_recompose(&digits, 16), coeffs);
}

#[test]
fn gadget_decompose_digits_and_vector_values() {
    // 13 = 1101 in base 2; 16 has five binary digits.
    let digits = gadget_decompose(&[F17::from_u64(13)], 2);
    let bits: Vec<u64> = digits.iter().map(|row| row[0].to_u64()).collect();
    assert_eq!(bits, vec![1, 0, 1, 1, 0]);
    let g = gadget_vector::<F17>(2);
    let values: Vec<u64> = g.iter().map(|e| e.to_u64()).collect();
    assert_eq!(values, vec![1, 2, 4, 8, 16]);
    assert!(gadget_recompose::<F17>(&[], 2).is_empty());
    let empty_rows: Vec<Vec<F17>> = vec![Vec::new(), Vec::new()];
    assert!(gadget_recompose(&empty_rows, 2).is_empty());
}

fn fermat_coeffs() -> Vec<Fermat> {
    let values: [[u64; 2]; 6] = [
        [0, 0],
        [1, 0],
        [0x0123_4567_89AB_CDEF, 0],
        [u64::MAX, 0],
        [0, 1],
        [0xDEAD_BEEF, 0],
    ];
    values
        .iter()
        .map(|limbs| <Fermat as LargeCanonicalRing>::from_canonical(&BigUint { limbs: *limbs }))
        .collect()
}

#[test]
fn gadget_round_trip_large_fermat_base_16() {
    let coeffs = fermat_coeffs();
    let digits = gadget_decompose_large(&coeffs, 16);
    // q - 1 = 2^64 = 16^16 has seventeen hexadecimal digits.
    assert_eq!(digits.len(), 17);
    for digit_vec in &digits {
        assert_eq!(digit_vec.len(), coeffs.len());
        for digit in digit_vec {
            assert!(digit.try_to_u64().is_some_and(|d| d < 16));
        }
    }
    // 2^64 has a single non-zero digit, the top one.
    for (t, digit_vec) in digits.iter().enumerate() {
        let expected = if t == 16 { 1 } else { 0 };
        assert_eq!(digit_vec[4].try_to_u64(), Some(expected));
    }
    let back = gadget_recompose_large(&digits, 16);
    assert_eq!(back.len(), coeffs.len());
    for (a, b) in back.iter().zip(coeffs.iter()) {
        assert_eq!(a.to_canonical(), b.to_canonical());
    }
}

#[test]
fn gadget_round_trip_large_fermat_base_2_and_256() {
    let coeffs = fermat_coeffs();
    for &base in &[2u64, 256, 1 << 32] {
        let digits = gadget_decompose_large(&coeffs, base);
        for digit_vec in &digits {
            for digit in digit_vec {
                assert!(digit.try_to_u64().is_some_and(|d| d < base));
            }
        }
        let back = gadget_recompose_large(&digits, base);
        for (a, b) in back.iter().zip(coeffs.iter()) {
            assert_eq!(a.to_canonical(), b.to_canonical());
        }
    }
    // 2^64 needs 65 binary digits, 9 base-256 digits and 3 base-2^32 digits.
    assert_eq!(gadget_decompose_large(&coeffs, 2).len(), 65);
    assert_eq!(gadget_decompose_large(&coeffs, 256).len(), 9);
    assert_eq!(gadget_decompose_large(&coeffs, 1 << 32).len(), 3);
}

#[test]
fn gadget_vector_large_fermat_values() {
    let gadget = gadget_vector_large::<Fermat, 2>(16);
    assert_eq!(gadget.len(), 17);
    assert_eq!(gadget[0].try_to_u64(), Some(1));
    assert_eq!(gadget[1].try_to_u64(), Some(16));
    assert_eq!(gadget[2].try_to_u64(), Some(256));
    // 16^16 = 2^64 does not fit in 64 bits but is below q = 2^64 + 1.
    assert_eq!(gadget[16].to_canonical().limbs, [0, 1]);
    assert_eq!(gadget[16].try_to_u64(), None);
}

#[test]
fn gadget_recompose_large_known_digits() {
    // Digits 3, 2, 1 in base 10 recompose to 3 + 20 + 100 = 123.
    let rows: Vec<Vec<Fermat>> = vec![
        vec![Fermat::from_u64(3), Fermat::from_u64(0)],
        vec![Fermat::from_u64(2), Fermat::from_u64(9)],
        vec![Fermat::from_u64(1), Fermat::from_u64(9)],
    ];
    let out = gadget_recompose_large(&rows, 10);
    assert_eq!(out.len(), 2);
    assert_eq!(out[0].try_to_u64(), Some(123));
    assert_eq!(out[1].try_to_u64(), Some(990));
    assert!(gadget_recompose_large::<Fermat, 2>(&[], 10).is_empty());
    let empty_rows: Vec<Vec<Fermat>> = vec![Vec::new(), Vec::new()];
    assert!(gadget_recompose_large(&empty_rows, 10).is_empty());
}

#[test]
fn gadget_recompose_large_reduces_modulo_q() {
    // 2^64 + 2 = q + 1 fits in two limbs and reduces to 1.
    let two_to_64 = <Fermat as LargeCanonicalRing>::from_canonical(&BigUint { limbs: [0, 1] });
    let digits: Vec<Vec<Fermat>> = gadget_decompose_large(&[two_to_64], 1 << 32);
    assert_eq!(digits.len(), 3);
    let mut rows = digits.clone();
    rows[0][0] = Fermat::from_u64(2);
    let out = gadget_recompose_large(&rows, 1 << 32);
    assert_eq!(out[0].try_to_u64(), Some(1));
}

#[test]
fn test_gadget_round_trip_large_rns_backend() {
    // Sixteen fixed three-limb values, reduced modulo M.
    let mut state = 0x9E37_79B9_7F4A_7C15u64;
    let coeffs: Vec<Rns3V0> = (0..16)
        .map(|_| {
            let mut limbs = [0u64; 3];
            for limb in limbs.iter_mut() {
                state = state.wrapping_mul(6364136223846793005).wrapping_add(1442695040888963407);
                *limb = state;
            }
            <Rns3V0 as LargeCanonicalRing>::from_canonical(&BigUint { limbs })
        })
        .collect();
    let digits = gadget_decompose_large(&coeffs, 16);
    assert!(digits.len() > 1);
    for digit_vec in &digits {
        for digit in digit_vec {
            assert!(digit.try_to_u64().is_some_and(|digit| digit < 16));
        }
    }
    let back = gadget_recompose_large(&digits, 16);
    assert_eq!(back.len(), coeffs.len());
    for (a, b) in back.iter().zip(coeffs.iter()) {
        assert_eq!(a.residues(), b.residues());
    }

    let gadget = gadget_vector_large::<Rns3V0, 3>(16);
    assert_eq!(gadget[0].try_to_u64(), Some(1));
    assert_eq!(gadget[1].try_to_u64(), Some(16));
    assert_eq!(gadget[2].try_to_u64(), Some(256));
}

#[test]
fn test_gadget_round_trip_large_prime_backend() {
    // Sixteen fixed four-limb values, reduced modulo the BN254 scalar prime.
    let mut state = 0xD1B5_4A32_D192_ED03u64;
    let coeffs: Vec<Bn254Fr> = (0..16)
        .map(|_| {
            let mut limbs = [0u64; 4];
            for limb in limbs.iter_mut() {
                state = state.wrapping_mul(6364136223846793005).wrapping_add(1442695040888963407);
                *limb = state;
            }
            <Bn254Fr as LargeCanonicalRing>::from_canonical(&BigUint { limbs })
        })
        .collect();
    let digits = gadget_decompose_large(&coeffs, 16);
    assert!(digits.len() > 1);
    for digit_vec in &digits {
        for digit in digit_vec {
            assert!(digit.try_to_u64().is_some_and(|digit| digit < 16));
        }
    }
    let back = gadget_recompose_large(&digits, 16);
    assert_eq!(back.len(), coeffs.len());
    for (a, b) in back.iter().zip(coeffs.iter()) {
        assert_eq!(
            <Bn254Fr as LargeCanonicalRing>::to_canonical(a),
            <Bn254Fr as LargeCanonicalRing>::to_canonical(b)
        );
    }

    let gadget = gadget_vector_large::<Bn254Fr, 4>(16);
    assert_eq!(gadget[0].try_to_u64(), Some(1));
    assert_eq!(gadget[1].try_to_u64(), Some(16));
    assert_eq!(gadget[2].try_to_u64(), Some(256));
}
