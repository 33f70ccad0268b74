use grid_algebra::arith::bigint::BigUint;
use grid_algebra::arith::composite::CompositeRing;
use grid_algebra::arith::rns::RnsBasis;
use std::sync::Arc;

fn test_basis() -> Arc<RnsBasis> {
    Arc::new(RnsBasis::new(vec![17, 19, 23]))
}

#[test]
fn test_composite_from_u64() {
    let basis = test_basis();
    let a = CompositeRing::from_u64_with_basis(1234, basis);
    assert_eq!(a.to_u128(), 1234);
}

#[test]
fn test_composite_add() {
    let basis = test_basis();
    let a = CompositeRing::from_u64_with_basis(1234, basis.clone());
    let b = CompositeRing::from_u64_with_basis(5678, basis);
    let sum = a + b;
    assert_eq!(sum.to_u128(), 6912);
}

#[test]
fn test_composite_mul() {
    let basis = test_basis();
    let a = CompositeRing::from_u64_with_basis(123, basis.clone());
    let b = CompositeRing::from_u64_with_basis(456, basis);
    let prod = a * b;
    assert_eq!(prod.to_u128(), (123u128 * 456) % 7429);
}

#[test]
fn test_composite_sub() {
    let basis = test_basis();
    let a = CompositeRing::from_u64_with_basis(100, basis.clone());
    let b = CompositeRing::from_u64_with_basis(200, basis);
    let diff = a - b;
    assert_eq!(diff.to_u128(), 7329);
}

#[test]
fn test_composite_neg() {
    let basis = test_basis();
    let a = CompositeRing::from_u64_with_basis(100, basis);
    let neg_a = -a;
    assert_eq!(neg_a.to_u128(), 7429 - 100);
}

#[test]
fn test_composite_zero_one() {
    let basis = test_basis();
    let zero = CompositeRing::zero_with_basis(basis.clone());
    let one = CompositeRing::one_with_basis(basis.clone());
    let a = CompositeRing::from_u64_with_basis(42, basis);
    assert_eq!((a.clone() + &zero).to_u128(), 42);
    assert_eq!((a.clone() * &one).to_u128(), 42);
    assert_eq!((a.clone() * &zero).to_u128(), 0);
}

#[test]
fn test_composite_round_trip_all() {
    let basis = Arc::new(RnsBasis::new(vec![7, 11, 13]));
    for x in 0..1001u64 {
        let elem = CompositeRing::from_u64_with_basis(x, basis.clone());
        assert_eq!(elem.to_u128(), x as u128, "round-trip failed for {x}");
    }
}

#[test]
fn test_composite_equality_checks_basis() {
    let lhs = CompositeRing::from_u64_with_basis(1, Arc::new(RnsBasis::new(vec![7, 11])));
    let rhs = CompositeRing::from_u64_with_basis(1, Arc::new(RnsBasis::new(vec![13, 17])));
    assert_ne!(lhs, rhs);
}

#[test]
fn composite_accessors_and_canonical_values() {
    let basis = test_basis();
    let value = BigUint::<2> { limbs: [7000, 0] };
    let a = CompositeRing::from_canonical_with_basis(&value, basis.clone());
    assert_eq!(a.residues(), &[7000 % 17, 7000 % 19, 7000 % 23]);
    assert_eq!(a.basis().moduli(), &vec![17, 19, 23]);
    assert_eq!(a.to_canonical::<2>(), value);
    assert_eq!(a.try_to_u128(), Some(7000));
    let b = CompositeRing::from_residues_with_basis(vec![1, 2, 3], basis.clone()).unwrap();
    assert_eq!(b.residues(), &[1, 2, 3]);
    assert!(CompositeRing::from_residues_with_basis(vec![17, 0, 0], basis.clone()).is_err());
    assert!(CompositeRing::from_residues_with_basis(vec![1, 2], basis).is_err());
}
