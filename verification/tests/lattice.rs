use grid_algebra::arith::bigint::BigUint;
use grid_algebra::arith::large_prime::Bn254Fr;
use grid_algebra::arith::large_rns::Rns3V0;
use grid_algebra::arith::{IntegerRing, LargeCanonicalRing, PrimeField, Z2K};
use grid_algebra::lattice::params::int_sqrt_ceil;
use grid_algebra::lattice::{
    LargeNormBound, LargeNormStats, LargeNormValue, NormBound, NormStats, NormedRing, RingMat, RingVec,
};
use grid_algebra::serialize::{CanonicalDeserialize, CanonicalSerialize};

type F17 = PrimeField<17>;
type Z16 = Z2K<4>;

fn f(v: u64) -> F17 {
    F17::from_u64(v)
}

#[test]
fn test_ring_vec_add_assign_scaled_and_norms() {
    let mut a = RingVec::new(vec![f(1), f(2), f(3)]);
    let b = RingVec::new(vec![f(4), f(5), f(6)]);
    a.add_assign_scaled(&b, &f(2));
    assert_eq!(a.entries()[0].to_u64(), 9);
    assert_eq!(a.entries()[1].to_u64(), 12);
    assert_eq!(a.l2_norm_sq(), 93);
    assert_eq!(a.linf_norm(), 8);
}

#[test]
fn ring_vec_dot_scale_add_sub() {
    let a = RingVec::new(vec![f(1), f(2), f(3)]);
    let b = RingVec::new(vec![f(4), f(5), f(6)]);
    assert_eq!(a.dot(&b).to_u64(), 15);
    let scaled = a.scale(&f(2));
    assert_eq!(scaled.entries()[1].to_u64(), 4);
    let sum = a.clone() + b.clone();
    assert_eq!(sum, RingVec::new(vec![f(5), f(7), f(9)]));
    let diff = a.clone() - b.clone();
    assert_eq!(diff, RingVec::new(vec![f(14), f(14), f(14)]));
    assert_eq!(-a.clone(), RingVec::new(vec![f(16), f(15), f(14)]));
    assert_eq!(RingVec::<F17>::zero(2), RingVec::new(vec![f(0), f(0)]));
    assert_eq!(a.len(), 3);
    assert!(!a.is_empty());
    assert_eq!(*a.get(2), f(3));
}

#[test]
fn ring_mat_mul_vec_transpose_rows_cols() {
    let mat = RingMat::new(2, 3, vec![f(1), f(2), f(3), f(4), f(5), f(6)]);
    let vec = RingVec::new(vec![f(1), f(2), f(3)]);
    let prod = mat.mul_vec(&vec);
    assert_eq!(prod.entries()[0].to_u64(), 14);
    assert_eq!(prod.entries()[1].to_u64(), 15);
    assert_eq!(mat.transpose().transpose(), mat);
    let t = mat.transpose();
    assert_eq!((t.rows(), t.cols()), (3, 2));
    assert_eq!(*t.get(2, 1), f(6));
    assert_eq!(mat.row(1), RingVec::new(vec![f(4), f(5), f(6)]));
    assert_eq!(mat.col(2), RingVec::new(vec![f(3), f(6)]));
    let other = RingMat::new(2, 3, vec![f(6), f(5), f(4), f(3), f(2), f(1)]);
    let sum = mat.clone() + other.clone();
    assert!(sum.entries().iter().all(|e| e.to_u64() == 7));
    let diff = mat.clone() - other;
    assert_eq!(diff.entries()[0].to_u64(), 12);
    let mut m = RingMat::<F17>::zero(2, 2);
    *m.get_mut(1, 0) = f(9);
    assert_eq!(m.entries(), &[f(0), f(0), f(9), f(0)]);
}

#[test]
fn test_normed_ring_for_coefficients() {
    let a = F17::from_u64(14);
    assert_eq!(a.linf_norm(), 3);
    assert_eq!(a.l2_norm_sq(), 9);
    let b = Z16::from_u64(15);
    assert_eq!(b.linf_norm(), 1);
    assert_eq!(b.l2_norm_sq(), 1);
}

#[test]
fn test_norm_stats_and_bounds() {
    let vec = RingVec::new(vec![F17::from_u64(1), F17::from_u64(14), F17::from_u64(0)]);
    let stats = NormStats::compute(&vec);
    assert_eq!(stats.l2_sq, 10);
    assert_eq!(stats.linf, 3);
    let bound = NormBound::from_stats(&stats);
    assert!(bound.check(&vec));
    let stricter = NormBound {
        max_l2_sq: 9,
        max_linf: 2,
    };
    assert!(!stricter.check(&vec));
}

#[test]
fn test_bound_compose_and_scale() {
    let a = NormBound {
        max_l2_sq: 9,
        max_linf: 3,
    };
    let b = NormBound {
        max_l2_sq: 16,
        max_linf: 4,
    };
    let composed = NormBound::compose_add(&a, &b);
    assert_eq!(composed.max_linf, 7);
    assert!(composed.max_l2_sq >= 49);
    let scaled = a.scale(2);
    assert_eq!(scaled.max_l2_sq, 36);
    assert_eq!(scaled.max_linf, 6);
}

#[test]
fn norm_helpers_saturate_and_round_up() {
    assert_eq!(int_sqrt_ceil(0), 0);
    assert_eq!(int_sqrt_ceil(1), 1);
    assert_eq!(int_sqrt_ceil(10), 4);
    assert_eq!(int_sqrt_ceil(49), 7);
    assert_eq!(int_sqrt_ceil(u128::MAX), 1u128 << 64);
    let big = NormBound {
        max_l2_sq: u128::MAX,
        max_linf: u64::MAX,
    };
    assert_eq!(big.scale(2).max_l2_sq, u128::MAX);
    assert_eq!(big.scale(2).max_linf, u64::MAX);
    assert_eq!(big.scale(0).max_l2_sq, 0);
    let composed = NormBound::compose_add(&big, &big);
    assert_eq!(composed.max_linf, u64::MAX);
    assert_eq!(composed.max_l2_sq, u128::MAX);
    let wide = Z2K::<64>::from_u64(u64::MAX);
    assert_eq!(wide.linf_norm(), 1);
    assert_eq!(Z2K::<64>::from_u64(1u64 << 63).linf_norm(), 1u64 << 63);
}

#[test]
fn test_ring_vec_arithmetic() {
    let a = RingVec::new(vec![F17::from_u64(1), F17::from_u64(2), F17::from_u64(3)]);
    let b = RingVec::new(vec![F17::from_u64(4), F17::from_u64(5), F17::from_u64(6)]);
    assert_eq!(a.dot(&b).to_u64(), 15);
    let scaled = a.scale(&F17::from_u64(2));
    assert_eq!(scaled.entries()[1].to_u64(), 4);

    let mut add_assign = a.clone();
    add_assign.add_assign(b.clone());
    assert_eq!(add_assign, a.clone() + b.clone());
    assert_eq!(add_assign, a.clone() + &b);

    let mut sub_assign = a.clone();
    sub_assign.sub_assign(b.clone());
    assert_eq!(sub_assign, a.clone() - &b);
    assert_eq!(sub_assign, a - b);
}

#[test]
fn test_ring_mat_mul_vec_and_transpose() {
    let mat = RingMat::new(
        2,
        3,
        vec![
            F17::from_u64(1),
            F17::from_u64(2),
            F17::from_u64(3),
            F17::from_u64(4),
            F17::from_u64(5),
            F17::from_u64(6),
        ],
    );
    let vec = RingVec::new(vec![F17::from_u64(1), F17::from_u64(2), F17::from_u64(3)]);
    let prod = mat.mul_vec(&vec);
    assert_eq!(prod.entries()[0].to_u64(), 14);
    assert_eq!(prod.entries()[1].to_u64(), 15);
    assert_eq!(mat.clone() * &vec, prod);
    assert_eq!(mat.transpose().transpose(), mat);

    let other = RingMat::new(
        2,
        3,
        vec![
            F17::from_u64(6),
            F17::from_u64(5),
            F17::from_u64(4),
            F17::from_u64(3),
            F17::from_u64(2),
            F17::from_u64(1),
        ],
    );
    let mut add_assign = mat.clone();
    add_assign.add_assign(other.clone());
    assert_eq!(add_assign, mat.clone() + other.clone());
    assert_eq!(add_assign, mat.clone() + &other);

    let mut sub_assign = mat.clone();
    sub_assign.sub_assign(other.clone());
    assert_eq!(sub_assign, mat.clone() - &other);
    assert_eq!(sub_assign, mat.clone() - other);
    let negated = -mat.clone();
    assert_eq!(negated.entries()[0].to_u64(), 16);
}

#[test]
fn composed_bound_accepts_sums_of_accepted_vectors() {
    // x = (3, -2, 1) and y = (-4, 4, 2) over F17, written as residues.
    let x = RingVec::new(vec![f(3), f(15), f(1)]);
    let y = RingVec::new(vec![f(13), f(4), f(2)]);
    let bx = NormBound::from_stats(&NormStats::compute(&x));
    let by = NormBound::from_stats(&NormStats::compute(&y));
    assert_eq!((bx.max_l2_sq, bx.max_linf), (14, 3));
    assert_eq!((by.max_l2_sq, by.max_linf), (36, 4));
    assert!(bx.check(&x));
    assert!(by.check(&y));
    let composed = NormBound::compose_add(&bx, &by);
    // ceil(sqrt(14)) = 4 and sqrt(36) = 6, so the L2 limit is 10^2.
    assert_eq!(composed.max_l2_sq, 100);
    assert_eq!(composed.max_linf, 7);
    let z = x.clone() + y.clone();
    // z = (-1, 2, 3): squared norm 14, largest entry 3.
    assert_eq!(z.l2_norm_sq(), 14);
    assert!(composed.check(&z));
}

#[test]
fn test_large_norm_stats_for_large_prime_backend() {
    let modulus = Bn254Fr::modulus_canonical();
    let (modulus_minus_one, borrow) = modulus.sub_small(1);
    assert!(!borrow);

    let vec = RingVec::new(vec![
        <Bn254Fr as LargeCanonicalRing>::from_small_u64(5),
        Bn254Fr::from_canonical(&modulus_minus_one),
    ]);
    let stats = LargeNormStats::compute(&vec);
    assert_eq!(stats.linf, BigUint::<8>::from_u64(5));
    assert_eq!(stats.l2_sq, BigUint::<8>::from_u64(26));

    let bound = LargeNormBound::from_stats(&stats);
    assert!(bound.check(&vec));

    let composed = LargeNormBound::compose_add(&bound, &bound);
    assert_eq!(composed.max_linf, BigUint::<8>::from_u64(10));
    assert!(composed.max_l2_sq >= BigUint::<8>::from_u64(104));
}

#[test]
fn test_large_norm_stats_for_large_rns_backend() {
    let modulus = Rns3V0::modulus_canonical();
    let (modulus_minus_three, borrow) = modulus.sub_small(3);
    assert!(!borrow);

    let vec = RingVec::new(vec![
        <Rns3V0 as LargeCanonicalRing>::from_small_u64(7),
        Rns3V0::from_canonical(&modulus_minus_three),
    ]);
    let stats = LargeNormStats::compute(&vec);
    assert_eq!(stats.linf, BigUint::<6>::from_u64(7));
    assert_eq!(stats.l2_sq, BigUint::<6>::from_u64(58));

    let bound = LargeNormBound::from_stats(&stats);
    assert!(bound.check(&vec));
    assert_eq!(bound.scale(2).max_linf, BigUint::<6>::from_u64(14));
}

#[test]
fn test_large_norm_bound_serialize_round_trip() {
    let bound = LargeNormBound {
        max_l2_sq: BigUint::<8>::from_u64(123),
        max_linf: BigUint::<8>::from_u64(7),
    };
    let bytes = bound.serialize().unwrap();
    let decoded = LargeNormBound::<BigUint<8>>::deserialize_exact(&bytes).unwrap();
    assert_eq!(decoded, bound);
    assert!(decoded.is_valid());
}

#[test]
fn large_norms_of_vector_and_square_roots() {
    // Fields with a 64-bit canonical type use 128-bit norms.
    let v = RingVec::new(vec![f(16), f(3), f(0)]);
    assert_eq!(v.linf_norm_large(), 3u128);
    assert_eq!(v.l2_norm_sq_large(), 10u128);
    // Rounded-up square roots, including perfect squares.
    assert_eq!(<BigUint<4> as LargeNormValue>::sqrt_ceil(&BigUint::<4>::from_u64(4)), BigUint::<4>::from_u64(2));
    assert_eq!(<BigUint<4> as LargeNormValue>::sqrt_ceil(&BigUint::<4>::from_u64(26)), BigUint::<4>::from_u64(6));
    assert_eq!(<BigUint<4> as LargeNormValue>::sqrt_ceil(&BigUint::<4>::from_u64(1)), BigUint::<4>::from_u64(1));
    assert_eq!(<u128 as LargeNormValue>::sqrt_ceil(&25u128), 5u128);
    // Saturation at the ceiling.
    let max = BigUint::<2>::max_value();
    assert_eq!(<BigUint<2> as LargeNormValue>::add(&max, &BigUint::<2>::from_u64(1)), max);
    assert_eq!(<BigUint<2> as LargeNormValue>::square(&max), max);
    // An empty vector has zero norms.
    let empty: RingVec<Bn254Fr> = RingVec::new(vec![]);
    let stats = LargeNormStats::compute(&empty);
    assert_eq!(stats.l2_sq, BigUint::<8>::from_u64(0));
    assert_eq!(stats.linf, BigUint::<8>::from_u64(0));
}

#[test]
fn large_composed_bound_accepts_sum() {
    let bn = |v: u64| <Bn254Fr as LargeCanonicalRing>::from_small_u64(v);
    let modulus = Bn254Fr::modulus_canonical();
    let (minus_four, _) = modulus.sub_small(4);
    let x = RingVec::new(vec![bn(3), Bn254Fr::from_canonical(&minus_four), bn(0)]);
    let y = RingVec::new(vec![bn(4), Bn254Fr::from_canonical(&minus_four), bn(9)]);
    let bx = LargeNormBound::from_stats(&LargeNormStats::compute(&x));
    let by = LargeNormBound::from_stats(&LargeNormStats::compute(&y));
    assert_eq!(bx.max_l2_sq, BigUint::<8>::from_u64(25));
    assert_eq!(by.max_l2_sq, BigUint::<8>::from_u64(113));
    let composed = LargeNormBound::compose_add(&bx, &by);
    // sqrt_ceil(25) = 5 and sqrt_ceil(113) = 11, so the L2 limit is 16^2.
    assert_eq!(composed.max_l2_sq, BigUint::<8>::from_u64(256));
    assert_eq!(composed.max_linf, BigUint::<8>::from_u64(13));
    let sum = x.clone() + y.clone();
    assert!(composed.check(&sum));
    let sum_stats = LargeNormStats::compute(&sum);
    assert_eq!(sum_stats.linf, BigUint::<8>::from_u64(9));
    assert_eq!(sum_stats.l2_sq, BigUint::<8>::from_u64(49 + 64 + 81));
}
