use grid_algebra::arith::{IntegerRing, PrimeField};
use grid_algebra::lattice::problems::{
    LweInstance, LweWitness, RlweInstance, RlweWitness, lwe_verify, rlwe_verify, sis_verify,
};
use grid_algebra::poly::ring::CyclotomicPolyRing;
use grid_algebra::lattice::{NormBound, RingMat, RingVec};

type F17 = PrimeField<17>;

fn f(v: u64) -> F17 {
    F17::from_u64(v)
}

fn instance(b: Vec<F17>) -> LweInstance<F17> {
    LweInstance { a: RingMat::new(2, 2, vec![f(1), f(2), f(3), f(4)]), b: RingVec::new(b) }
}

#[test]
fn lwe_verify_accepts_a_matching_witness() {
    // A s + e = [1 + 2, 3 + 4] + [0, 1] = [3, 8].
    let witness = LweWitness { secret: RingVec::new(vec![f(1), f(1)]), error: RingVec::new(vec![f(0), f(1)]) };
    assert!(lwe_verify(&instance(vec![f(3), f(8)]), &witness));
    // Reduction mod 17: s = [5, 7] gives [19, 43] = [2, 9].
    let witness = LweWitness { secret: RingVec::new(vec![f(5), f(7)]), error: RingVec::new(vec![f(0), f(0)]) };
    assert!(lwe_verify(&instance(vec![f(2), f(9)]), &witness));
}

#[test]
fn lwe_verify_rejects_a_wrong_right_hand_side_or_shape() {
    let witness = LweWitness { secret: RingVec::new(vec![f(1), f(1)]), error: RingVec::new(vec![f(0), f(1)]) };
    assert!(!lwe_verify(&instance(vec![f(3), f(9)]), &witness));
    assert!(!lwe_verify(&instance(vec![f(3)]), &witness));
    let short = LweWitness { secret: RingVec::new(vec![f(1)]), error: RingVec::new(vec![f(0), f(1)]) };
    assert!(!lwe_verify(&instance(vec![f(3), f(8)]), &short));
}

#[test]
fn sis_verify_checks_the_kernel_and_the_bound() {
    // [1, 16] * [1, 1] = 17 = 0 mod 17.
    let a = RingMat::new(1, 2, vec![f(1), f(16)]);
    let x = RingVec::new(vec![f(1), f(1)]);
    assert!(sis_verify(&a, &x, &NormBound { max_l2_sq: 2, max_linf: 1 }));
    assert!(!sis_verify(&a, &x, &NormBound { max_l2_sq: 1, max_linf: 1 }));
    assert!(!sis_verify(&a, &x, &NormBound { max_l2_sq: 2, max_linf: 0 }));
    let y = RingVec::new(vec![f(1), f(2)]);
    assert!(!sis_verify(&a, &y, &NormBound { max_l2_sq: 100, max_linf: 100 }));
    assert!(!sis_verify(&a, &RingVec::new(vec![f(1)]), &NormBound { max_l2_sq: 100, max_linf: 100 }));
}

fn poly(v: [u64; 8]) -> CyclotomicPolyRing<F17, 8> {
    CyclotomicPolyRing::from_array([f(v[0]), f(v[1]), f(v[2]), f(v[3]), f(v[4]), f(v[5]), f(v[6]), f(v[7])])
}

#[test]
fn rlwe_verify_checks_a_times_s_plus_e() {
    let instance = RlweInstance { a: poly([1, 2, 3, 4, 0, 1, 0, 2]), b: poly([15, 2, 14, 12, 16, 3, 11, 16]) };
    let witness = RlweWitness { secret: poly([3, 1, 4, 1, 5, 9, 2, 6]), error: poly([1, 0, 0, 0, 0, 0, 0, 0]) };
    assert!(rlwe_verify(&instance, &witness));
    let wrong = RlweWitness { secret: poly([3, 1, 4, 1, 5, 9, 2, 6]), error: poly([0, 0, 0, 0, 0, 0, 0, 0]) };
    assert!(!rlwe_verify(&instance, &wrong));
}

#[test]
fn lwe_generate_output_verifies() {
    let a = RingMat::new(2, 3, vec![f(1), f(2), f(3), f(4), f(5), f(6)]);
    let s = RingVec::new(vec![f(1), f(0), f(16)]);
    let e = RingVec::new(vec![f(1), f(16)]);
    let (instance, witness) = grid_algebra::lattice::problems::lwe_generate(a, s, e);
    // b = [1 - 3 + 1, 4 - 6 - 1] = [16, 14] mod 17.
    assert_eq!(instance.b, RingVec::new(vec![f(16), f(14)]));
    assert!(lwe_verify(&instance, &witness));
}
