//! Toy SIS and LWE problem definitions and their verifiers.
use crate::arith::ntt::lemma_add_zero_left;
use crate::arith::ring::{Ring, dot_spec, seq_wf};
use crate::lattice::params::{NormBound, NormedRing, l2_sum, linf_max, sat_u128};
use crate::lattice::types::{RingMat, RingVec, mat_row};
use crate::poly::ntt::negacyclic_spec;
use crate::poly::ring::{CyclotomicPolyRing, NegacyclicMulRing, PolyRing};
use vstd::prelude::*;

verus! {

/// An LWE instance `(A, b = A*s + e)`.
pub struct LweInstance<R: Ring> {
    /// Matrix `A` of shape `m x n`.
    pub a: RingMat<R>,
    /// Vector `b` of length `m`.
    pub b: RingVec<R>,
}

/// An LWE witness `(s, e)`.
pub struct LweWitness<R: Ring> {
    /// Secret vector of length `n`.
    pub secret: RingVec<R>,
    /// Error vector of length `m`.
    pub error: RingVec<R>,
}

/// A SIS instance consisting of a matrix and a norm bound.
pub struct SisInstance<R: Ring> {
    /// Matrix `A` of shape `m x n`.
    pub a: RingMat<R>,
    /// Bound on acceptable witnesses.
    pub bound: NormBound,
}

/// A SIS witness `x`.
pub struct SisWitness<R: Ring> {
    /// Witness vector of length `n`.
    pub x: RingVec<R>,
}

/// An RLWE instance `(a, b = a*s + e)`.
pub struct RlweInstance<P: PolyRing> {
    /// Public ring element `a`.
    pub a: P,
    /// Public ring element `b`.
    pub b: P,
}

/// An RLWE witness `(s, e)`.
pub struct RlweWitness<P: PolyRing> {
    /// Secret ring element.
    pub secret: P,
    /// Error ring element.
    pub error: P,
}

/// The RLWE relation over `Z_q[X] / (X^N + 1)`: `a * s + e = b` coefficient by
/// coefficient.
pub open spec fn rlwe_holds<R: NegacyclicMulRing<N>, const N: usize>(
    a: Seq<R>,
    b: Seq<R>,
    s: Seq<R>,
    e: Seq<R>,
) -> bool {
    forall|i: int| 0 <= i < N ==> #[trigger] b[i] == R::add_spec(negacyclic_spec(a, s)[i], e[i])
}

/// Entry `i` of `A x`: the dot product of row `i` of `A` with `x`.
pub open spec fn mat_vec_entry<R: Ring>(a: RingMat<R>, x: Seq<R>, i: int) -> R {
    dot_spec(mat_row(a.entries_spec(), a.cols_spec(), i), x)
}

/// The LWE relation: the shapes agree and `A s + e = b` entry by entry.
pub open spec fn lwe_holds<R: Ring>(a: RingMat<R>, b: Seq<R>, s: Seq<R>, e: Seq<R>) -> bool {
    &&& a.rows_spec() == b.len()
    &&& a.cols_spec() == s.len()
    &&& a.rows_spec() == e.len()
    &&& forall|i: int| 0 <= i < b.len() ==> #[trigger] b[i] == R::add_spec(mat_vec_entry(a, s, i), e[i])
}

/// The SIS relation: the shapes agree, `A x = 0`, and `x` meets the bound.
pub open spec fn sis_holds<R: NormedRing>(a: RingMat<R>, x: Seq<R>, bound: NormBound) -> bool {
    &&& a.cols_spec() == x.len()
    &&& forall|i: int| 0 <= i < a.rows_spec() ==> #[trigger] mat_vec_entry(a, x, i) == R::zero_spec()
    &&& sat_u128(l2_sum(x) as int) <= bound.max_l2_sq
    &&& linf_max(x) <= bound.max_linf
}

/// `a == b` for valid ring elements, by testing `a - b` for zero.
fn ring_eq<R: Ring>(a: &R, b: &R) -> (r: bool)
    requires
        a.wf(),
        b.wf(),
    ensures
        r == (*a == *b),
{
    let d = R::sub_ref(a, b);
    proof {
        R::lemma_wf_params(*a);
        R::lemma_identities_wf();
        R::lemma_closed(*a, *b);
        R::lemma_closed(*b, *b);
        R::lemma_add_laws(*a, *b, *b);
        R::lemma_add_laws(*a, R::neg_spec(*b), *b);
        R::lemma_add_laws(*b, R::neg_spec(*b), *b);
        R::lemma_add_laws(R::neg_spec(*b), *b, *b);
        lemma_add_zero_left(*b);
    }
    d.is_zero()
}

/// Build a toy LWE instance from sampled `A`, `s` and `e`: `b = A s + e`. The
/// generated pair always satisfies the LWE relation, so `lwe_verify` accepts it.
pub fn lwe_generate<R: Ring>(a: RingMat<R>, secret: RingVec<R>, error: RingVec<R>) -> (r: (LweInstance<R>, LweWitness<R>))
    requires
        R::params_ok(),
        a.shape_ok(),
        a.cols_spec() == secret@.len(),
        a.rows_spec() == error@.len(),
        seq_wf(a.entries_spec()),
        seq_wf(secret@),
        seq_wf(error@),
    ensures
        lwe_holds(r.0.a, r.0.b@, r.1.secret@, r.1.error@),
        r.0.a == a,
        r.1.secret@ == secret@,
        r.1.error@ == error@,
        seq_wf(r.0.b@),
{
    let prod = a.mul_vec(&secret);
    let b = prod.add_vec(&error);
    proof {
        assert forall|i: int| 0 <= i < b@.len() implies #[trigger] b@[i] == R::add_spec(
            mat_vec_entry(a, secret@, i),
            error@[i],
        ) by {}
    }
    (LweInstance { a, b }, LweWitness { secret, error })
}

/// Verify a toy LWE witness: the shapes agree and `A s + e == b`.
pub fn lwe_verify<R: Ring>(instance: &LweInstance<R>, witness: &LweWitness<R>) -> (r: bool)
    requires
        R::params_ok(),
        instance.a.shape_ok(),
        seq_wf(instance.a.entries_spec()),
        seq_wf(instance.b@),
        seq_wf(witness.secret@),
        seq_wf(witness.error@),
    ensures
        r == lwe_holds(instance.a, instance.b@, witness.secret@, witness.error@),
{
    if instance.a.rows() != instance.b.len() || instance.a.cols() != witness.secret.len()
        || instance.a.rows() != witness.error.len() {
        return false;
    }
    let prod = instance.a.mul_vec(&witness.secret);
    let lhs = prod.add_vec(&witness.error);
    let mut i: usize = 0;
    while i < instance.b.len()
        invariant
            R::params_ok(),
            lhs@.len() == instance.b@.len(),
            instance.b@.len() == instance.a.rows_spec(),
            instance.a.cols_spec() == witness.secret@.len(),
            instance.a.rows_spec() == witness.error@.len(),
            seq_wf(lhs@),
            seq_wf(instance.b@),
            forall|k: int| 0 <= k < lhs@.len() ==> #[trigger] lhs@[k] == R::add_spec(
                mat_vec_entry(instance.a, witness.secret@, k),
                witness.error@[k],
            ),
            i <= instance.b@.len(),
            forall|k: int| 0 <= k < i ==> instance.b@[k] == #[trigger] lhs@[k],
        decreases instance.b@.len() - i,
    {
        if !ring_eq(lhs.get(i), instance.b.get(i)) {
            return false;
        }
        i = i + 1;
    }
    proof {
        assert forall|k: int| 0 <= k < instance.b@.len() implies #[trigger] instance.b@[k] == R::add_spec(
            mat_vec_entry(instance.a, witness.secret@, k),
            witness.error@[k],
        ) by {
            assert(instance.b@[k] == lhs@[k]);
        }
    }
    true
}

/// Verify a SIS witness against a matrix and norm bound: `A x == 0` and `x` meets
/// the bound.
pub fn sis_verify<R: NormedRing>(a: &RingMat<R>, x: &RingVec<R>, bound: &NormBound) -> (r: bool)
    requires
        R::params_ok(),
        a.shape_ok(),
        seq_wf(a.entries_spec()),
        seq_wf(x@),
    ensures
        r == sis_holds(*a, x@, *bound),
{
    if a.cols() != x.len() {
        return false;
    }
    let syndrome = a.mul_vec(x);
    let mut i: usize = 0;
    while i < syndrome.len()
        invariant
            R::params_ok(),
            seq_wf(syndrome@),
            syndrome@.len() == a.rows_spec(),
            a.cols_spec() == x@.len(),
            forall|k: int| 0 <= k < syndrome@.len() ==> #[trigger] syndrome@[k] == mat_vec_entry(*a, x@, k),
            i <= syndrome@.len(),
            forall|k: int| 0 <= k < i ==> #[trigger] mat_vec_entry(*a, x@, k) == R::zero_spec(),
        decreases syndrome@.len() - i,
    {
        if !syndrome.get(i).is_zero() {
            return false;
        }
        i = i + 1;
    }
    bound.check(x)
}


/// Verify an RLWE witness: `a * s + e == b` in `Z_q[X] / (X^N + 1)`.
pub fn rlwe_verify<R: NegacyclicMulRing<N>, const N: usize>(
    instance: &RlweInstance<CyclotomicPolyRing<R, N>>,
    witness: &RlweWitness<CyclotomicPolyRing<R, N>>,
) -> (r: bool)
    requires
        R::params_ok(),
        seq_wf(instance.a@),
        seq_wf(instance.b@),
        seq_wf(witness.secret@),
        seq_wf(witness.error@),
    ensures
        r == rlwe_holds::<R, N>(instance.a@, instance.b@, witness.secret@, witness.error@),
{
    proof {
        instance.b.lemma_len();
    }
    let prod = CyclotomicPolyRing::mul_ref(&instance.a, &witness.secret);
    let lhs = CyclotomicPolyRing::add_ref(&prod, &witness.error);
    let lhs_coeffs = lhs.coeffs();
    let b_coeffs = instance.b.coeffs();
    let mut i: usize = 0;
    while i < N
        invariant
            R::params_ok(),
            lhs_coeffs@ == lhs@,
            b_coeffs@ == instance.b@,
            lhs@.len() == N,
            instance.b@.len() == N,
            seq_wf(lhs@),
            seq_wf(instance.b@),
            forall|k: int| 0 <= k < N ==> #[trigger] lhs@[k] == R::add_spec(
                negacyclic_spec(instance.a@, witness.secret@)[k],
                witness.error@[k],
            ),
            i <= N,
            forall|k: int| 0 <= k < i ==> instance.b@[k] == #[trigger] lhs@[k],
        decreases N - i,
    {
        if !ring_eq(&lhs_coeffs[i], &b_coeffs[i]) {
            return false;
        }
        i = i + 1;
    }
    proof {
        assert forall|k: int| 0 <= k < N implies #[trigger] instance.b@[k] == R::add_spec(
            negacyclic_spec(instance.a@, witness.secret@)[k],
            witness.error@[k],
        ) by {
            assert(instance.b@[k] == lhs@[k]);
        }
    }
    true
}

} // verus!
