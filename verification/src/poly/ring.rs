//! Cyclotomic polynomial rings `Z_q[X] / (X^N + 1)`.
use crate::arith::dft::{fn_wf, lemma_rsum_scale, lemma_rsum_split, lemma_rsum_wf, rsum};
use crate::arith::ntt::{NTTRing, NttError, is_pow2, lemma_add_zero_left};
use crate::arith::ring::{
    IntegerRing, Ring, lemma_pow_wf, pow_spec, ring_add_assign_slice, ring_scalar_mul_slice,
    ring_sub_assign_slice, seq_wf,
};
use crate::arith::z2k::Z2K;
use crate::poly::ntt::{cached_twisted_plan, negacyclic_spec, negacyclic_terms, poly_mul_ntt};
use crate::lattice::types::encoded_size;
use crate::serialize::{
    CanonicalDeserialize, CanonicalSerialize, SerializationError, all_can_encode,
    concat_encodings, decodes_seq, deserialize_entries, lemma_seq_not_short,
    lemma_seq_offset_unique, lemma_seq_prefix, lemma_seq_round_trip, serialize_entries, short_seq,
};
use vstd::prelude::*;

verus! {

/// Construction errors for polynomial ring elements.
#[derive(Debug, Clone, Copy, PartialEq, Eq, Structural)]
pub enum PolyError {
    /// The cyclotomic degree is not supported.
    InvalidDegree { degree: usize },
    /// The coefficient slice length does not match the degree.
    WrongCoeffCount { expected: usize, got: usize },
}

/// The degree is a non-zero power of two.
fn is_valid_degree(n: usize) -> (b: bool)
    ensures
        b == is_pow2(n as nat),
{
    crate::arith::ntt::validate_power_of_two_len(n).is_ok()
}

/// Coefficient rings that can multiply negacyclic polynomials of degree `N`.
pub trait NegacyclicMulRing<const N: usize>: IntegerRing + CanonicalSerialize + CanonicalDeserialize {
    /// Multiply two negacyclic coefficient arrays: the product modulo `X^N + 1`.
    fn negacyclic_mul_coeffs(a: &[Self; N], b: &[Self; N]) -> (r: [Self; N])
        requires
            Self::params_ok(),
            seq_wf(a@),
            seq_wf(b@),
        ensures
            r@ == negacyclic_spec(a@, b@),
            seq_wf(r@),
    ;
}

/// The column `j` of row `i` that lands on coefficient `k`: `(k - i) mod N`.
spec fn landing_col(i: int, k: int, n: int) -> int {
    if i <= k {
        k - i
    } else {
        k - i + n
    }
}

/// Schoolbook multiplication modulo `X^N + 1`: every product `a[i] * b[j]` is added
/// to coefficient `i + j`, or subtracted from coefficient `i + j - N` when it wraps.
fn naive_negacyclic_mul_coeffs<R: IntegerRing, const N: usize>(a: &[R; N], b: &[R; N]) -> (r: [R; N])
    requires
        R::params_ok(),
        seq_wf(a@),
        seq_wf(b@),
    ensures
        r@ == negacyclic_spec(a@, b@),
        seq_wf(r@),
{
    proof {
        R::lemma_identities_wf();
    }
    let mut out = [R::zero(); N];
    let ghost n = N as int;
    let mut i: usize = 0;
    while i < N
        invariant
            R::params_ok(),
            seq_wf(a@),
            seq_wf(b@),
            a@.len() == N,
            b@.len() == N,
            out@.len() == N,
            n == N,
            i <= N,
            seq_wf(out@),
            forall|k: int| 0 <= k < N ==> #[trigger] out@[k] == rsum(negacyclic_terms(a@, b@, k), i as nat),
        decreases N - i,
    {
        let mut j: usize = 0;
        while j < N
            invariant
                R::params_ok(),
                seq_wf(a@),
                seq_wf(b@),
                a@.len() == N,
                b@.len() == N,
                out@.len() == N,
                n == N,
                i < N,
                j <= N,
                seq_wf(out@),
                forall|k: int|
                    0 <= k < N ==> #[trigger] out@[k] == (if landing_col(i as int, k, n) < j {
                        R::add_spec(
                            rsum(negacyclic_terms(a@, b@, k), i as nat),
                            negacyclic_terms(a@, b@, k)(i as int),
                        )
                    } else {
                        rsum(negacyclic_terms(a@, b@, k), i as nat)
                    }),
            decreases N - j,
        {
            let prod = R::mul_ref(&a[i], &b[j]);
            proof {
                R::lemma_closed(a@[i as int], b@[j as int]);
            }
            if j < N - i {
                let idx = i + j;
                proof {
                    assert(landing_col(i as int, idx as int, n) == j);
                    assert(negacyclic_terms(a@, b@, idx as int)(i as int) == prod);
                }
                let v = R::add_ref(&out[idx], &prod);
                out[idx] = v;
            } else {
                let idx = j - (N - i);
                proof {
                    R::lemma_add_laws(out@[idx as int], prod, prod);
                    assert(landing_col(i as int, idx as int, n) == j);
                    assert(negacyclic_terms(a@, b@, idx as int)(i as int) == R::neg_spec(prod));
                }
                let v = R::sub_ref(&out[idx], &prod);
                out[idx] = v;
            }
            j = j + 1;
        }
        proof {
            assert forall|k: int| 0 <= k < N implies #[trigger] out@[k] == rsum(
                negacyclic_terms(a@, b@, k),
                (i + 1) as nat,
            ) by {
                assert(landing_col(i as int, k, n) < N);
            }
        }
        i = i + 1;
    }
    proof {
        assert(out@ =~= negacyclic_spec(a@, b@));
    }
    out
}

impl<R, const N: usize> NegacyclicMulRing<N> for R where
    R: NTTRing + IntegerRing + CanonicalSerialize + CanonicalDeserialize,
 {
    /// Through the twisted NTT when the ring has a `2N`-th root of unity and the
    /// transform succeeds, schoolbook multiplication otherwise.
    fn negacyclic_mul_coeffs(a: &[Self; N], b: &[Self; N]) -> (r: [Self; N]) {
        match N.checked_mul(2) {
            Some(twice_n) => {
                if Self::supports_ntt(twice_n) {
                    match cached_twisted_plan::<Self>(N) {
                        Ok(plan) => {
                            let mut lhs = *a;
                            let mut rhs = *b;
                            if plan.multiply_in_place(&mut lhs, &mut rhs).is_ok() {
                                return lhs;
                            }
                        },
                        Err(_) => {},
                    }
                    match poly_mul_ntt(a, b) {
                        Ok(coeffs) => {
                            if coeffs.len() == N {
                                let mut out = *a;
                                let mut k: usize = 0;
                                while k < N
                                    invariant
                                        coeffs@.len() == N,
                                        out@.len() == N,
                                        k <= N,
                                        forall|t: int| 0 <= t < k ==> #[trigger] out@[t] == coeffs@[t],
                                    decreases N - k,
                                {
                                    out[k] = coeffs[k];
                                    k = k + 1;
                                }
                                proof {
                                    assert(out@ =~= coeffs@);
                                }
                                return out;
                            }
                        },
                        Err(_) => {},
                    }
                }
            },
            None => {},
        }
        naive_negacyclic_mul_coeffs(a, b)
    }
}

impl<const K: u32, const N: usize> NegacyclicMulRing<N> for Z2K<K> {
    /// Schoolbook multiplication: `Z/2^K` has no NTT.
    fn negacyclic_mul_coeffs(a: &[Self; N], b: &[Self; N]) -> (r: [Self; N]) {
        naive_negacyclic_mul_coeffs(a, b)
    }
}

/// The value `sum_i s[i] * x^i` of the polynomial with coefficients `s` at `x`.
pub open spec fn poly_eval<R: Ring>(s: Seq<R>, x: R) -> R {
    rsum(|i: int| R::mul_spec(s[i], pow_spec(x, i as nat)), s.len())
}

/// Horner's step: `p(x) = p'(x) * x + s[0]`, where `p'` drops the constant term.
proof fn lemma_poly_eval_step<R: Ring>(s: Seq<R>, x: R)
    requires
        s.len() > 0,
        seq_wf(s),
        x.wf(),
    ensures
        poly_eval(s, x) == R::add_spec(R::mul_spec(poly_eval(s.drop_first(), x), x), s[0]),
{
    R::lemma_wf_params(x);
    R::lemma_identities_wf();
    let n = s.len();
    let t = s.drop_first();
    let f = |i: int| R::mul_spec(s[i], pow_spec(x, i as nat));
    let g = |i: int| R::mul_spec(t[i], pow_spec(x, i as nat));
    assert(fn_wf(f, 1 + (n - 1) as nat)) by {
        assert forall|i: int| 0 <= i < n implies (#[trigger] f(i)).wf() by {
            lemma_pow_wf(x, i as nat);
            R::lemma_closed(s[i], pow_spec(x, i as nat));
        }
    }
    assert(fn_wf(g, (n - 1) as nat)) by {
        assert forall|i: int| 0 <= i < n - 1 implies (#[trigger] g(i)).wf() by {
            lemma_pow_wf(x, i as nat);
            R::lemma_closed(t[i], pow_spec(x, i as nat));
        }
    }
    lemma_rsum_split(f, 1, (n - 1) as nat);
    assert(1 + (n - 1) as nat == n);
    // the constant term
    R::lemma_mul_laws(s[0], R::one_spec(), R::one_spec());
    lemma_add_zero_left(s[0]);
    assert(rsum(f, 1) == R::add_spec(rsum(f, 0), f(0)));
    // every other term is `x` times a term of the shifted polynomial
    assert forall|i: int| 0 <= i < n - 1 implies #[trigger] f(i + 1) == R::mul_spec(x, g(i)) by {
        lemma_pow_wf(x, i as nat);
        assert(pow_spec(x, (i + 1) as nat) == R::mul_spec(pow_spec(x, i as nat), x));
        R::lemma_mul_laws(t[i], pow_spec(x, i as nat), x);
        R::lemma_closed(t[i], pow_spec(x, i as nat));
        R::lemma_mul_laws(g(i), x, x);
    }
    crate::arith::dft::lemma_rsum_ext(|i: int| f(i + 1), |i: int| R::mul_spec(x, g(i)), (n - 1) as nat);
    lemma_rsum_scale(x, g, (n - 1) as nat);
    lemma_rsum_wf(g, (n - 1) as nat);
    R::lemma_closed(x, rsum(g, (n - 1) as nat));
    R::lemma_mul_laws(x, rsum(g, (n - 1) as nat), x);
    R::lemma_add_laws(s[0], R::mul_spec(x, rsum(g, (n - 1) as nat)), s[0]);
}

/// `Z_q[X] / (X^N + 1)` for power-of-two `N`.
#[derive(Clone, Debug, PartialEq, Eq)]
pub struct CyclotomicPolyRing<R: IntegerRing + CanonicalSerialize + CanonicalDeserialize, const N: usize> {
    coeffs: [R; N],
}

impl<R: IntegerRing + CanonicalSerialize + CanonicalDeserialize, const N: usize> View for CyclotomicPolyRing<R, N> {
    type V = Seq<R>;

    /// The coefficients, constant term first.
    closed spec fn view(&self) -> Seq<R> {
        self.coeffs@
    }
}

impl<R: IntegerRing + CanonicalSerialize + CanonicalDeserialize, const N: usize> CyclotomicPolyRing<R, N> {
    /// Create from a trusted coefficient array; `N` must be a non-zero power of two.
    pub fn from_array(coeffs: [R; N]) -> (r: Self)
        requires
            is_pow2(N as nat),
        ensures
            r@ == coeffs@,
    {
        Self { coeffs }
    }

    /// A polynomial has `N` coefficients.
    pub proof fn lemma_len(&self)
        ensures
            self@.len() == N,
    {
    }

    /// Borrow the underlying coefficient array.
    pub(crate) fn coeff_array(&self) -> (r: &[R; N])
        ensures
            r@ == self@,
    {
        &self.coeffs
    }

    /// Multiply every coefficient by a scalar.
    pub fn scalar_mul(&self, s: &R) -> (r: Self)
        requires
            seq_wf(self@),
            s.wf(),
        ensures
            r@.len() == N,
            forall|i: int| 0 <= i < N ==> #[trigger] r@[i] == R::mul_spec(self@[i], *s),
            seq_wf(r@),
    {
        let mut coeffs = self.coeffs;
        ring_scalar_mul_slice(&mut coeffs, s);
        Self { coeffs }
    }

    /// Multiply every coefficient by a scalar.
    pub fn scalar_mul_assign(&mut self, s: &R)
        requires
            seq_wf(old(self)@),
            s.wf(),
        ensures
            final(self)@.len() == N,
            forall|i: int| 0 <= i < N ==> #[trigger] final(self)@[i] == R::mul_spec(old(self)@[i], *s),
            seq_wf(final(self)@),
    {
        ring_scalar_mul_slice(&mut self.coeffs, s);
    }

    /// Evaluate the polynomial at `x` using Horner's rule.
    pub fn evaluate(&self, x: &R) -> (r: R)
        requires
            seq_wf(self@),
            x.wf(),
        ensures
            r == poly_eval(self@, *x),
            r.wf(),
    {
        proof {
            R::lemma_wf_params(*x);
            R::lemma_identities_wf();
        }
        let mut acc = R::zero();
        let mut t: usize = N;
        proof {
            assert(self@.subrange(N as int, N as int) =~= Seq::<R>::empty());
        }
        while t > 0
            invariant
                t <= N,
                self@.len() == N,
                seq_wf(self@),
                x.wf(),
                acc.wf(),
                acc == poly_eval(self@.subrange(t as int, N as int), *x),
            decreases t,
        {
            let ghost tail = self@.subrange(t as int, N as int);
            t = t - 1;
            proof {
                let full = self@.subrange(t as int, N as int);
                assert(full.drop_first() =~= tail);
                lemma_poly_eval_step(full, *x);
            }
            acc = R::mul_ref(&acc, x);
            acc = R::add_ref(&acc, &self.coeffs[t]);
        }
        proof {
            assert(self@.subrange(0, N as int) =~= self@);
        }
        acc
    }
}

impl<R: NegacyclicMulRing<N>, const N: usize> CyclotomicPolyRing<R, N> {
    /// Naive negacyclic convolution in `Z_q[X] / (X^N + 1)`.
    pub fn neg_cyclic_mul(a: &Self, b: &Self) -> (r: Self)
        requires
            R::params_ok(),
            seq_wf(a@),
            seq_wf(b@),
        ensures
            r@ == negacyclic_spec(a@, b@),
            seq_wf(r@),
    {
        Self { coeffs: naive_negacyclic_mul_coeffs(&a.coeffs, &b.coeffs) }
    }

    /// Coefficient-wise sum.
    pub fn add_ref(a: &Self, b: &Self) -> (r: Self)
        requires
            seq_wf(a@),
            seq_wf(b@),
        ensures
            r@.len() == N,
            forall|i: int| 0 <= i < N ==> #[trigger] r@[i] == R::add_spec(a@[i], b@[i]),
            seq_wf(r@),
    {
        let mut coeffs = a.coeffs;
        ring_add_assign_slice(&mut coeffs, &b.coeffs);
        Self { coeffs }
    }

    /// Coefficient-wise difference.
    pub fn sub_ref(a: &Self, b: &Self) -> (r: Self)
        requires
            seq_wf(a@),
            seq_wf(b@),
        ensures
            r@.len() == N,
            forall|i: int| 0 <= i < N ==> #[trigger] r@[i] == R::sub_spec(a@[i], b@[i]),
            seq_wf(r@),
    {
        let mut coeffs = a.coeffs;
        ring_sub_assign_slice(&mut coeffs, &b.coeffs);
        Self { coeffs }
    }

    /// The product modulo `X^N + 1`.
    pub fn mul_ref(a: &Self, b: &Self) -> (r: Self)
        requires
            R::params_ok(),
            seq_wf(a@),
            seq_wf(b@),
        ensures
            r@ == negacyclic_spec(a@, b@),
            seq_wf(r@),
    {
        Self { coeffs: R::negacyclic_mul_coeffs(&a.coeffs, &b.coeffs) }
    }

    /// Coefficient-wise negation.
    pub fn neg_ref(a: &Self) -> (r: Self)
        requires
            seq_wf(a@),
        ensures
            r@.len() == N,
            forall|i: int| 0 <= i < N ==> #[trigger] r@[i] == R::neg_spec(a@[i]),
            seq_wf(r@),
    {
        let mut coeffs = a.coeffs;
        let mut i: usize = 0;
        while i < N
            invariant
                coeffs@.len() == N,
                a@.len() == N,
                i <= N,
                seq_wf(a@),
                forall|j: int| 0 <= j < i ==> #[trigger] coeffs@[j] == R::neg_spec(a@[j]),
                forall|j: int| i <= j < N ==> #[trigger] coeffs@[j] == a@[j],
                seq_wf(coeffs@),
            decreases N - i,
        {
            let v = R::neg_ref(&coeffs[i]);
            coeffs[i] = v;
            i = i + 1;
        }
        Self { coeffs }
    }

    /// The zero polynomial.
    pub fn zero() -> (r: Self)
        requires
            R::params_ok(),
            is_pow2(N as nat),
        ensures
            r@.len() == N,
            forall|i: int| 0 <= i < N ==> #[trigger] r@[i] == R::zero_spec(),
            seq_wf(r@),
    {
        proof {
            R::lemma_identities_wf();
        }
        Self { coeffs: [R::zero(); N] }
    }

    /// The constant polynomial `1`.
    pub fn one() -> (r: Self)
        requires
            R::params_ok(),
            is_pow2(N as nat),
        ensures
            r@.len() == N,
            r@[0] == R::one_spec(),
            forall|i: int| 0 < i < N ==> #[trigger] r@[i] == R::zero_spec(),
            seq_wf(r@),
    {
        proof {
            R::lemma_identities_wf();
        }
        let mut coeffs = [R::zero(); N];
        coeffs[0] = R::one();
        Self { coeffs }
    }
}

/// A polynomial ring `R_q = Z_q[X] / f(X)`, seen through its coefficients.
pub trait PolyRing: Sized + CanonicalSerialize + CanonicalDeserialize {
    /// The coefficient ring.
    type Coeff: IntegerRing + CanonicalSerialize + CanonicalDeserialize;

    /// The coefficients, constant term first.
    spec fn coeffs_spec(&self) -> Seq<Self::Coeff>;

    /// The degree `n` of the quotient polynomial.
    spec fn degree_spec() -> nat;

    /// The degree is one the ring supports (for `X^n + 1`, a power of two).
    spec fn degree_valid() -> bool;

    /// The degree `n` of the quotient polynomial.
    fn degree() -> (r: usize)
        ensures
            r == Self::degree_spec(),
    ;

    /// Get the coefficient at index `i`.
    fn coeff(&self, i: usize) -> (r: Self::Coeff)
        requires
            i < self.coeffs_spec().len(),
        ensures
            r == self.coeffs_spec()[i as int],
    ;

    /// Set the coefficient at index `i`.
    fn set_coeff(&mut self, i: usize, val: Self::Coeff)
        requires
            i < old(self).coeffs_spec().len(),
        ensures
            final(self).coeffs_spec() == old(self).coeffs_spec().update(i as int, val),
    ;

    /// Create from a coefficient slice of length `n`.
    fn try_from_coeffs(coeffs: &[Self::Coeff]) -> (r: Result<Self, PolyError>)
        ensures
            r is Ok <==> (Self::degree_valid() && coeffs@.len() == Self::degree_spec()),
            r matches Ok(p) ==> p.coeffs_spec() == coeffs@,
    ;

    /// Borrow the coefficient slice.
    fn coeffs(&self) -> (r: &[Self::Coeff])
        ensures
            r@ == self.coeffs_spec(),
    ;

    /// Borrow the coefficient slice mutably.
    fn coeffs_mut(&mut self) -> (r: &mut [Self::Coeff])
        ensures
            r@ == old(self).coeffs_spec(),
            final(r)@ == final(self).coeffs_spec(),
    ;
}

impl<R: NegacyclicMulRing<N>, const N: usize> PolyRing for CyclotomicPolyRing<R, N> {
    type Coeff = R;

    open spec fn coeffs_spec(&self) -> Seq<R> {
        self@
    }

    open spec fn degree_spec() -> nat {
        N as nat
    }

    open spec fn degree_valid() -> bool {
        is_pow2(N as nat)
    }

    fn degree() -> (r: usize) {
        N
    }

    fn coeff(&self, i: usize) -> (r: R) {
        self.coeffs[i]
    }

    fn set_coeff(&mut self, i: usize, val: R) {
        self.coeffs[i] = val;
    }

    /// Fails with `InvalidDegree` when `N` is not a non-zero power of two, else with
    /// `WrongCoeffCount` when the slice does not hold `N` coefficients.
    fn try_from_coeffs(coeffs: &[R]) -> (r: Result<Self, PolyError>)
        ensures
            r is Ok <==> (is_pow2(N as nat) && coeffs@.len() == N),
            !is_pow2(N as nat) ==> r == Err::<Self, PolyError>(PolyError::InvalidDegree { degree: N }),
            is_pow2(N as nat) && coeffs@.len() != N ==> r == Err::<Self, PolyError>(
                PolyError::WrongCoeffCount { expected: N, got: coeffs@.len() as usize },
            ),
            r matches Ok(p) ==> p@ == coeffs@,
    {
        if !is_valid_degree(N) {
            return Err(PolyError::InvalidDegree { degree: N });
        }
        if coeffs.len() != N {
            return Err(PolyError::WrongCoeffCount { expected: N, got: coeffs.len() });
        }
        if N == 0 {
            return Err(PolyError::InvalidDegree { degree: N });
        }
        let mut out = [coeffs[0]; N];
        let mut k: usize = 0;
        while k < N
            invariant
                coeffs@.len() == N,
                out@.len() == N,
                k <= N,
                forall|t: int| 0 <= t < k ==> #[trigger] out@[t] == coeffs@[t],
            decreases N - k,
        {
            out[k] = coeffs[k];
            k = k + 1;
        }
        proof {
            assert(out@ =~= coeffs@);
        }
        Ok(Self { coeffs: out })
    }

    fn coeffs(&self) -> (r: &[R]) {
        self.coeffs.as_slice()
    }

    fn coeffs_mut(&mut self) -> (r: &mut [R]) {
        &mut self.coeffs
    }
}

impl<R: NegacyclicMulRing<N>, const N: usize> core::ops::Add for CyclotomicPolyRing<R, N> {
    type Output = Self;

    fn add(self, rhs: Self) -> (r: Self)
        ensures
            r@.len() == N,
            forall|i: int| 0 <= i < N ==> #[trigger] r@[i] == R::add_spec(self@[i], rhs@[i]),
            seq_wf(r@),
    {
        Self::add_ref(&self, &rhs)
    }
}

impl<R: NegacyclicMulRing<N>, const N: usize> vstd::std_specs::ops::AddSpecImpl for CyclotomicPolyRing<R, N> {
    open spec fn obeys_add_spec() -> bool {
        false
    }

    open spec fn add_req(self, rhs: Self) -> bool {
        seq_wf(self@) && seq_wf(rhs@)
    }

    open spec fn add_spec(self, rhs: Self) -> Self {
        arbitrary()
    }
}

impl<R: NegacyclicMulRing<N>, const N: usize> core::ops::Sub for CyclotomicPolyRing<R, N> {
    type Output = Self;

    fn sub(self, rhs: Self) -> (r: Self)
        ensures
            r@.len() == N,
            forall|i: int| 0 <= i < N ==> #[trigger] r@[i] == R::sub_spec(self@[i], rhs@[i]),
            seq_wf(r@),
    {
        Self::sub_ref(&self, &rhs)
    }
}

impl<R: NegacyclicMulRing<N>, const N: usize> vstd::std_specs::ops::SubSpecImpl for CyclotomicPolyRing<R, N> {
    open spec fn obeys_sub_spec() -> bool {
        false
    }

    open spec fn sub_req(self, rhs: Self) -> bool {
        seq_wf(self@) && seq_wf(rhs@)
    }

    open spec fn sub_spec(self, rhs: Self) -> Self {
        arbitrary()
    }
}

impl<R: NegacyclicMulRing<N>, const N: usize> core::ops::Mul for CyclotomicPolyRing<R, N> {
    type Output = Self;

    fn mul(self, rhs: Self) -> (r: Self)
        ensures
            r@ == negacyclic_spec(self@, rhs@),
            seq_wf(r@),
    {
        Self::mul_ref(&self, &rhs)
    }
}

impl<R: NegacyclicMulRing<N>, const N: usize> vstd::std_specs::ops::MulSpecImpl for CyclotomicPolyRing<R, N> {
    open spec fn obeys_mul_spec() -> bool {
        false
    }

    open spec fn mul_req(self, rhs: Self) -> bool {
        R::params_ok() && seq_wf(self@) && seq_wf(rhs@)
    }

    open spec fn mul_spec(self, rhs: Self) -> Self {
        arbitrary()
    }
}

impl<R: NegacyclicMulRing<N>, const N: usize> core::ops::Neg for CyclotomicPolyRing<R, N> {
    type Output = Self;

    fn neg(self) -> (r: Self)
        ensures
            r@.len() == N,
            forall|i: int| 0 <= i < N ==> #[trigger] r@[i] == R::neg_spec(self@[i]),
            seq_wf(r@),
    {
        Self::neg_ref(&self)
    }
}

impl<R: NegacyclicMulRing<N>, const N: usize> vstd::std_specs::ops::NegSpecImpl for CyclotomicPolyRing<R, N> {
    open spec fn obeys_neg_spec() -> bool {
        false
    }

    open spec fn neg_req(self) -> bool {
        seq_wf(self@)
    }

    open spec fn neg_spec(self) -> Self {
        arbitrary()
    }
}

impl<R: IntegerRing + CanonicalSerialize + CanonicalDeserialize, const N: usize> CanonicalSerialize for CyclotomicPolyRing<R, N> {
    /// The coefficients' encodings, constant term first.
    open spec fn encoding(&self) -> Seq<u8> {
        concat_encodings(self@)
    }

    open spec fn can_encode(&self) -> bool {
        &&& all_can_encode(self@)
        &&& concat_encodings(self@).len() <= usize::MAX
    }

    fn serialized_size(&self) -> (r: usize) {
        encoded_size(self.coeffs.as_slice(), 0)
    }

    fn serialize_into(&self, buf: &mut Vec<u8>) -> (r: Result<(), SerializationError>) {
        serialize_entries(self.coeffs.as_slice(), buf);
        Ok(())
    }
}

impl<R: IntegerRing + CanonicalSerialize + CanonicalDeserialize, const N: usize> CanonicalDeserialize for CyclotomicPolyRing<R, N> {
    /// `N` consecutive coefficients.
    open spec fn decodes(data: Seq<u8>, v: Self, n: nat) -> bool {
        &&& n <= usize::MAX
        &&& decodes_seq(data, v@, n)
    }

    open spec fn is_short(data: Seq<u8>) -> bool {
        short_seq::<R>(data, N as nat)
    }

    open spec fn decode_ready() -> bool {
        R::decode_ready() && R::params_ok()
    }

    proof fn lemma_decodes_unique(data: Seq<u8>, v1: Self, n1: nat, v2: Self, n2: nat) {
        lemma_seq_offset_unique(data, v1@, n1, v2@, n2);
    }

    proof fn lemma_decodes_not_short(data: Seq<u8>, v: Self, n: nat) {
        lemma_seq_not_short(data, v@, n);
    }

    proof fn lemma_decodes_prefix(data: Seq<u8>, v: Self, n: nat, rest: Seq<u8>) {
        lemma_seq_prefix(data, v@, n, rest);
    }

    proof fn lemma_round_trip(v: Self, rest: Seq<u8>) {
        lemma_seq_round_trip(v@, rest);
    }

    fn deserialize(data: &[u8]) -> (r: Result<(Self, usize), SerializationError>) {
        proof {
            assert(data@.skip(0) =~= data@);
        }
        let (entries, consumed) = match deserialize_entries::<R>(data, 0, N) {
            Ok(x) => x,
            Err(e) => {
                proof {
                    assert(data@.skip(0) == data@);
                    assert((e is UnexpectedEnd) == short_seq::<R>(data@, N as nat));
                    assert(Self::is_short(data@) == short_seq::<R>(data@, N as nat));
                }
                return Err(e);
            },
        };
        proof {
            R::lemma_identities_wf();
            crate::serialize::lemma_seq_prefix(data@, entries@, consumed as nat, Seq::empty());
        }
        let mut out = [R::zero(); N];
        let mut k: usize = 0;
        while k < N
            invariant
                entries@.len() == N,
                out@.len() == N,
                k <= N,
                forall|t: int| 0 <= t < k ==> #[trigger] out@[t] == entries@[t],
            decreases N - k,
        {
            out[k] = entries[k];
            k = k + 1;
        }
        proof {
            assert(out@ =~= entries@);
        }
        Ok((Self { coeffs: out }, consumed))
    }
}

/// Multiply two cyclotomic polynomials using NTT when the coefficient ring supports it.
pub fn mul_with_ntt<R: NTTRing + IntegerRing + CanonicalSerialize + CanonicalDeserialize, const N: usize>(
    a: &CyclotomicPolyRing<R, N>,
    b: &CyclotomicPolyRing<R, N>,
) -> (r: Result<CyclotomicPolyRing<R, N>, NttError>)
    requires
        R::params_ok(),
        seq_wf(a@),
        seq_wf(b@),
    ensures
        match r {
            Ok(p) => p@ == negacyclic_spec(a@, b@),
            Err(e) => e == crate::poly::ntt::twisted_error::<R>(N as nat),
        },
        r is Ok <==> crate::poly::ntt::twisted_supported::<R>(N as nat),
{
    let coeffs = match poly_mul_ntt(a.coeffs.as_slice(), b.coeffs.as_slice()) {
        Ok(c) => c,
        Err(e) => return Err(e),
    };
    proof {
        R::lemma_identities_wf();
    }
    let mut out = [R::zero(); N];
    let mut k: usize = 0;
    while k < N
        invariant
            coeffs@.len() == N,
            out@.len() == N,
            k <= N,
            forall|t: int| 0 <= t < k ==> #[trigger] out@[t] == coeffs@[t],
        decreases N - k,
    {
        out[k] = coeffs[k];
        k = k + 1;
    }
    proof {
        assert(out@ =~= coeffs@);
    }
    Ok(CyclotomicPolyRing { coeffs: out })
}

} // verus!
