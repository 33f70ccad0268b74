//! Number Theoretic Transform helpers for polynomial rings.
//!
//! Besides the plain transforms, this module provides the twisted (negacyclic) NTT:
//! multiplying coefficient `i` by `psi^i` for a primitive `2n`-th root `psi` before a
//! plain NTT of length `n` turns cyclic convolution into multiplication modulo
//! `X^n + 1`.
use crate::arith::ntt::{
    NTTRing, NttError, NttPlan, forward_outcome, inverse_outcome, is_pow2, is_ring_plan,
    lemma_fwd_upto_wf, lemma_inverse_unique, lemma_ntt_round_trip, lemma_plans_agree, log2,
    ntt_supported, plan_error, powers_seq,
};
use crate::arith::dft::{
    cyclic_conv, fn_wf, lemma_dft_convolution, lemma_forward_is_dft, lemma_mul_swap_middle,
    lemma_rsum_ext, lemma_rsum_scale, lemma_rsum_wf, rsum,
};
use crate::arith::ring::{
    Ring, lemma_pow_adds, lemma_pow_wf, pow_spec, ring_pointwise_mul_assign_slice, seq_wf,
};
use std::sync::Arc;
use vstd::prelude::*;

verus! {

/// A copy of `s` in a new vector.
fn slice_to_vec<R: Copy>(s: &[R]) -> (v: Vec<R>)
    ensures
        v@ == s@,
{
    let mut v: Vec<R> = Vec::new();
    let mut i: usize = 0;
    while i < s.len()
        invariant
            i <= s@.len(),
            v@ == s@.subrange(0, i as int),
        decreases s@.len() - i,
    {
        v.push(s[i]);
        i = i + 1;
    }
    proof {
        assert(v@ =~= s@);
    }
    v
}

/// `a[i] * b[i]` for every index of `a`.
pub open spec fn pointwise<R: Ring>(a: Seq<R>, b: Seq<R>) -> Seq<R> {
    Seq::new(a.len(), |i: int| R::mul_spec(a[i], b[i]))
}

/// Reusable stage data for a twisted negacyclic NTT of a fixed size over a fixed coefficient ring.
pub struct TwistedNttPlan<R: Ring> {
    len: usize,
    twists: Vec<R>,
    untwists: Vec<R>,
    ntt_plan: Arc<NttPlan<R>>,
    psi: Ghost<R>,
    inv_psi: Ghost<R>,
}

impl<R: Ring> TwistedNttPlan<R> {
    /// The transform length.
    pub closed spec fn plan_len(&self) -> nat {
        self.len as nat
    }

    /// The plain NTT plan the twisted transform runs.
    pub closed spec fn base_plan(&self) -> NttPlan<R> {
        *self.ntt_plan
    }

    /// The twist factors `psi^i`.
    pub closed spec fn twists_spec(&self) -> Seq<R> {
        self.twists@
    }

    /// The untwist factors `psi^{-i}`.
    pub closed spec fn untwists_spec(&self) -> Seq<R> {
        self.untwists@
    }

    /// The primitive `2len`-th root of unity `psi` the twists are powers of.
    pub closed spec fn psi(&self) -> R {
        self.psi@
    }

    /// The twists are the powers of `psi`, the untwists those of `psi^{-1}`,
    /// `psi^len = -1`, and the plain plan has the same length.
    pub closed spec fn wf(&self) -> bool {
        &&& self.ntt_plan.wf()
        &&& self.ntt_plan.plan_len() == self.len
        &&& self.psi@.wf()
        &&& self.inv_psi@.wf()
        &&& R::mul_spec(self.psi@, self.inv_psi@) == R::one_spec()
        &&& pow_spec(self.psi@, self.len as nat) == R::neg_spec(R::one_spec())
        &&& self.twists@ == powers_seq(self.psi@, self.len as nat)
        &&& self.untwists@ == powers_seq(self.inv_psi@, self.len as nat)
    }

    /// Twist, then the plain forward NTT.
    pub open spec fn forward_spec(&self, x: Seq<R>) -> Seq<R> {
        self.base_plan().forward_spec(pointwise(x, self.twists_spec()))
    }

    /// The plain inverse NTT, then untwist.
    pub open spec fn inverse_spec(&self, y: Seq<R>) -> Seq<R> {
        pointwise(self.base_plan().inverse_spec(y), self.untwists_spec())
    }

    /// Facts that callers of the transforms need.
    pub(crate) proof fn lemma_wf_facts(&self)
        requires
            self.wf(),
        ensures
            self.base_plan().wf(),
            self.base_plan().plan_len() == self.plan_len(),
            self.twists_spec().len() == self.plan_len(),
            self.untwists_spec().len() == self.plan_len(),
            seq_wf(self.twists_spec()),
            seq_wf(self.untwists_spec()),
    {
        assert forall|i: int| 0 <= i < self.len implies (#[trigger] self.twists@[i]).wf() by {
            crate::arith::ring::lemma_pow_wf(self.psi@, i as nat);
        }
        assert forall|i: int| 0 <= i < self.len implies (#[trigger] self.untwists@[i]).wf() by {
            crate::arith::ring::lemma_pow_wf(self.inv_psi@, i as nat);
        }
    }

    /// Returns the transform length this plan was built for.
    pub fn len(&self) -> (r: usize)
        ensures
            r == self.plan_len(),
    {
        self.len
    }

    /// Returns `true` when this plan was built for an empty transform.
    pub fn is_empty(&self) -> (b: bool)
        ensures
            b == (self.plan_len() == 0),
    {
        self.len == 0
    }

    fn validate_len(&self, len: usize) -> (r: Result<(), NttError>)
        ensures
            r == (if self.plan_len() == len {
                Ok(())
            } else {
                Err(NttError::LengthMismatch { left: self.plan_len() as usize, right: len })
            }),
    {
        if self.len != len {
            return Err(NttError::LengthMismatch { left: self.len, right: len });
        }
        Ok(())
    }
}

impl<R: NTTRing> TwistedNttPlan<R> {
    /// Transform coefficient-domain values into the twisted evaluation domain in place.
    pub fn forward_in_place(&self, coeffs: &mut [R]) -> (r: Result<(), NttError>)
        requires
            self.wf(),
            seq_wf(old(coeffs)@),
        ensures
            r == (if old(coeffs)@.len() == self.plan_len() {
                Ok(())
            } else {
                Err(NttError::LengthMismatch { left: self.plan_len() as usize, right: old(coeffs)@.len() as usize })
            }),
            r is Ok ==> final(coeffs)@ == self.forward_spec(old(coeffs)@),
            r is Err ==> final(coeffs)@ == old(coeffs)@,
            final(coeffs)@.len() == old(coeffs)@.len(),
            seq_wf(final(coeffs)@),
    {
        match self.validate_len(coeffs.len()) {
            Err(e) => return Err(e),
            Ok(_) => {},
        }
        self.forward_in_place_trusted(coeffs);
        Ok(())
    }

    /// Transform twisted-domain values back into the coefficient domain in place.
    pub fn inverse_in_place(&self, evals: &mut [R]) -> (r: Result<(), NttError>)
        requires
            self.wf(),
            seq_wf(old(evals)@),
        ensures
            r == (if old(evals)@.len() == self.plan_len() {
                Ok(())
            } else {
                Err(NttError::LengthMismatch { left: self.plan_len() as usize, right: old(evals)@.len() as usize })
            }),
            r is Ok ==> final(evals)@ == self.inverse_spec(old(evals)@),
            r is Err ==> final(evals)@ == old(evals)@,
            final(evals)@.len() == old(evals)@.len(),
            seq_wf(final(evals)@),
    {
        match self.validate_len(evals.len()) {
            Err(e) => return Err(e),
            Ok(_) => {},
        }
        self.inverse_in_place_trusted(evals);
        Ok(())
    }

    /// The forward twisted transform of values whose length is known to match the plan.
    pub fn forward_in_place_trusted(&self, coeffs: &mut [R])
        requires
            self.wf(),
            seq_wf(old(coeffs)@),
            old(coeffs)@.len() == self.plan_len(),
        ensures
            final(coeffs)@ == self.forward_spec(old(coeffs)@),
            final(coeffs)@.len() == old(coeffs)@.len(),
            seq_wf(final(coeffs)@),
    {
        let ghost x = coeffs@;
        proof {
            self.lemma_wf_facts();
        }
        ring_pointwise_mul_assign_slice(coeffs, self.twists.as_slice());
        proof {
            assert(coeffs@ =~= pointwise(x, self.twists_spec()));
        }
        let r = R::ntt_forward_with_plan(coeffs, &*self.ntt_plan);
        proof {
            assert(r is Ok);
        }
    }

    /// The inverse twisted transform of values whose length is known to match the plan.
    pub fn inverse_in_place_trusted(&self, evals: &mut [R])
        requires
            self.wf(),
            seq_wf(old(evals)@),
            old(evals)@.len() == self.plan_len(),
        ensures
            final(evals)@ == self.inverse_spec(old(evals)@),
            final(evals)@.len() == old(evals)@.len(),
            seq_wf(final(evals)@),
    {
        proof {
            self.lemma_wf_facts();
        }
        let r = R::ntt_inverse_with_plan(evals, &*self.ntt_plan);
        proof {
            assert(r is Ok);
        }
        let ghost y = evals@;
        ring_pointwise_mul_assign_slice(evals, self.untwists.as_slice());
        proof {
            assert(evals@ =~= pointwise(y, self.untwists_spec()));
        }
    }

    /// Multiply two coefficient-domain polynomials modulo `X^n + 1` in place.
    ///
    /// On success, `lhs` is overwritten with the negacyclic product while `rhs` is used as
    /// temporary workspace.
    pub fn multiply_in_place(&self, lhs: &mut [R], rhs: &mut [R]) -> (r: Result<(), NttError>)
        requires
            self.wf(),
            seq_wf(old(lhs)@),
            seq_wf(old(rhs)@),
        ensures
            r == multiply_result(self.plan_len(), old(lhs)@.len(), old(rhs)@.len()),
            r is Ok ==> final(lhs)@ == self.inverse_spec(
                pointwise(self.forward_spec(old(lhs)@), self.forward_spec(old(rhs)@)),
            ),
            r is Ok ==> final(lhs)@ == negacyclic_spec(old(lhs)@, old(rhs)@),
            r is Ok ==> final(rhs)@ == self.forward_spec(old(rhs)@),
            r is Err ==> final(lhs)@ == old(lhs)@ && final(rhs)@ == old(rhs)@,
            final(lhs)@.len() == old(lhs)@.len(),
            seq_wf(final(lhs)@),
            final(rhs)@.len() == old(rhs)@.len(),
            seq_wf(final(rhs)@),
    {
        if lhs.len() != rhs.len() {
            return Err(NttError::LengthMismatch { left: lhs.len(), right: rhs.len() });
        }
        match self.validate_len(lhs.len()) {
            Err(e) => return Err(e),
            Ok(_) => {},
        }
        let r1 = self.forward_in_place(lhs);
        let r2 = self.forward_in_place(rhs);
        proof {
            assert(r1 is Ok && r2 is Ok);
        }
        let ghost a = lhs@;
        ring_pointwise_mul_assign_slice(lhs, rhs);
        proof {
            assert(lhs@ =~= pointwise(a, rhs@));
            lemma_negacyclic_product(self, old(lhs)@, old(rhs)@);
        }
        self.inverse_in_place(lhs)
    }
}

/// The error of a multiplication: mismatched operands first, then a plan of another length.
pub open spec fn multiply_result(plan_len: nat, lhs_len: nat, rhs_len: nat) -> Result<(), NttError> {
    if lhs_len != rhs_len {
        Err(NttError::LengthMismatch { left: lhs_len as usize, right: rhs_len as usize })
    } else if plan_len != lhs_len {
        Err(NttError::LengthMismatch { left: plan_len as usize, right: lhs_len as usize })
    } else {
        Ok(())
    }
}

/// The product of `a` and `b` modulo `X^n + 1`, `n` their common length: entry `k` is
/// `sum_{i <= k} a[i] * b[k - i] - sum_{i > k} a[i] * b[n + k - i]`.
pub open spec fn negacyclic_spec<R: Ring>(a: Seq<R>, b: Seq<R>) -> Seq<R> {
    Seq::new(a.len(), |k: int| rsum(negacyclic_terms(a, b, k), a.len()))
}

/// The signed terms of entry `k` of the product modulo `X^n + 1`.
pub open spec fn negacyclic_terms<R: Ring>(a: Seq<R>, b: Seq<R>, k: int) -> spec_fn(int) -> R {
    |i: int|
        if i <= k {
            R::mul_spec(a[i], b[k - i])
        } else {
            R::neg_spec(R::mul_spec(a[i], b[a.len() + k - i]))
        }
}

/// One term of the untwisted cyclic convolution of the twisted inputs:
/// `((a * psi^i) * (b * psi^j)) * psi^(-k)` with `i + j = k` or `i + j = k + n`.
proof fn lemma_untwist_term<R: Ring>(x: R, y: R, psi: R, inv_psi: R, i: nat, j: nat, k: nat, n: nat)
    requires
        x.wf(),
        y.wf(),
        psi.wf(),
        inv_psi.wf(),
        R::mul_spec(psi, inv_psi) == R::one_spec(),
        pow_spec(psi, n) == R::neg_spec(R::one_spec()),
        i + j == k || i + j == k + n,
    ensures
        R::mul_spec(
            R::mul_spec(R::mul_spec(x, pow_spec(psi, i)), R::mul_spec(y, pow_spec(psi, j))),
            pow_spec(inv_psi, k),
        ) == (if i + j == k {
            R::mul_spec(x, y)
        } else {
            R::neg_spec(R::mul_spec(x, y))
        }),
{
    R::lemma_wf_params(psi);
    R::lemma_identities_wf();
    lemma_pow_wf(psi, i);
    lemma_pow_wf(psi, j);
    lemma_pow_wf(psi, k);
    lemma_pow_wf(inv_psi, k);
    let pi = pow_spec(psi, i);
    let pj = pow_spec(psi, j);
    let pk = pow_spec(psi, k);
    let ik = pow_spec(inv_psi, k);
    let xy = R::mul_spec(x, y);
    R::lemma_closed(x, y);
    lemma_mul_swap_middle(x, pi, y, pj);
    lemma_pow_adds(psi, i, j);
    lemma_pow_wf(psi, i + j);
    let pij = pow_spec(psi, i + j);
    R::lemma_mul_laws(xy, pij, ik);
    // psi^k * psi^(-k) = (psi * psi^(-1))^k = 1
    crate::arith::ring::lemma_pow_mul_distributes(psi, inv_psi, k);
    lemma_pow_one_twist::<R>(k);
    let neg1 = R::neg_spec(R::one_spec());
    R::lemma_closed(R::one_spec(), R::one_spec());
    if i + j == k {
        R::lemma_mul_laws(xy, R::one_spec(), R::one_spec());
    } else {
        lemma_pow_adds(psi, k, n);
        R::lemma_mul_laws(pk, neg1, ik);
        R::lemma_mul_laws(neg1, ik, ik);
        R::lemma_mul_laws(pk, ik, neg1);
        R::lemma_closed(pk, ik);
        R::lemma_mul_laws(R::one_spec(), neg1, neg1);
        R::lemma_mul_laws(neg1, R::one_spec(), R::one_spec());
        crate::arith::ntt::lemma_mul_neg(xy, R::one_spec());
        R::lemma_mul_laws(xy, R::one_spec(), R::one_spec());
    }
}

/// Multiplying through a twisted plan is multiplication modulo `X^n + 1`: for valid
/// `a` and `b` of the plan's length, the inverse transform of the pointwise product of
/// the forward transforms is the negacyclic product of `a` and `b`.
pub proof fn lemma_negacyclic_product<R: Ring>(plan: &TwistedNttPlan<R>, a: Seq<R>, b: Seq<R>)
    requires
        plan.wf(),
        a.len() == plan.plan_len(),
        b.len() == plan.plan_len(),
        seq_wf(a),
        seq_wf(b),
    ensures
        plan.inverse_spec(pointwise(plan.forward_spec(a), plan.forward_spec(b))) == negacyclic_spec(a, b),
{
    plan.lemma_wf_facts();
    let base = plan.base_plan();
    base.lemma_forward_facts();
    let n = plan.plan_len();
    let ni = n as int;
    let w = base.root();
    let t = plan.twists_spec();
    let u = plan.untwists_spec();
    let psi = plan.psi@;
    let inv_psi = plan.inv_psi@;
    R::lemma_wf_params(psi);
    R::lemma_identities_wf();
    let ta = pointwise(a, t);
    let tb = pointwise(b, t);
    assert forall|i: int| 0 <= i < n implies (#[trigger] ta[i]).wf() by {
        R::lemma_closed(a[i], t[i]);
    }
    assert forall|i: int| 0 <= i < n implies (#[trigger] tb[i]).wf() by {
        R::lemma_closed(b[i], t[i]);
    }
    let c = cyclic_conv(ta, tb);
    assert forall|m: int| 0 <= m < n implies (#[trigger] c[m]).wf() by {
        let f = |i: int| R::mul_spec(ta[i], tb[(m - i) % ni]);
        assert(fn_wf(f, n)) by {
            assert forall|i: int| 0 <= i < n implies (#[trigger] f(i)).wf() by {
                assert(0 <= (m - i) % ni < ni);
                R::lemma_closed(ta[i], tb[(m - i) % ni]);
            }
        }
        lemma_rsum_wf(f, n);
    }
    if n == 0 {
        vstd::arithmetic::power2::lemma2_to64();
        assert(false);
    }
    // the pointwise product of the transforms is the transform of the convolution
    lemma_forward_is_dft(&base, ta);
    lemma_forward_is_dft(&base, tb);
    lemma_forward_is_dft(&base, c);
    assert forall|k: int| 0 <= k < n implies #[trigger] base.forward_spec(c)[k] == pointwise(
        base.forward_spec(ta),
        base.forward_spec(tb),
    )[k] by {
        lemma_dft_convolution(ta, tb, w, k);
    }
    assert(pointwise(plan.forward_spec(a), plan.forward_spec(b)) =~= base.forward_spec(c));
    lemma_ntt_round_trip(&base, c);
    // untwisting the convolution of the twisted inputs gives the negacyclic product
    let lhs = plan.inverse_spec(pointwise(plan.forward_spec(a), plan.forward_spec(b)));
    assert(lhs == pointwise(c, u));
    assert forall|k: int| 0 <= k < n implies #[trigger] lhs[k] == negacyclic_spec(a, b)[k] by {
        let f = |i: int| R::mul_spec(ta[i], tb[(k - i) % ni]);
        let g = negacyclic_terms(a, b, k);
        assert(fn_wf(f, n)) by {
            assert forall|i: int| 0 <= i < n implies (#[trigger] f(i)).wf() by {
                assert(0 <= (k - i) % ni < ni);
                R::lemma_closed(ta[i], tb[(k - i) % ni]);
            }
        }
        lemma_rsum_wf(f, n);
        crate::arith::ring::lemma_pow_wf(inv_psi, k as nat);
        R::lemma_mul_laws(c[k], u[k], u[k]);
        lemma_rsum_scale(u[k], f, n);
        assert forall|i: int| 0 <= i < n implies #[trigger] R::mul_spec(u[k], f(i)) == g(i) by {
            let j = (k - i) % ni;
            if i <= k {
                vstd::arithmetic::div_mod::lemma_small_mod((k - i) as nat, n);
            } else {
                vstd::arithmetic::div_mod::lemma_fundamental_div_mod_converse(k - i, ni, -1, k - i + ni);
            }
            R::lemma_closed(ta[i], tb[j]);
            R::lemma_mul_laws(u[k], f(i), f(i));
            lemma_untwist_term(a[i], b[j], psi, inv_psi, i as nat, j as nat, k as nat, n);
        }
        lemma_rsum_ext(|i: int| R::mul_spec(u[k], f(i)), g, n);
    }
    assert(lhs =~= negacyclic_spec(a, b));
}

/// The twisted inverse transform undoes the twisted forward transform under the same
/// plan: for every valid input `x` of the plan's length, `inverse(forward(x)) == x`.
pub proof fn lemma_twisted_round_trip<R: Ring>(plan: &TwistedNttPlan<R>, x: Seq<R>)
    requires
        plan.wf(),
        x.len() == plan.plan_len(),
        seq_wf(x),
    ensures
        plan.inverse_spec(plan.forward_spec(x)) == x,
{
    plan.lemma_wf_facts();
    let t = plan.twists_spec();
    let u = plan.untwists_spec();
    let tx = pointwise(x, t);
    assert forall|i: int| 0 <= i < x.len() implies (#[trigger] tx[i]).wf() by {
        R::lemma_closed(x[i], t[i]);
    }
    lemma_ntt_round_trip(&plan.base_plan(), tx);
    let psi = plan.psi@;
    let inv_psi = plan.inv_psi@;
    R::lemma_wf_params(psi);
    R::lemma_identities_wf();
    let lhs = plan.inverse_spec(plan.forward_spec(x));
    assert forall|i: int| 0 <= i < x.len() implies #[trigger] lhs[i] == x[i] by {
        // (x * psi^i) * psi^{-i} = x * (psi * psi^{-1})^i = x
        R::lemma_mul_laws(x[i], t[i], u[i]);
        crate::arith::ring::lemma_pow_mul_distributes(psi, inv_psi, i as nat);
        lemma_pow_one_twist::<R>(i as nat);
        R::lemma_mul_laws(x[i], R::one_spec(), R::one_spec());
    }
    assert(lhs =~= x);
}

/// `1^e = 1`.
proof fn lemma_pow_one_twist<R: Ring>(e: nat)
    requires
        R::params_ok(),
    ensures
        pow_spec(R::one_spec(), e) == R::one_spec(),
    decreases e,
{
    R::lemma_identities_wf();
    if e > 0 {
        lemma_pow_one_twist::<R>((e - 1) as nat);
        R::lemma_mul_laws(R::one_spec(), R::one_spec(), R::one_spec());
    }
}

/// The powers `1, base, base^2, ..., base^(n-1)`.
fn powers<R: Ring>(base: &R, n: usize) -> (r: Vec<R>)
    requires
        base.wf(),
    ensures
        r@ == powers_seq(*base, n as nat),
{
    proof {
        R::lemma_wf_params(*base);
    }
    let mut out: Vec<R> = Vec::new();
    let mut current = R::one();
    let mut i: usize = 0;
    while i < n
        invariant
            base.wf(),
            R::params_ok(),
            i <= n,
            out@.len() == i,
            current == pow_spec(*base, i as nat),
            current.wf(),
            forall|k: int| 0 <= k < i ==> #[trigger] out@[k] == pow_spec(*base, k as nat),
        decreases n - i,
    {
        out.push(current);
        current = R::mul_ref(&current, base);
        i = i + 1;
    }
    proof {
        assert(out@ =~= powers_seq(*base, n as nat));
    }
    out
}

/// The ring has a twisted plan of length `len`: a plain plan of that length, and a
/// `2len`-th root of unity, `2len` being a `usize`.
pub open spec fn twisted_supported<R: NTTRing>(len: nat) -> bool {
    &&& ntt_supported::<R>(len)
    &&& len * 2 <= usize::MAX
    &&& R::root_spec(len * 2) is Some
}

/// The error when no twisted plan of length `len` exists: that of the plain plan
/// when there is none, else `UnsupportedTwist`.
pub open spec fn twisted_error<R: NTTRing>(len: nat) -> NttError {
    if ntt_supported::<R>(len) {
        NttError::UnsupportedTwist { len: len as usize }
    } else {
        plan_error(len)
    }
}

/// A valid twisted plan of length `len` built on the ring's roots of unity: its plain
/// plan on the `len`-th one, its twists on the `2len`-th one.
pub open spec fn is_twisted_ring_plan<R: NTTRing>(p: TwistedNttPlan<R>, len: nat) -> bool {
    &&& p.wf()
    &&& p.plan_len() == len
    &&& R::root_spec(len) == Some(p.base_plan().root())
    &&& R::root_spec(len * 2) == Some(p.psi())
}

impl<R: NTTRing> TwistedNttPlan<R> {
    /// Builds the twisted plan of length `len`: the plain plan, the powers of a
    /// primitive `2len`-th root `psi`, and those of `psi^{-1}`.
    fn build(len: usize) -> (r: Result<Self, NttError>)
        requires
            R::params_ok(),
        ensures
            match r {
                Ok(p) => is_twisted_ring_plan(p, len as nat),
                Err(e) => e == twisted_error::<R>(len as nat),
            },
            r is Ok <==> twisted_supported::<R>(len as nat),
    {
        let ntt_plan = match ntt_plan::<R>(len) {
            Ok(p) => p,
            Err(e) => return Err(e),
        };
        let twice_len = match len.checked_mul(2) {
            Some(t) => t,
            None => return Err(NttError::UnsupportedTwist { len }),
        };
        let psi = match R::root_of_unity(twice_len) {
            Some(w) => w,
            None => return Err(NttError::UnsupportedTwist { len }),
        };
        let inv_psi = match R::inv_root_of_unity(twice_len) {
            Some(w) => w,
            None => return Err(NttError::UnsupportedTwist { len }),
        };
        if !R::mul_ref(&psi, &inv_psi).is_one() {
            return Err(NttError::UnsupportedTwist { len });
        }
        let one = R::one();
        proof {
            R::lemma_wf_params(psi);
            R::lemma_identities_wf();
        }
        let psi_len = crate::arith::ring::ring_pow(&psi, len as u64);
        proof {
            if twisted_supported::<R>(len as nat) {
                assert(is_pow2(twice_len as nat));
                assert((twice_len / 2) as nat == len as nat);
                R::lemma_closed(one, one);
                R::lemma_add_laws(one, R::neg_spec(one), one);
                assert(psi_len == R::neg_spec(one));
            }
        }
        if !R::add_ref(&psi_len, &one).is_zero() {
            return Err(NttError::UnsupportedTwist { len });
        }
        proof {
            R::lemma_add_laws(psi_len, one, one);
            crate::arith::ntt::lemma_neg_unique(one, psi_len);
        }
        Ok(TwistedNttPlan {
            len,
            twists: powers(&psi, len),
            untwists: powers(&inv_psi, len),
            ntt_plan,
            psi: Ghost(psi),
            inv_psi: Ghost(inv_psi),
        })
    }
}

/// Builds the twisted negacyclic NTT plan for the requested ring and transform size.
///
/// The plan is built afresh on every call and shared through an `Arc`; keeping plans
/// across calls is left to the caller (the process-wide cache lives outside the library).
pub fn cached_twisted_plan<R: NTTRing>(len: usize) -> (r: Result<Arc<TwistedNttPlan<R>>, NttError>)
    requires
        R::params_ok(),
    ensures
        match r {
            Ok(p) => is_twisted_ring_plan(*p, len as nat),
            Err(e) => e == twisted_error::<R>(len as nat),
        },
        r is Ok <==> twisted_supported::<R>(len as nat),
{
    match TwistedNttPlan::<R>::build(len) {
        Ok(p) => Ok(Arc::new(p)),
        Err(e) => Err(e),
    }
}

/// Returns a plain NTT plan for the requested ring and transform size.
pub fn ntt_plan<R: NTTRing>(len: usize) -> (r: Result<Arc<NttPlan<R>>, NttError>)
    requires
        R::params_ok(),
    ensures
        match r {
            Ok(p) => is_ring_plan(*p, len as nat, R::root_spec(len as nat)),
            Err(e) => e == plan_error(len as nat),
        },
        r is Ok <==> ntt_supported::<R>(len as nat),
{
    match NttPlan::<R>::build(len) {
        Ok(p) => Ok(Arc::new(p)),
        Err(e) => Err(e),
    }
}

/// Returns a twisted negacyclic NTT plan for the requested ring and transform size.
pub fn twisted_ntt_plan<R: NTTRing>(len: usize) -> (r: Result<Arc<TwistedNttPlan<R>>, NttError>)
    requires
        R::params_ok(),
    ensures
        match r {
            Ok(p) => is_twisted_ring_plan(*p, len as nat),
            Err(e) => e == twisted_error::<R>(len as nat),
        },
        r is Ok <==> twisted_supported::<R>(len as nat),
{
    cached_twisted_plan::<R>(len)
}

/// Performs the forward NTT in-place.
pub fn ntt_forward<R: NTTRing>(coeffs: &mut [R]) -> (r: Result<(), NttError>)
    requires
        R::params_ok(),
        seq_wf(old(coeffs)@),
    ensures
        forward_outcome(old(coeffs)@, final(coeffs)@, r, R::root_spec(old(coeffs)@.len())),
        r is Ok <==> ntt_supported::<R>(old(coeffs)@.len()),
        final(coeffs)@.len() == old(coeffs)@.len(),
        seq_wf(final(coeffs)@),
{
    R::ntt_forward_in_place(coeffs)
}

/// Performs the forward NTT in-place using a precomputed plan.
pub fn ntt_forward_with_plan<R: NTTRing>(coeffs: &mut [R], plan: &NttPlan<R>) -> (r: Result<(), NttError>)
    requires
        plan.wf(),
        seq_wf(old(coeffs)@),
    ensures
        r == plan.validate_len_spec(old(coeffs)@.len()),
        r is Ok ==> final(coeffs)@ == plan.forward_spec(old(coeffs)@),
        r is Err ==> final(coeffs)@ == old(coeffs)@,
        final(coeffs)@.len() == old(coeffs)@.len(),
        seq_wf(final(coeffs)@),
{
    R::ntt_forward_with_plan(coeffs, plan)
}

/// Performs the inverse NTT in-place.
pub fn ntt_inverse<R: NTTRing>(evals: &mut [R]) -> (r: Result<(), NttError>)
    requires
        R::params_ok(),
        seq_wf(old(evals)@),
    ensures
        inverse_outcome(old(evals)@, final(evals)@, r, R::root_spec(old(evals)@.len())),
        r is Ok <==> ntt_supported::<R>(old(evals)@.len()),
        final(evals)@.len() == old(evals)@.len(),
        seq_wf(final(evals)@),
{
    R::ntt_inverse_in_place(evals)
}

/// Performs the inverse NTT in-place using a precomputed plan.
pub fn ntt_inverse_with_plan<R: NTTRing>(evals: &mut [R], plan: &NttPlan<R>) -> (r: Result<(), NttError>)
    requires
        plan.wf(),
        seq_wf(old(evals)@),
    ensures
        r == plan.validate_len_spec(old(evals)@.len()),
        r is Ok ==> final(evals)@ == plan.inverse_spec(old(evals)@),
        r is Err ==> final(evals)@ == old(evals)@,
        final(evals)@.len() == old(evals)@.len(),
        seq_wf(final(evals)@),
{
    R::ntt_inverse_with_plan(evals, plan)
}

/// Outcome of a twisted transform that builds its own plan: on success, the result is
/// the transform under the ring's twisted plan of that length (all such plans
/// transform alike); on failure, the input is untouched and the error says why no
/// plan exists.
pub open spec fn twisted_outcome<R: NTTRing>(x: Seq<R>, y: Seq<R>, r: Result<(), NttError>, forward: bool) -> bool {
    match r {
        Ok(_) => exists|p: TwistedNttPlan<R>|
            #![trigger p.forward_spec(x)]
            #![trigger p.inverse_spec(x)]
            is_twisted_ring_plan(p, x.len()) && y == (if forward {
                p.forward_spec(x)
            } else {
                p.inverse_spec(x)
            }),
        Err(e) => y == x && e == twisted_error::<R>(x.len()),
    }
}

/// Transform coefficient-domain values into the twisted evaluation domain in place.
pub fn twisted_ntt_forward_in_place<R: NTTRing>(coeffs: &mut [R]) -> (r: Result<(), NttError>)
    requires
        R::params_ok(),
        seq_wf(old(coeffs)@),
    ensures
        twisted_outcome(old(coeffs)@, final(coeffs)@, r, true),
        r is Ok <==> twisted_supported::<R>(old(coeffs)@.len()),
        final(coeffs)@.len() == old(coeffs)@.len(),
        seq_wf(final(coeffs)@),
{
    let plan = match cached_twisted_plan::<R>(coeffs.len()) {
        Ok(p) => p,
        Err(e) => return Err(e),
    };
    let r = plan.forward_in_place(coeffs);
    proof {
        let p = *plan;
        assert(is_twisted_ring_plan(p, old(coeffs)@.len()) && final(coeffs)@ == p.forward_spec(old(coeffs)@));
    }
    r
}

/// Transform coefficient-domain values into the twisted evaluation domain in place using a
/// precomputed plan.
pub fn twisted_ntt_forward_in_place_with_plan<R: NTTRing>(coeffs: &mut [R], plan: &TwistedNttPlan<R>) -> (r: Result<(), NttError>)
    requires
        plan.wf(),
        seq_wf(old(coeffs)@),
    ensures
        r == (if old(coeffs)@.len() == plan.plan_len() {
            Ok(())
        } else {
            Err(NttError::LengthMismatch { left: plan.plan_len() as usize, right: old(coeffs)@.len() as usize })
        }),
        r is Ok ==> final(coeffs)@ == plan.forward_spec(old(coeffs)@),
        r is Err ==> final(coeffs)@ == old(coeffs)@,
        final(coeffs)@.len() == old(coeffs)@.len(),
        seq_wf(final(coeffs)@),
{
    plan.forward_in_place(coeffs)
}

/// Transform coefficient-domain values into the twisted evaluation domain.
pub fn twisted_ntt_forward<R: NTTRing>(coeffs: &[R]) -> (r: Result<Vec<R>, NttError>)
    requires
        R::params_ok(),
        seq_wf(coeffs@),
    ensures
        match r {
            Ok(v) => twisted_outcome(coeffs@, v@, Ok(()), true) && seq_wf(v@),
            Err(e) => twisted_outcome(coeffs@, coeffs@, Err(e), true),
        },
        r is Ok <==> twisted_supported::<R>(coeffs@.len()),
{
    let plan = match cached_twisted_plan::<R>(coeffs.len()) {
        Ok(p) => p,
        Err(e) => return Err(e),
    };
    let mut evals = slice_to_vec(coeffs);
    let r = plan.forward_in_place(evals.as_mut_slice());
    proof {
        let p = *plan;
        assert(is_twisted_ring_plan(p, coeffs@.len()) && evals@ == p.forward_spec(coeffs@));
    }
    match r {
        Ok(_) => Ok(evals),
        Err(e) => Err(e),
    }
}

/// Transform twisted-domain evaluations back into the coefficient domain in place.
pub fn twisted_ntt_inverse_in_place<R: NTTRing>(evals: &mut [R]) -> (r: Result<(), NttError>)
    requires
        R::params_ok(),
        seq_wf(old(evals)@),
    ensures
        twisted_outcome(old(evals)@, final(evals)@, r, false),
        r is Ok <==> twisted_supported::<R>(old(evals)@.len()),
        final(evals)@.len() == old(evals)@.len(),
        seq_wf(final(evals)@),
{
    let plan = match cached_twisted_plan::<R>(evals.len()) {
        Ok(p) => p,
        Err(e) => return Err(e),
    };
    let r = plan.inverse_in_place(evals);
    proof {
        let p = *plan;
        assert(is_twisted_ring_plan(p, old(evals)@.len()) && final(evals)@ == p.inverse_spec(old(evals)@));
    }
    r
}

/// Transform twisted-domain evaluations back into the coefficient domain in place using a
/// precomputed plan.
pub fn twisted_ntt_inverse_in_place_with_plan<R: NTTRing>(evals: &mut [R], plan: &TwistedNttPlan<R>) -> (r: Result<(), NttError>)
    requires
        plan.wf(),
        seq_wf(old(evals)@),
    ensures
        r == (if old(evals)@.len() == plan.plan_len() {
            Ok(())
        } else {
            Err(NttError::LengthMismatch { left: plan.plan_len() as usize, right: old(evals)@.len() as usize })
        }),
        r is Ok ==> final(evals)@ == plan.inverse_spec(old(evals)@),
        r is Err ==> final(evals)@ == old(evals)@,
        final(evals)@.len() == old(evals)@.len(),
        seq_wf(final(evals)@),
{
    plan.inverse_in_place(evals)
}

/// Transform twisted-domain evaluations back into coefficient-domain values.
pub fn twisted_ntt_inverse<R: NTTRing>(evals: &[R]) -> (r: Result<Vec<R>, NttError>)
    requires
        R::params_ok(),
        seq_wf(evals@),
    ensures
        match r {
            Ok(v) => twisted_outcome(evals@, v@, Ok(()), false) && seq_wf(v@),
            Err(e) => twisted_outcome(evals@, evals@, Err(e), false),
        },
        r is Ok <==> twisted_supported::<R>(evals@.len()),
{
    let plan = match cached_twisted_plan::<R>(evals.len()) {
        Ok(p) => p,
        Err(e) => return Err(e),
    };
    let mut coeffs = slice_to_vec(evals);
    let r = plan.inverse_in_place(coeffs.as_mut_slice());
    proof {
        let p = *plan;
        assert(is_twisted_ring_plan(p, evals@.len()) && coeffs@ == p.inverse_spec(evals@));
    }
    match r {
        Ok(_) => Ok(coeffs),
        Err(e) => Err(e),
    }
}

/// Multiply two coefficient-domain polynomials modulo `X^n + 1` in place using a precomputed
/// twisted NTT plan.
pub fn poly_mul_ntt_in_place_with_plan<R: NTTRing>(lhs: &mut [R], rhs: &mut [R], plan: &TwistedNttPlan<R>) -> (r: Result<(), NttError>)
    requires
        plan.wf(),
        seq_wf(old(lhs)@),
        seq_wf(old(rhs)@),
    ensures
        r == multiply_result(plan.plan_len(), old(lhs)@.len(), old(rhs)@.len()),
        r is Ok ==> final(lhs)@ == plan.inverse_spec(
            pointwise(plan.forward_spec(old(lhs)@), plan.forward_spec(old(rhs)@)),
        ),
        r is Ok ==> final(lhs)@ == negacyclic_spec(old(lhs)@, old(rhs)@),
        r is Ok ==> final(rhs)@ == plan.forward_spec(old(rhs)@),
        r is Err ==> final(lhs)@ == old(lhs)@ && final(rhs)@ == old(rhs)@,
        final(lhs)@.len() == old(lhs)@.len(),
        seq_wf(final(lhs)@),
        final(rhs)@.len() == old(rhs)@.len(),
        seq_wf(final(rhs)@),
{
    plan.multiply_in_place(lhs, rhs)
}

/// Multiply two coefficient-domain polynomials modulo `X^n + 1` in place using a twisted NTT.
///
/// On success, `lhs` is overwritten with the negacyclic product while `rhs` is used as temporary
/// workspace.
pub fn poly_mul_ntt_in_place<R: NTTRing>(lhs: &mut [R], rhs: &mut [R]) -> (r: Result<(), NttError>)
    requires
        R::params_ok(),
        seq_wf(old(lhs)@),
        seq_wf(old(rhs)@),
    ensures
        old(lhs)@.len() != old(rhs)@.len() ==> r == Err::<(), NttError>(
            NttError::LengthMismatch { left: old(lhs)@.len() as usize, right: old(rhs)@.len() as usize },
        ),
        old(lhs)@.len() == old(rhs)@.len() ==> match r {
            Ok(_) => final(lhs)@ == negacyclic_spec(old(lhs)@, old(rhs)@),
            Err(e) => e == twisted_error::<R>(old(lhs)@.len()),
        },
        old(lhs)@.len() == old(rhs)@.len() ==> (r is Ok <==> twisted_supported::<R>(old(lhs)@.len())),
        r is Err ==> final(lhs)@ == old(lhs)@ && final(rhs)@ == old(rhs)@,
        final(lhs)@.len() == old(lhs)@.len(),
        seq_wf(final(lhs)@),
        final(rhs)@.len() == old(rhs)@.len(),
        seq_wf(final(rhs)@),
{
    if lhs.len() != rhs.len() {
        return Err(NttError::LengthMismatch { left: lhs.len(), right: rhs.len() });
    }
    let plan = match cached_twisted_plan::<R>(lhs.len()) {
        Ok(p) => p,
        Err(e) => return Err(e),
    };
    poly_mul_ntt_in_place_with_plan(lhs, rhs, &*plan)
}

/// Multiply two coefficient-domain polynomials modulo `X^n + 1` using a twisted NTT.
pub fn poly_mul_ntt<R: NTTRing>(a: &[R], b: &[R]) -> (r: Result<Vec<R>, NttError>)
    requires
        R::params_ok(),
        seq_wf(a@),
        seq_wf(b@),
    ensures
        a@.len() != b@.len() ==> r == Err::<Vec<R>, NttError>(
            NttError::LengthMismatch { left: a@.len() as usize, right: b@.len() as usize },
        ),
        a@.len() == b@.len() ==> match r {
            Ok(v) => v@ == negacyclic_spec(a@, b@) && seq_wf(v@),
            Err(e) => e == twisted_error::<R>(a@.len()),
        },
        a@.len() == b@.len() ==> (r is Ok <==> twisted_supported::<R>(a@.len())),
{
    if a.len() != b.len() {
        return Err(NttError::LengthMismatch { left: a.len(), right: b.len() });
    }
    let mut lhs = slice_to_vec(a);
    let mut rhs = slice_to_vec(b);
    match poly_mul_ntt_in_place(lhs.as_mut_slice(), rhs.as_mut_slice()) {
        Ok(_) => Ok(lhs),
        Err(e) => Err(e),
    }
}


/// Two valid twisted plans of one length on one pair of roots of unity are the same
/// transform, forwards and back.
pub proof fn lemma_twisted_plans_agree<R: Ring>(p1: &TwistedNttPlan<R>, p2: &TwistedNttPlan<R>)
    requires
        p1.wf(),
        p2.wf(),
        p1.plan_len() == p2.plan_len(),
        p1.base_plan().root() == p2.base_plan().root(),
        p1.psi() == p2.psi(),
    ensures
        forall|x: Seq<R>| #[trigger] p1.forward_spec(x) == p2.forward_spec(x),
        forall|y: Seq<R>| #[trigger] p1.inverse_spec(y) == p2.inverse_spec(y),
{
    lemma_plans_agree(&p1.base_plan(), &p2.base_plan());
    lemma_inverse_unique(p1.psi@, p1.inv_psi@, p2.inv_psi@);
}

/// A twisted transform that builds its own plan is undone by the twisted inverse that
/// builds its own: for every valid input `x`, inverting the forward transform of `x`
/// gives back `x`.
pub proof fn lemma_twisted_self_round_trip<R: NTTRing>(x: Seq<R>, y: Seq<R>, z: Seq<R>)
    requires
        seq_wf(x),
        twisted_outcome(x, y, Ok(()), true),
        twisted_outcome(y, z, Ok(()), false),
    ensures
        z == x,
{
    let p1 = choose|p: TwistedNttPlan<R>|
        #![trigger p.forward_spec(x)]
        #![trigger p.inverse_spec(x)]
        is_twisted_ring_plan(p, x.len()) && y == (if true {
            p.forward_spec(x)
        } else {
            p.inverse_spec(x)
        });
    let p2 = choose|p: TwistedNttPlan<R>|
        #![trigger p.forward_spec(y)]
        #![trigger p.inverse_spec(y)]
        is_twisted_ring_plan(p, y.len()) && z == (if false {
            p.forward_spec(y)
        } else {
            p.inverse_spec(y)
        });
    p1.lemma_wf_facts();
    let tx = pointwise(x, p1.twists_spec());
    assert forall|i: int| 0 <= i < x.len() implies (#[trigger] tx[i]).wf() by {
        R::lemma_closed(x[i], p1.twists_spec()[i]);
    }
    lemma_fwd_upto_wf(&p1.base_plan(), tx, log2(p1.plan_len()));
    lemma_twisted_plans_agree(&p1, &p2);
    lemma_twisted_round_trip(&p1, x);
}


/// The twisted forward transform of `x` under a valid plan keeps the length.
proof fn lemma_twisted_forward_len<R: Ring>(p: &TwistedNttPlan<R>, x: Seq<R>)
    requires
        p.wf(),
        x.len() == p.plan_len(),
        seq_wf(x),
    ensures
        p.forward_spec(x).len() == x.len(),
{
    p.lemma_wf_facts();
    let tx = pointwise(x, p.twists_spec());
    assert forall|i: int| 0 <= i < x.len() implies (#[trigger] tx[i]).wf() by {
        R::lemma_closed(x[i], p.twists_spec()[i]);
    }
    lemma_fwd_upto_wf(&p.base_plan(), tx, log2(p.plan_len()));
}

/// Multiplying slot by slot in the twisted domain is negacyclic multiplication:
/// transform `a` and `b` with the self-planning forward transform, multiply the
/// slots, and the self-planning inverse transform gives `a * b mod (X^n + 1)`.
pub proof fn lemma_twisted_domain_product<R: NTTRing>(a: Seq<R>, b: Seq<R>, ea: Seq<R>, eb: Seq<R>, c: Seq<R>)
    requires
        seq_wf(a),
        seq_wf(b),
        a.len() == b.len(),
        twisted_outcome(a, ea, Ok(()), true),
        twisted_outcome(b, eb, Ok(()), true),
        twisted_outcome(pointwise(ea, eb), c, Ok(()), false),
    ensures
        c == negacyclic_spec(a, b),
{
    let pa = choose|p: TwistedNttPlan<R>|
        #![trigger p.forward_spec(a)]
        #![trigger p.inverse_spec(a)]
        is_twisted_ring_plan(p, a.len()) && ea == (if true {
            p.forward_spec(a)
        } else {
            p.inverse_spec(a)
        });
    let pb = choose|p: TwistedNttPlan<R>|
        #![trigger p.forward_spec(b)]
        #![trigger p.inverse_spec(b)]
        is_twisted_ring_plan(p, b.len()) && eb == (if true {
            p.forward_spec(b)
        } else {
            p.inverse_spec(b)
        });
    let e = pointwise(ea, eb);
    lemma_twisted_forward_len(&pa, a);
    let pc = choose|p: TwistedNttPlan<R>|
        #![trigger p.forward_spec(e)]
        #![trigger p.inverse_spec(e)]
        is_twisted_ring_plan(p, e.len()) && c == (if false {
            p.forward_spec(e)
        } else {
            p.inverse_spec(e)
        });
    lemma_twisted_plans_agree(&pa, &pb);
    lemma_twisted_plans_agree(&pa, &pc);
    lemma_negacyclic_product(&pa, a, b);
}

} // verus!
