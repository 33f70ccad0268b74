//! Polynomials held in the negacyclic twisted evaluation domain.
//!
//! A `TwistedNttPoly` stores the twisted transform of a polynomial of
//! `Z_q[X] / (X^N + 1)`. Addition and multiplication act slot by slot there, and
//! slot-wise multiplication is negacyclic multiplication of the coefficient
//! polynomials (`lemma_negacyclic_product`).
use crate::arith::ntt::{NTTRing, NttError};
use crate::arith::ring::{IntegerRing, Ring, seq_wf};
use crate::poly::ntt::{
    TwistedNttPlan, cached_twisted_plan, is_twisted_ring_plan, pointwise, twisted_error,
    twisted_outcome, twisted_supported,
};
use crate::poly::ring::CyclotomicPolyRing;
use crate::serialize::{CanonicalDeserialize, CanonicalSerialize};
use vstd::prelude::*;

verus! {

/// A polynomial stored in the negacyclic twisted evaluation domain.
pub struct TwistedNttPoly<R: NTTRing, const N: usize> {
    evals: [R; N],
}

impl<R: NTTRing, const N: usize> View for TwistedNttPoly<R, N> {
    type V = Seq<R>;

    /// The evaluation-domain slots.
    closed spec fn view(&self) -> Seq<R> {
        self.evals@
    }
}

impl<R: NTTRing, const N: usize> TwistedNttPoly<R, N> {
    /// Construct a twisted-domain polynomial from precomputed evaluation points.
    pub fn from_evals(evals: [R; N]) -> (r: Self)
        ensures
            r@ == evals@,
    {
        TwistedNttPoly { evals }
    }

    /// The evaluation-domain slots.
    pub fn evals(&self) -> (r: &[R; N])
        ensures
            r@ == self@,
    {
        &self.evals
    }

    /// Convert a coefficient array into the twisted evaluation domain using a
    /// precomputed plan, which must have length `N`.
    pub fn from_coeff_array_with_plan(coeffs: [R; N], plan: &TwistedNttPlan<R>) -> (r: Result<Self, NttError>)
        requires
            plan.wf(),
            seq_wf(coeffs@),
        ensures
            r is Ok <==> plan.plan_len() == N,
            r matches Ok(p) ==> p@ == plan.forward_spec(coeffs@) && seq_wf(p@),
            r matches Err(e) ==> e == (NttError::LengthMismatch { left: plan.plan_len() as usize, right: N }),
    {
        let mut evals = coeffs;
        match plan.forward_in_place(&mut evals) {
            Ok(_) => Ok(TwistedNttPoly { evals }),
            Err(e) => Err(e),
        }
    }

    /// Convert a coefficient array into the twisted evaluation domain.
    pub fn from_coeff_array(coeffs: [R; N]) -> (r: Result<Self, NttError>)
        requires
            R::params_ok(),
            seq_wf(coeffs@),
        ensures
            r is Ok <==> twisted_supported::<R>(N as nat),
            r matches Ok(p) ==> twisted_outcome(coeffs@, p@, Ok(()), true) && seq_wf(p@),
            r matches Err(e) ==> e == twisted_error::<R>(N as nat),
    {
        let plan = match cached_twisted_plan::<R>(N) {
            Ok(p) => p,
            Err(e) => return Err(e),
        };
        let r = Self::from_coeff_array_with_plan(coeffs, &*plan);
        proof {
            let p = *plan;
            if r is Ok {
                assert(is_twisted_ring_plan(p, coeffs@.len()) && r->Ok_0@ == p.forward_spec(coeffs@));
            }
        }
        r
    }

    /// Convert back into a coefficient array using a precomputed plan, which must
    /// have length `N`.
    pub fn to_coeff_array_with_plan(&self, plan: &TwistedNttPlan<R>) -> (r: Result<[R; N], NttError>)
        requires
            plan.wf(),
            seq_wf(self@),
        ensures
            r is Ok <==> plan.plan_len() == N,
            r matches Ok(c) ==> c@ == plan.inverse_spec(self@) && seq_wf(c@),
            r matches Err(e) ==> e == (NttError::LengthMismatch { left: plan.plan_len() as usize, right: N }),
    {
        let mut coeffs = self.evals;
        match plan.inverse_in_place(&mut coeffs) {
            Ok(_) => Ok(coeffs),
            Err(e) => Err(e),
        }
    }

    /// Convert back into a coefficient array.
    pub fn to_coeff_array(&self) -> (r: Result<[R; N], NttError>)
        requires
            R::params_ok(),
            seq_wf(self@),
        ensures
            r is Ok <==> twisted_supported::<R>(N as nat),
            r matches Ok(c) ==> twisted_outcome(self@, c@, Ok(()), false) && seq_wf(c@),
            r matches Err(e) ==> e == twisted_error::<R>(N as nat),
    {
        let plan = match cached_twisted_plan::<R>(N) {
            Ok(p) => p,
            Err(e) => return Err(e),
        };
        let r = self.to_coeff_array_with_plan(&*plan);
        proof {
            let p = *plan;
            if r is Ok {
                assert(is_twisted_ring_plan(p, self@.len()) && r->Ok_0@ == p.inverse_spec(self@));
            }
        }
        r
    }

    /// Slot-wise sum.
    pub fn add_evals(&self, rhs: &Self) -> (r: Self)
        requires
            seq_wf(self@),
            seq_wf(rhs@),
        ensures
            r@ == Seq::new(N as nat, |i: int| R::add_spec(self@[i], rhs@[i])),
            seq_wf(r@),
    {
        let mut evals = self.evals;
        let mut i: usize = 0;
        while i < N
            invariant
                seq_wf(self@),
                seq_wf(rhs@),
                evals@.len() == N,
                i <= N,
                forall|k: int| 0 <= k < i ==> #[trigger] evals@[k] == R::add_spec(self@[k], rhs@[k]),
                forall|k: int| i <= k < N ==> #[trigger] evals@[k] == self@[k],
                seq_wf(evals@),
            decreases N - i,
        {
            let v = R::add_ref(&self.evals[i], &rhs.evals[i]);
            proof {
                R::lemma_closed(self@[i as int], rhs@[i as int]);
            }
            evals[i] = v;
            i = i + 1;
        }
        proof {
            assert(evals@ =~= Seq::new(N as nat, |k: int| R::add_spec(self@[k], rhs@[k])));
        }
        TwistedNttPoly { evals }
    }

    /// Slot-wise difference.
    pub fn sub_evals(&self, rhs: &Self) -> (r: Self)
        requires
            seq_wf(self@),
            seq_wf(rhs@),
        ensures
            r@ == Seq::new(N as nat, |i: int| R::sub_spec(self@[i], rhs@[i])),
            seq_wf(r@),
    {
        let mut evals = self.evals;
        let mut i: usize = 0;
        while i < N
            invariant
                seq_wf(self@),
                seq_wf(rhs@),
                evals@.len() == N,
                i <= N,
                forall|k: int| 0 <= k < i ==> #[trigger] evals@[k] == R::sub_spec(self@[k], rhs@[k]),
                forall|k: int| i <= k < N ==> #[trigger] evals@[k] == self@[k],
                seq_wf(evals@),
            decreases N - i,
        {
            let v = R::sub_ref(&self.evals[i], &rhs.evals[i]);
            proof {
                R::lemma_closed(self@[i as int], rhs@[i as int]);
            }
            evals[i] = v;
            i = i + 1;
        }
        proof {
            assert(evals@ =~= Seq::new(N as nat, |k: int| R::sub_spec(self@[k], rhs@[k])));
        }
        TwistedNttPoly { evals }
    }

    /// Slot-wise product: negacyclic multiplication of the coefficient polynomials.
    pub fn mul_evals(&self, rhs: &Self) -> (r: Self)
        requires
            seq_wf(self@),
            seq_wf(rhs@),
        ensures
            r@ == pointwise(self@, rhs@),
            seq_wf(r@),
    {
        let mut evals = self.evals;
        let mut i: usize = 0;
        while i < N
            invariant
                seq_wf(self@),
                seq_wf(rhs@),
                evals@.len() == N,
                i <= N,
                forall|k: int| 0 <= k < i ==> #[trigger] evals@[k] == R::mul_spec(self@[k], rhs@[k]),
                forall|k: int| i <= k < N ==> #[trigger] evals@[k] == self@[k],
                seq_wf(evals@),
            decreases N - i,
        {
            let v = R::mul_ref(&self.evals[i], &rhs.evals[i]);
            proof {
                R::lemma_closed(self@[i as int], rhs@[i as int]);
            }
            evals[i] = v;
            i = i + 1;
        }
        proof {
            assert(evals@ =~= pointwise(self@, rhs@));
        }
        TwistedNttPoly { evals }
    }

    /// Multiply every evaluation-domain slot by a ring scalar.
    pub fn scalar_mul(&self, scalar: &R) -> (r: Self)
        requires
            seq_wf(self@),
            scalar.wf(),
        ensures
            r@ == Seq::new(N as nat, |i: int| R::mul_spec(self@[i], *scalar)),
            seq_wf(r@),
    {
        let mut evals = self.evals;
        let mut i: usize = 0;
        while i < N
            invariant
                seq_wf(self@),
                scalar.wf(),
                evals@.len() == N,
                i <= N,
                forall|k: int| 0 <= k < i ==> #[trigger] evals@[k] == R::mul_spec(self@[k], *scalar),
                forall|k: int| i <= k < N ==> #[trigger] evals@[k] == self@[k],
                seq_wf(evals@),
            decreases N - i,
        {
            let v = R::mul_ref(&self.evals[i], scalar);
            proof {
                R::lemma_closed(self@[i as int], *scalar);
            }
            evals[i] = v;
            i = i + 1;
        }
        proof {
            assert(evals@ =~= Seq::new(N as nat, |k: int| R::mul_spec(self@[k], *scalar)));
        }
        TwistedNttPoly { evals }
    }

    /// Multiply every evaluation-domain slot by a ring scalar, in place.
    pub fn scalar_mul_assign(&mut self, scalar: &R)
        requires
            seq_wf(old(self)@),
            scalar.wf(),
        ensures
            final(self)@ == Seq::new(N as nat, |i: int| R::mul_spec(old(self)@[i], *scalar)),
            seq_wf(final(self)@),
    {
        *self = self.scalar_mul(scalar);
    }
}

/// An array whose first `k` entries are those of `s`, the others `fill`.
pub open spec fn array_from_seq<T: Copy, const N: usize>(s: Seq<T>, fill: T, k: nat) -> [T; N]
    decreases k,
{
    if k == 0 {
        vstd::array::spec_array_fill_for_copy_type::<T, N>(fill)
    } else {
        vstd::array::spec_array_update(array_from_seq::<T, N>(s, fill, (k - 1) as nat), (k - 1) as int, s[k - 1])
    }
}

/// An array built from `N` entries of a sequence holds exactly those entries.
pub proof fn lemma_array_from_seq<T: Copy, const N: usize>(s: Seq<T>, fill: T, k: nat)
    requires
        k <= N,
    ensures
        array_from_seq::<T, N>(s, fill, k)@.len() == N,
        forall|i: int| 0 <= i < k ==> #[trigger] array_from_seq::<T, N>(s, fill, k)@[i] == s[i],
        forall|i: int| k <= i < N ==> #[trigger] array_from_seq::<T, N>(s, fill, k)@[i] == fill,
    decreases k,
{
    let a = array_from_seq::<T, N>(s, fill, k);
    assert(a@.len() == N);
    if k > 0 {
        lemma_array_from_seq::<T, N>(s, fill, (k - 1) as nat);
        let b = array_from_seq::<T, N>(s, fill, (k - 1) as nat);
        assert(a@ == b@.update((k - 1) as int, s[k - 1]));
    } else {
        assert(forall|i: int| 0 <= i < N ==> a@[i] == fill);
    }
}

impl<R: NTTRing, const N: usize> Clone for TwistedNttPoly<R, N> {
    fn clone(&self) -> (r: Self)
        ensures
            r == *self,
    {
        *self
    }
}

impl<R: NTTRing, const N: usize> Copy for TwistedNttPoly<R, N> {

}

impl<R: NTTRing, const N: usize> TwistedNttPoly<R, N> {
    /// The polynomial with the given slots.
    pub closed spec fn from_slots(s: Seq<R>) -> Self {
        TwistedNttPoly { evals: array_from_seq::<R, N>(s, R::zero_spec(), N as nat) }
    }

    /// `from_slots(s)` has slots `s`.
    proof fn lemma_from_slots(s: Seq<R>)
        requires
            s.len() == N,
        ensures
            Self::from_slots(s)@ == s,
    {
        lemma_array_from_seq::<R, N>(s, R::zero_spec(), N as nat);
        assert(Self::from_slots(s)@ =~= s);
    }

    /// Polynomials with the same slots are equal.
    proof fn lemma_eq_by_view(a: Self, b: Self)
        requires
            a@ == b@,
        ensures
            a == b,
    {
        assert(a.evals =~= b.evals);
    }

    /// The slots of the identities and of the slot-wise operations.
    proof fn lemma_slots(a: Self, b: Self)
        ensures
            <Self as Ring>::zero_spec()@ == Seq::new(N as nat, |i: int| R::zero_spec()),
            <Self as Ring>::one_spec()@ == Seq::new(N as nat, |i: int| R::one_spec()),
            <Self as Ring>::add_spec(a, b)@ == Seq::new(N as nat, |i: int| R::add_spec(a@[i], b@[i])),
            <Self as Ring>::sub_spec(a, b)@ == Seq::new(N as nat, |i: int| R::sub_spec(a@[i], b@[i])),
            <Self as Ring>::mul_spec(a, b)@ == Seq::new(N as nat, |i: int| R::mul_spec(a@[i], b@[i])),
            <Self as Ring>::neg_spec(a)@ == Seq::new(N as nat, |i: int| R::neg_spec(a@[i])),
    {
        Self::lemma_from_slots(Seq::new(N as nat, |i: int| R::zero_spec()));
        Self::lemma_from_slots(Seq::new(N as nat, |i: int| R::one_spec()));
        Self::lemma_from_slots(Seq::new(N as nat, |i: int| R::add_spec(a@[i], b@[i])));
        Self::lemma_from_slots(Seq::new(N as nat, |i: int| R::sub_spec(a@[i], b@[i])));
        Self::lemma_from_slots(Seq::new(N as nat, |i: int| R::mul_spec(a@[i], b@[i])));
        Self::lemma_from_slots(Seq::new(N as nat, |i: int| R::neg_spec(a@[i])));
    }

    /// Every polynomial has `N` slots.
    proof fn lemma_len(a: Self)
        ensures
            a@.len() == N,
    {
    }
}

impl<R: NTTRing, const N: usize> Ring for TwistedNttPoly<R, N> {
    open spec fn params_ok() -> bool {
        R::params_ok()
    }

    closed spec fn wf(self) -> bool {
        R::params_ok() && seq_wf(self@)
    }

    closed spec fn zero_spec() -> Self {
        Self::from_slots(Seq::new(N as nat, |i: int| R::zero_spec()))
    }

    closed spec fn one_spec() -> Self {
        Self::from_slots(Seq::new(N as nat, |i: int| R::one_spec()))
    }

    closed spec fn add_spec(a: Self, b: Self) -> Self {
        Self::from_slots(Seq::new(N as nat, |i: int| R::add_spec(a@[i], b@[i])))
    }

    closed spec fn sub_spec(a: Self, b: Self) -> Self {
        Self::from_slots(Seq::new(N as nat, |i: int| R::sub_spec(a@[i], b@[i])))
    }

    closed spec fn mul_spec(a: Self, b: Self) -> Self {
        Self::from_slots(Seq::new(N as nat, |i: int| R::mul_spec(a@[i], b@[i])))
    }

    closed spec fn neg_spec(a: Self) -> Self {
        Self::from_slots(Seq::new(N as nat, |i: int| R::neg_spec(a@[i])))
    }

    proof fn lemma_wf_params(a: Self) {
    }

    proof fn lemma_identities_wf() {
        R::lemma_identities_wf();
        let z = Self::zero_spec();
        Self::lemma_slots(z, z);
    }

    proof fn lemma_closed(a: Self, b: Self) {
        Self::lemma_slots(a, b);
        assert forall|i: int| #![trigger a@[i]] 0 <= i < N implies {
            &&& R::add_spec(a@[i], b@[i]).wf()
            &&& R::sub_spec(a@[i], b@[i]).wf()
            &&& R::mul_spec(a@[i], b@[i]).wf()
            &&& R::neg_spec(a@[i]).wf()
        } by {
            R::lemma_closed(a@[i], b@[i]);
        }
    }

    proof fn lemma_add_laws(a: Self, b: Self, c: Self) {
        let ab = Self::add_spec(a, b);
        let bc = Self::add_spec(b, c);
        let z = Self::zero_spec();
        let na = Self::neg_spec(a);
        let nb = Self::neg_spec(b);
        Self::lemma_slots(a, b);
        Self::lemma_slots(b, a);
        Self::lemma_slots(b, c);
        Self::lemma_slots(ab, c);
        Self::lemma_slots(a, bc);
        Self::lemma_slots(a, z);
        Self::lemma_slots(a, na);
        Self::lemma_slots(a, nb);
        assert forall|i: int| #![trigger a@[i]] 0 <= i < N implies {
            &&& R::add_spec(a@[i], b@[i]) == R::add_spec(b@[i], a@[i])
            &&& R::add_spec(R::add_spec(a@[i], b@[i]), c@[i]) == R::add_spec(a@[i], R::add_spec(b@[i], c@[i]))
            &&& R::add_spec(a@[i], R::zero_spec()) == a@[i]
            &&& R::add_spec(a@[i], R::neg_spec(a@[i])) == R::zero_spec()
            &&& R::sub_spec(a@[i], b@[i]) == R::add_spec(a@[i], R::neg_spec(b@[i]))
        } by {
            R::lemma_add_laws(a@[i], b@[i], c@[i]);
        }
        assert(Self::add_spec(a, b)@ =~= Self::add_spec(b, a)@);
        assert(Self::add_spec(ab, c)@ =~= Self::add_spec(a, bc)@);
        assert(Self::add_spec(a, z)@ =~= a@);
        assert(Self::add_spec(a, na)@ =~= z@);
        assert(Self::sub_spec(a, b)@ =~= Self::add_spec(a, nb)@);
        Self::lemma_eq_by_view(Self::add_spec(a, b), Self::add_spec(b, a));
        Self::lemma_eq_by_view(Self::add_spec(ab, c), Self::add_spec(a, bc));
        Self::lemma_eq_by_view(Self::add_spec(a, z), a);
        Self::lemma_eq_by_view(Self::add_spec(a, na), z);
        Self::lemma_eq_by_view(Self::sub_spec(a, b), Self::add_spec(a, nb));
    }

    proof fn lemma_mul_laws(a: Self, b: Self, c: Self) {
        let ab = Self::mul_spec(a, b);
        let ac = Self::mul_spec(a, c);
        let bc = Self::mul_spec(b, c);
        let bpc = Self::add_spec(b, c);
        let o = Self::one_spec();
        let z = Self::zero_spec();
        Self::lemma_slots(a, b);
        Self::lemma_slots(b, a);
        Self::lemma_slots(b, c);
        Self::lemma_slots(a, c);
        Self::lemma_slots(ab, c);
        Self::lemma_slots(a, bc);
        Self::lemma_slots(a, o);
        Self::lemma_slots(a, z);
        Self::lemma_slots(a, bpc);
        Self::lemma_slots(ab, ac);
        assert forall|i: int| #![trigger a@[i]] 0 <= i < N implies {
            &&& R::mul_spec(a@[i], b@[i]) == R::mul_spec(b@[i], a@[i])
            &&& R::mul_spec(R::mul_spec(a@[i], b@[i]), c@[i]) == R::mul_spec(a@[i], R::mul_spec(b@[i], c@[i]))
            &&& R::mul_spec(a@[i], R::one_spec()) == a@[i]
            &&& R::mul_spec(a@[i], R::zero_spec()) == R::zero_spec()
            &&& R::mul_spec(a@[i], R::add_spec(b@[i], c@[i])) == R::add_spec(
                R::mul_spec(a@[i], b@[i]),
                R::mul_spec(a@[i], c@[i]),
            )
        } by {
            R::lemma_mul_laws(a@[i], b@[i], c@[i]);
        }
        assert(Self::mul_spec(a, b)@ =~= Self::mul_spec(b, a)@);
        assert(Self::mul_spec(ab, c)@ =~= Self::mul_spec(a, bc)@);
        assert(Self::mul_spec(a, o)@ =~= a@);
        assert(Self::mul_spec(a, z)@ =~= z@);
        assert(Self::mul_spec(a, bpc)@ =~= Self::add_spec(ab, ac)@);
        Self::lemma_eq_by_view(Self::mul_spec(a, b), Self::mul_spec(b, a));
        Self::lemma_eq_by_view(Self::mul_spec(ab, c), Self::mul_spec(a, bc));
        Self::lemma_eq_by_view(Self::mul_spec(a, o), a);
        Self::lemma_eq_by_view(Self::mul_spec(a, z), z);
        Self::lemma_eq_by_view(Self::mul_spec(a, bpc), Self::add_spec(ab, ac));
    }

    fn zero() -> (r: Self) {
        let z = R::zero();
        let r = TwistedNttPoly { evals: [z; N] };
        proof {
            R::lemma_identities_wf();
            Self::lemma_slots(r, r);
            assert(r@ =~= Self::zero_spec()@);
            Self::lemma_eq_by_view(r, Self::zero_spec());
        }
        r
    }

    fn one() -> (r: Self) {
        let o = R::one();
        let r = TwistedNttPoly { evals: [o; N] };
        proof {
            R::lemma_identities_wf();
            Self::lemma_slots(r, r);
            assert(r@ =~= Self::one_spec()@);
            Self::lemma_eq_by_view(r, Self::one_spec());
        }
        r
    }

    fn is_zero(&self) -> (b: bool) {
        proof {
            Self::lemma_slots(*self, *self);
        }
        let mut i: usize = 0;
        while i < N
            invariant
                i <= N,
                seq_wf(self@),
                self@.len() == N,
                forall|k: int| 0 <= k < i ==> self@[k] == R::zero_spec(),
            decreases N - i,
        {
            if !self.evals[i].is_zero() {
                proof {
                    Self::lemma_slots(*self, *self);
                    assert(Self::zero_spec()@[i as int] == R::zero_spec());
                }
                return false;
            }
            i = i + 1;
        }
        proof {
            assert(self@ =~= Self::zero_spec()@);
            Self::lemma_eq_by_view(*self, Self::zero_spec());
        }
        true
    }

    fn is_one(&self) -> (b: bool) {
        proof {
            Self::lemma_slots(*self, *self);
        }
        let mut i: usize = 0;
        while i < N
            invariant
                i <= N,
                seq_wf(self@),
                self@.len() == N,
                forall|k: int| 0 <= k < i ==> self@[k] == R::one_spec(),
            decreases N - i,
        {
            if !self.evals[i].is_one() {
                proof {
                    Self::lemma_slots(*self, *self);
                    assert(Self::one_spec()@[i as int] == R::one_spec());
                }
                return false;
            }
            i = i + 1;
        }
        proof {
            assert(self@ =~= Self::one_spec()@);
            Self::lemma_eq_by_view(*self, Self::one_spec());
        }
        true
    }

    fn add_ref(a: &Self, b: &Self) -> (r: Self) {
        let r = a.add_evals(b);
        proof {
            Self::lemma_slots(*a, *b);
            Self::lemma_eq_by_view(r, Self::add_spec(*a, *b));
        }
        r
    }

    fn sub_ref(a: &Self, b: &Self) -> (r: Self) {
        let r = a.sub_evals(b);
        proof {
            Self::lemma_slots(*a, *b);
            Self::lemma_eq_by_view(r, Self::sub_spec(*a, *b));
        }
        r
    }

    fn mul_ref(a: &Self, b: &Self) -> (r: Self) {
        let r = a.mul_evals(b);
        proof {
            Self::lemma_slots(*a, *b);
            assert(r@ =~= Self::mul_spec(*a, *b)@);
            Self::lemma_eq_by_view(r, Self::mul_spec(*a, *b));
        }
        r
    }

    fn neg_ref(a: &Self) -> (r: Self) {
        let mut evals = a.evals;
        let mut i: usize = 0;
        while i < N
            invariant
                seq_wf(a@),
                evals@.len() == N,
                i <= N,
                forall|k: int| 0 <= k < i ==> #[trigger] evals@[k] == R::neg_spec(a@[k]),
                forall|k: int| i <= k < N ==> #[trigger] evals@[k] == a@[k],
                seq_wf(evals@),
            decreases N - i,
        {
            let v = R::neg_ref(&a.evals[i]);
            proof {
                R::lemma_closed(a@[i as int], a@[i as int]);
            }
            evals[i] = v;
            i = i + 1;
        }
        let r = TwistedNttPoly { evals };
        proof {
            Self::lemma_slots(*a, *a);
            assert(r@ =~= Self::neg_spec(*a)@);
            Self::lemma_eq_by_view(r, Self::neg_spec(*a));
        }
        r
    }
}


impl<R: NTTRing, const N: usize> core::ops::Add for TwistedNttPoly<R, N> {
    type Output = Self;

    fn add(self, rhs: Self) -> (r: Self)
        ensures
            r == <Self as Ring>::add_spec(self, rhs),
            r.wf(),
    {
        <Self as Ring>::add_ref(&self, &rhs)
    }
}

impl<R: NTTRing, const N: usize> vstd::std_specs::ops::AddSpecImpl for TwistedNttPoly<R, N> {
    open spec fn obeys_add_spec() -> bool {
        false
    }

    open spec fn add_req(self, rhs: Self) -> bool {
        self.wf() && rhs.wf()
    }

    open spec fn add_spec(self, rhs: Self) -> Self {
        <Self as Ring>::add_spec(self, rhs)
    }
}

impl<R: NTTRing, const N: usize> core::ops::Sub for TwistedNttPoly<R, N> {
    type Output = Self;

    fn sub(self, rhs: Self) -> (r: Self)
        ensures
            r == <Self as Ring>::sub_spec(self, rhs),
            r.wf(),
    {
        <Self as Ring>::sub_ref(&self, &rhs)
    }
}

impl<R: NTTRing, const N: usize> vstd::std_specs::ops::SubSpecImpl for TwistedNttPoly<R, N> {
    open spec fn obeys_sub_spec() -> bool {
        false
    }

    open spec fn sub_req(self, rhs: Self) -> bool {
        self.wf() && rhs.wf()
    }

    open spec fn sub_spec(self, rhs: Self) -> Self {
        <Self as Ring>::sub_spec(self, rhs)
    }
}

impl<R: NTTRing, const N: usize> core::ops::Mul for TwistedNttPoly<R, N> {
    type Output = Self;

    fn mul(self, rhs: Self) -> (r: Self)
        ensures
            r == <Self as Ring>::mul_spec(self, rhs),
            r.wf(),
    {
        <Self as Ring>::mul_ref(&self, &rhs)
    }
}

impl<R: NTTRing, const N: usize> vstd::std_specs::ops::MulSpecImpl for TwistedNttPoly<R, N> {
    open spec fn obeys_mul_spec() -> bool {
        false
    }

    open spec fn mul_req(self, rhs: Self) -> bool {
        self.wf() && rhs.wf()
    }

    open spec fn mul_spec(self, rhs: Self) -> Self {
        <Self as Ring>::mul_spec(self, rhs)
    }
}

impl<R: NTTRing, const N: usize> core::ops::Neg for TwistedNttPoly<R, N> {
    type Output = Self;

    fn neg(self) -> (r: Self)
        ensures
            r == <Self as Ring>::neg_spec(self),
            r.wf(),
    {
        <Self as Ring>::neg_ref(&self)
    }
}

impl<R: NTTRing, const N: usize> vstd::std_specs::ops::NegSpecImpl for TwistedNttPoly<R, N> {
    open spec fn obeys_neg_spec() -> bool {
        false
    }

    open spec fn neg_req(self) -> bool {
        self.wf()
    }

    open spec fn neg_spec(self) -> Self {
        <Self as Ring>::neg_spec(self)
    }
}

impl<R: NTTRing + IntegerRing + CanonicalSerialize + CanonicalDeserialize, const N: usize> TwistedNttPoly<R, N> {
    /// Convert a coefficient-domain polynomial into the twisted evaluation domain.
    pub fn from_coeff_poly(poly: &CyclotomicPolyRing<R, N>) -> (r: Result<Self, NttError>)
        requires
            R::params_ok(),
            seq_wf(poly@),
        ensures
            r is Ok <==> twisted_supported::<R>(N as nat),
            r matches Ok(p) ==> twisted_outcome(poly@, p@, Ok(()), true) && seq_wf(p@),
            r matches Err(e) ==> e == twisted_error::<R>(N as nat),
    {
        Self::from_coeff_array(*poly.coeff_array())
    }

    /// Convert back into a coefficient-domain polynomial.
    pub fn to_coeff_poly(&self) -> (r: Result<CyclotomicPolyRing<R, N>, NttError>)
        requires
            R::params_ok(),
            seq_wf(self@),
        ensures
            r is Ok <==> twisted_supported::<R>(N as nat),
            r matches Ok(c) ==> twisted_outcome(self@, c@, Ok(()), false) && seq_wf(c@),
            r matches Err(e) ==> e == twisted_error::<R>(N as nat),
    {
        match self.to_coeff_array() {
            Ok(c) => Ok(CyclotomicPolyRing::from_array(c)),
            Err(e) => Err(e),
        }
    }
}

/// A valid twisted plan has a power-of-two length.
proof fn lemma_twisted_plan_pow2<R: Ring>(plan: &TwistedNttPlan<R>)
    requires
        plan.wf(),
    ensures
        crate::arith::ntt::is_pow2(plan.plan_len()),
{
    plan.lemma_wf_facts();
    plan.base_plan().lemma_forward_facts();
}

/// Convert coefficient-domain polynomials into the twisted evaluation domain with a
/// precomputed plan, which must have length `N`.
pub fn prepare_twisted_polys_with_plan<R: NTTRing + IntegerRing + CanonicalSerialize + CanonicalDeserialize, const N: usize>(
    polys: &[CyclotomicPolyRing<R, N>],
    plan: &TwistedNttPlan<R>,
) -> (r: Result<Vec<TwistedNttPoly<R, N>>, NttError>)
    requires
        plan.wf(),
        forall|i: int| 0 <= i < polys@.len() ==> seq_wf(#[trigger] polys@[i]@),
    ensures
        r is Ok <==> plan.plan_len() == N,
        r matches Err(e) ==> e == (NttError::LengthMismatch { left: plan.plan_len() as usize, right: N }),
        r matches Ok(v) ==> v@.len() == polys@.len() && forall|i: int|
            0 <= i < v@.len() ==> #[trigger] v@[i]@ == plan.forward_spec(polys@[i]@),
{
    if plan.len() != N {
        return Err(NttError::LengthMismatch { left: plan.len(), right: N });
    }
    let mut prepared: Vec<TwistedNttPoly<R, N>> = Vec::new();
    let mut i: usize = 0;
    while i < polys.len()
        invariant
            plan.wf(),
            plan.plan_len() == N,
            forall|k: int| 0 <= k < polys@.len() ==> seq_wf(#[trigger] polys@[k]@),
            i <= polys@.len(),
            prepared@.len() == i,
            forall|k: int| 0 <= k < i ==> #[trigger] prepared@[k]@ == plan.forward_spec(polys@[k]@),
        decreases polys@.len() - i,
    {
        let poly = &polys[i];
        match TwistedNttPoly::from_coeff_array_with_plan(*poly.coeff_array(), plan) {
            Ok(t) => prepared.push(t),
            Err(e) => return Err(e),
        }
        i = i + 1;
    }
    Ok(prepared)
}

/// Convert twisted-domain polynomials back into coefficient form with a precomputed
/// plan, which must have length `N`.
pub fn finish_twisted_polys_with_plan<R: NTTRing + IntegerRing + CanonicalSerialize + CanonicalDeserialize, const N: usize>(
    polys: &[TwistedNttPoly<R, N>],
    plan: &TwistedNttPlan<R>,
) -> (r: Result<Vec<CyclotomicPolyRing<R, N>>, NttError>)
    requires
        plan.wf(),
        forall|i: int| 0 <= i < polys@.len() ==> seq_wf(#[trigger] polys@[i]@),
    ensures
        r is Ok <==> plan.plan_len() == N,
        r matches Err(e) ==> e == (NttError::LengthMismatch { left: plan.plan_len() as usize, right: N }),
        r matches Ok(v) ==> v@.len() == polys@.len() && forall|i: int|
            0 <= i < v@.len() ==> #[trigger] v@[i]@ == plan.inverse_spec(polys@[i]@),
{
    if plan.len() != N {
        return Err(NttError::LengthMismatch { left: plan.len(), right: N });
    }
    proof {
        lemma_twisted_plan_pow2(plan);
    }
    let mut finished: Vec<CyclotomicPolyRing<R, N>> = Vec::new();
    let mut i: usize = 0;
    while i < polys.len()
        invariant
            plan.wf(),
            plan.plan_len() == N,
            crate::arith::ntt::is_pow2(N as nat),
            forall|k: int| 0 <= k < polys@.len() ==> seq_wf(#[trigger] polys@[k]@),
            i <= polys@.len(),
            finished@.len() == i,
            forall|k: int| 0 <= k < i ==> #[trigger] finished@[k]@ == plan.inverse_spec(polys@[k]@),
        decreases polys@.len() - i,
    {
        let poly = &polys[i];
        match poly.to_coeff_array_with_plan(plan) {
            Ok(c) => finished.push(CyclotomicPolyRing::from_array(c)),
            Err(e) => return Err(e),
        }
        i = i + 1;
    }
    Ok(finished)
}


/// Convert coefficient-domain polynomials into the twisted evaluation domain with the
/// ring's twisted plan of length `N`.
pub fn prepare_twisted_polys<R: NTTRing + IntegerRing + CanonicalSerialize + CanonicalDeserialize, const N: usize>(
    polys: &[CyclotomicPolyRing<R, N>],
) -> (r: Result<Vec<TwistedNttPoly<R, N>>, NttError>)
    requires
        R::params_ok(),
        forall|i: int| 0 <= i < polys@.len() ==> seq_wf(#[trigger] polys@[i]@),
    ensures
        r is Ok <==> twisted_supported::<R>(N as nat),
        r matches Err(e) ==> e == twisted_error::<R>(N as nat),
        r matches Ok(v) ==> v@.len() == polys@.len() && exists|p: TwistedNttPlan<R>|
            #[trigger] is_twisted_ring_plan(p, N as nat) && forall|i: int|
                0 <= i < v@.len() ==> #[trigger] v@[i]@ == p.forward_spec(polys@[i]@),
{
    let plan = match cached_twisted_plan::<R>(N) {
        Ok(p) => p,
        Err(e) => return Err(e),
    };
    let r = prepare_twisted_polys_with_plan(polys, &*plan);
    proof {
        let p = *plan;
        assert(is_twisted_ring_plan(p, N as nat));
    }
    r
}

/// Convert twisted-domain polynomials back into coefficient form with the ring's
/// twisted plan of length `N`.
pub fn finish_twisted_polys<R: NTTRing + IntegerRing + CanonicalSerialize + CanonicalDeserialize, const N: usize>(
    polys: &[TwistedNttPoly<R, N>],
) -> (r: Result<Vec<CyclotomicPolyRing<R, N>>, NttError>)
    requires
        R::params_ok(),
        forall|i: int| 0 <= i < polys@.len() ==> seq_wf(#[trigger] polys@[i]@),
    ensures
        r is Ok <==> twisted_supported::<R>(N as nat),
        r matches Err(e) ==> e == twisted_error::<R>(N as nat),
        r matches Ok(v) ==> v@.len() == polys@.len() && exists|p: TwistedNttPlan<R>|
            #[trigger] is_twisted_ring_plan(p, N as nat) && forall|i: int|
                0 <= i < v@.len() ==> #[trigger] v@[i]@ == p.inverse_spec(polys@[i]@),
{
    let plan = match cached_twisted_plan::<R>(N) {
        Ok(p) => p,
        Err(e) => return Err(e),
    };
    let r = finish_twisted_polys_with_plan(polys, &*plan);
    proof {
        let p = *plan;
        assert(is_twisted_ring_plan(p, N as nat));
    }
    r
}

} // verus!
